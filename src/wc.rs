use vstd::prelude::*;
use crate::scan::{decimal, push_decimal};
use crate::cut::join;
use crate::text::{chars_of, is_space, is_space_char, push_char, string_of};

verus! {

/// The counts asked for: characters, lines, words.
pub type Counts = (Option<usize>, Option<usize>, Option<usize>);

/// The number of words of `s`: maximal runs of characters that are not
/// white space.
pub open spec fn words(s: Seq<char>) -> nat
    decreases s.len(),
{
    if s.len() == 0 {
        0
    } else {
        let starts = !is_space(s.last()) && (s.len() == 1 || is_space(s[s.len() - 2]));
        words(s.drop_last()) + if starts {
            1nat
        } else {
            0nat
        }
    }
}

proof fn lemma_words_bound(s: Seq<char>)
    ensures
        words(s) <= s.len(),
    decreases s.len(),
{
    if s.len() > 0 {
        lemma_words_bound(s.drop_last());
    }
}

/// Counts the words of a line, as `split_whitespace` splits it.
pub fn count_words(line: &str) -> (r: usize)
    ensures
        r == words(line@),
{
    let cs = chars_of(line);
    let mut n: usize = 0;
    let mut i: usize = 0;
    while i < cs.len()
        invariant
            cs@ == line@,
            i <= cs@.len(),
            n == words(cs@.subrange(0, i as int)),
        decreases cs@.len() - i,
    {
        let ghost t = cs@.subrange(0, i + 1);
        proof {
            assert(t.drop_last() =~= cs@.subrange(0, i as int));
            lemma_words_bound(cs@.subrange(0, i as int));
        }
        let starts = !is_space_char(cs[i]) && (i == 0 || is_space_char(cs[i - 1]));
        if starts {
            n += 1;
        }
        i += 1;
    }
    proof {
        assert(cs@.subrange(0, i as int) =~= line@);
    }
    n
}

/// The counts after one more line `line` (without its line end): each
/// count that is asked for grows by what the line holds, its line end
/// counted as a character.
pub open spec fn tallied(c: Counts, line: Seq<char>) -> (Option<int>, Option<int>, Option<int>) {
    (
        match c.0 {
            Some(n) => Some(n + 1 + line.len()),
            None => None,
        },
        match c.1 {
            Some(n) => Some(n + 1),
            None => None,
        },
        match c.2 {
            Some(n) => Some(n + words(line)),
            None => None,
        },
    )
}

pub open spec fn counts_int(c: Counts) -> (Option<int>, Option<int>, Option<int>) {
    (
        match c.0 {
            Some(n) => Some(n as int),
            None => None,
        },
        match c.1 {
            Some(n) => Some(n as int),
            None => None,
        },
        match c.2 {
            Some(n) => Some(n as int),
            None => None,
        },
    )
}

/// Adds one line to the counts.
pub fn tally(c: Counts, line: &str) -> (r: Counts)
    requires
        c.0 matches Some(n) ==> n + 1 + line@.len() <= usize::MAX,
        c.1 matches Some(n) ==> n + 1 <= usize::MAX,
        c.2 matches Some(n) ==> n + line@.len() <= usize::MAX,
    ensures
        counts_int(r) == tallied(c, line@),
{
    let len = line.unicode_len();
    let chars = match c.0 {
        Some(n) => Some(n + 1 + len),
        None => None,
    };
    let lines = match c.1 {
        Some(n) => Some(n + 1),
        None => None,
    };
    let words_n = match c.2 {
        Some(n) => {
            let w = count_words(line);
            proof {
                lemma_words_bound(line@);
            }
            Some(n + w)
        },
        None => None,
    };
    (chars, lines, words_n)
}

/// The text that `{:?}` writes for a string: quoted, with escapes.
pub uninterp spec fn debug_text(s: Seq<char>) -> Seq<char>;

/// Relies on `str`'s `Debug`: the string quoted and escaped; the result
/// depends on the characters alone.
#[verifier::external_body]
fn quoted(s: &str) -> (r: String)
    ensures
        r@ == debug_text(s@),
{
    format!("{:?}", s)
}

/// The decimal forms of the counts that are present, in order.
pub open spec fn count_fields(c: Counts) -> Seq<Seq<char>> {
    fields_text(seq![c.0, c.1, c.2])
}

/// The result line: the counts that are present, separated by spaces, then
/// a space and the quoted file name.
pub fn format_with(filename: &str, c: Counts) -> (r: String)
    ensures
        r@ == join(count_fields(c), ' ') + seq![' '] + debug_text(filename@),
{
    let mut out: Vec<char> = Vec::new();
    let ghost mut parts: Seq<Seq<char>> = Seq::empty();
    let fields: [Option<usize>; 3] = [c.0, c.1, c.2];
    let mut k: usize = 0;
    let mut any = false;
    proof {
        assert(fields@.take(0) =~= Seq::<Option<usize>>::empty());
    }
    while k < 3
        invariant
            k <= 3,
            fields@ == seq![c.0, c.1, c.2],
            parts == fields_text(fields@.take(k as int)),
            out@ == join(parts, ' '),
            any == (parts.len() > 0),
        decreases 3 - k,
    {
        let ghost p0 = parts;
        let ghost o0 = out@;
        proof {
            assert(fields@.take(k + 1).drop_last() =~= fields@.take(k as int));
            assert(fields@.take(k + 1).last() == fields@[k as int]);
        }
        match fields[k] {
            Some(n) => {
                if any {
                    out.push(' ');
                }
                push_decimal(n as u64, &mut out);
                any = true;
                proof {
                    parts = parts.push(decimal(n as nat));
                    assert(parts.drop_last() =~= p0);
                    if p0.len() == 0 {
                        assert(o0 =~= Seq::<char>::empty());
                        assert(out@ =~= decimal(n as nat));
                    }
                }
            },
            None => {},
        }
        k += 1;
    }
    proof {
        assert(fields@.take(3) =~= fields@);
        assert(parts =~= count_fields(c));
    }
    let name = quoted(filename);
    let mut r = string_of(&out);
    push_char(&mut r, ' ');
    r.append(name.as_str());
    r
}

/// The decimal forms of the present values of `f`, in order.
pub open spec fn fields_text(f: Seq<Option<usize>>) -> Seq<Seq<char>>
    decreases f.len(),
{
    if f.len() == 0 {
        Seq::empty()
    } else {
        let head = fields_text(f.drop_last());
        match f.last() {
            Some(n) => head.push(decimal(n as nat)),
            None => head,
        }
    }
}

} // verus!
