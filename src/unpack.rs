use vstd::prelude::*;
use crate::scan::number_in;
use crate::text::{all_digits, chars_of, is_digit, push_char, string_of};

verus! {

/// The character waiting to be written: as read, or after a backslash.
pub enum Char {
    Raw(char),
    Escaped(char),
}

pub open spec fn char_of(c: Char) -> char {
    match c {
        Char::Raw(x) => x,
        Char::Escaped(x) => x,
    }
}

/// `n` copies of `c`.
pub open spec fn copies(c: char, n: nat) -> Seq<char> {
    Seq::new(n, |_i: int| c)
}

/// One character `cur` read with `prev` waiting and `out` written so far:
/// a backslash escapes a following backslash or digit; a digit `n` after a
/// character writes `n - 1` more copies of it (none for `0`) and keeps it
/// waiting; any other character writes the waiting one and waits itself.
/// A digit with nothing before it is an error.
pub open spec fn unpack_step(prev: Option<Char>, out: Seq<char>, cur: char) -> Option<
    (Option<Char>, Seq<char>),
> {
    match prev {
        None => if is_digit(cur) {
            None
        } else {
            Some((Some(Char::Raw(cur)), out))
        },
        Some(p) => if p == Char::Raw('\\') && (cur == '\\' || is_digit(cur)) {
            Some((Some(Char::Escaped(cur)), out))
        } else if is_digit(cur) {
            let n = cur as int - '0' as int;
            Some(
                (
                    Some(Char::Raw(char_of(p))),
                    out + copies(char_of(p), if n > 0 { (n - 1) as nat } else { 0 }),
                ),
            )
        } else {
            Some((Some(Char::Raw(cur)), out.push(char_of(p))))
        },
    }
}

/// The state after reading all of `s`, or `None` after an error.
pub open spec fn unpack_run(s: Seq<char>) -> Option<(Option<Char>, Seq<char>)>
    decreases s.len(),
{
    if s.len() == 0 {
        Some((None, Seq::empty()))
    } else {
        match unpack_run(s.drop_last()) {
            None => None,
            Some((p, o)) => unpack_step(p, o, s.last()),
        }
    }
}

/// What `s` unpacks to: the text written, then the character still waiting.
pub open spec fn unpacked(s: Seq<char>) -> Option<Seq<char>> {
    match unpack_run(s) {
        None => None,
        Some((None, o)) => Some(o),
        Some((Some(p), o)) => Some(o.push(char_of(p))),
    }
}

/// Unpacks a string: a character followed by a digit `n` stands for `n`
/// copies of it (`a4bc2` is `aaaabcc`), and a backslash makes the next digit
/// or backslash a plain character. `None` where a digit comes first.
pub fn unpack(s: &str) -> (r: Option<String>)
    ensures
        match unpacked(s@) {
            Some(t) => r matches Some(x) && x@ == t,
            None => r is None,
        },
{
    let cs = chars_of(s);
    let mut buf = String::new();
    let mut prev: Option<Char> = None;
    let mut i: usize = 0;
    while i < cs.len()
        invariant
            cs@ == s@,
            i <= cs@.len(),
            unpack_run(cs@.subrange(0, i as int)) == Some((prev, buf@)),
        decreases cs@.len() - i,
    {
        let cur = cs[i];
        let ghost before = buf@;
        proof {
            let t = cs@.subrange(0, i + 1);
            assert(t.drop_last() =~= cs@.subrange(0, i as int));
            assert(t.last() == cur);
        }
        let is_d = '0' <= cur && cur <= '9';
        match prev {
            None => {
                if is_d {
                    proof {
                        lemma_run_stays_failed(cs@, i + 1);
                    }
                    return None;
                }
                prev = Some(Char::Raw(cur));
            },
            Some(p) => {
                let escaping = match p {
                    Char::Raw(x) => x == '\\',
                    Char::Escaped(_) => false,
                };
                let c = match p {
                    Char::Raw(x) => x,
                    Char::Escaped(x) => x,
                };
                if escaping && (cur == '\\' || is_d) {
                    prev = Some(Char::Escaped(cur));
                } else if is_d {
                    let n = (cur as u32) - ('0' as u32);
                    let mut k: u32 = 1;
                    while k < n
                        invariant
                            1 <= k <= 9,
                            n <= 9,
                            k <= n || (n == 0 && k == 1),
                            buf@ == before + copies(c, (k - 1) as nat),
                        decreases n - k,
                    {
                        push_char(&mut buf, c);
                        proof {
                            assert(buf@ =~= before + copies(c, k as nat));
                        }
                        k += 1;
                    }
                    proof {
                        let m: nat = if n > 0 { (n - 1) as nat } else { 0 };
                        if n == 0 {
                            assert(k == 1);
                        } else {
                            assert(k == n);
                        }
                        assert((k - 1) as nat == m);
                        assert(buf@ =~= before + copies(c, m));
                    }
                    prev = Some(Char::Raw(c));
                } else {
                    push_char(&mut buf, c);
                    prev = Some(Char::Raw(cur));
                }
            },
        }
        i += 1;
    }
    proof {
        assert(cs@.subrange(0, i as int) =~= s@);
    }
    match prev {
        Some(p) => {
            let c = match p {
                Char::Raw(x) => x,
                Char::Escaped(x) => x,
            };
            push_char(&mut buf, c);
        },
        None => {},
    }
    Some(buf)
}

proof fn lemma_run_stays_failed(s: Seq<char>, k: int)
    requires
        0 < k <= s.len(),
        unpack_run(s.subrange(0, k)) is None,
    ensures
        unpacked(s) is None,
    decreases s.len() - k,
{
    if k < s.len() {
        let t = s.subrange(0, k + 1);
        assert(t.drop_last() =~= s.subrange(0, k));
        lemma_run_stays_failed(s, k + 1);
    } else {
        assert(s.subrange(0, k) =~= s);
    }
}

} // verus!

verus! {

/// Why a string does not unpack by counts.
#[derive(PartialEq, Eq, Structural, Clone, Copy, Debug)]
pub enum UnpackError {
    /// A count comes first, with no character before it.
    MissingLetter,
    /// A count does not fit in 64 bits.
    CountTooLarge,
}

/// The index of the first decimal digit in `s`, or `s.len()`.
pub open spec fn first_digit(s: Seq<char>) -> int
    decreases s.len(),
{
    if s.len() == 0 {
        0
    } else if is_digit(s[0]) {
        0
    } else {
        1 + first_digit(s.skip(1))
    }
}

/// The index after the run of digits that starts at `p`.
pub open spec fn digits_end(s: Seq<char>, p: int) -> int
    decreases s.len() - p,
{
    if p < 0 || p >= s.len() || !is_digit(s[p]) {
        p
    } else {
        digits_end(s, p + 1)
    }
}

/// What `s` unpacks to when each character before a run of digits is
/// written that many times (`a12b3` is twelve `a`s and three `b`s).
pub open spec fn unpacked_by_counts(s: Seq<char>) -> Result<Seq<char>, UnpackError>
    decreases s.len() via unpacked_by_counts_decreases
{
    let p = first_digit(s);
    if p >= s.len() || p < 0 {
        Ok(s)
    } else if p == 0 {
        Err(UnpackError::MissingLetter)
    } else {
        let e = digits_end(s, p);
        let n = crate::text::digits_value(s.subrange(p, e));
        if n > u64::MAX {
            Err(UnpackError::CountTooLarge)
        } else {
            match unpacked_by_counts(s.skip(e)) {
                Ok(rest) => Ok(s.take(p - 1) + copies(s[p - 1], n as nat) + rest),
                Err(x) => Err(x),
            }
        }
    }
}

#[via_fn]
proof fn unpacked_by_counts_decreases(s: Seq<char>) {
    lemma_first_digit(s);
    let p = first_digit(s);
    if 0 < p < s.len() {
        lemma_digits_end(s, p);
    }
}

proof fn lemma_first_digit(s: Seq<char>)
    ensures
        0 <= first_digit(s) <= s.len(),
        first_digit(s) < s.len() ==> is_digit(s[first_digit(s)]),
        forall|i: int| 0 <= i < first_digit(s) ==> !is_digit(#[trigger] s[i]),
    decreases s.len(),
{
    if s.len() > 0 && !is_digit(s[0]) {
        lemma_first_digit(s.skip(1));
        assert forall|i: int| 0 <= i < first_digit(s) implies !is_digit(#[trigger] s[i]) by {
            if i > 0 {
                assert(s[i] == s.skip(1)[i - 1]);
            }
        }
    }
}

proof fn lemma_digits_end(s: Seq<char>, p: int)
    requires
        0 <= p <= s.len(),
    ensures
        p <= digits_end(s, p) <= s.len(),
        p < s.len() && is_digit(s[p]) ==> p < digits_end(s, p),
        forall|i: int| p <= i < digits_end(s, p) ==> is_digit(#[trigger] s[i]),
        digits_end(s, p) < s.len() ==> !is_digit(s[digits_end(s, p)]),
    decreases s.len() - p,
{
    if p < s.len() && is_digit(s[p]) {
        lemma_digits_end(s, p + 1);
    }
}

proof fn lemma_first_digit_is(s: Seq<char>, k: int)
    requires
        0 <= k <= s.len(),
        k < s.len() ==> is_digit(s[k]),
        forall|i: int| 0 <= i < k ==> !is_digit(#[trigger] s[i]),
    ensures
        first_digit(s) == k,
    decreases s.len(),
{
    if s.len() > 0 && k > 0 {
        assert forall|i: int| 0 <= i < k - 1 implies !is_digit(#[trigger] s.skip(1)[i]) by {
            assert(s.skip(1)[i] == s[i + 1]);
        }
        lemma_first_digit_is(s.skip(1), k - 1);
    }
}

proof fn lemma_digits_end_is(s: Seq<char>, p: int, e: int)
    requires
        0 <= p <= e <= s.len(),
        forall|i: int| p <= i < e ==> is_digit(#[trigger] s[i]),
        e < s.len() ==> !is_digit(s[e]),
    ensures
        digits_end(s, p) == e,
    decreases e - p,
{
    if p < e {
        lemma_digits_end_is(s, p + 1, e);
    }
}

/// Unpacks a string in which each character before a run of digits stands
/// for that many copies of it (`a12b3`: twelve `a`s, three `b`s).
pub fn unpack_ascii(s: &str) -> (r: Result<String, UnpackError>)
    ensures
        match unpacked_by_counts(s@) {
            Ok(t) => r matches Ok(x) && x@ == t,
            Err(e) => r == Err::<String, UnpackError>(e),
        },
{
    let cs = chars_of(s);
    let n = cs.len();
    let mut out: Vec<char> = Vec::new();
    let mut pos: usize = 0;
    proof {
        assert(cs@.skip(0) =~= cs@);
        assert(Seq::<char>::empty() + cs@ =~= cs@);
    }
    loop
        invariant
            cs@ == s@,
            n == cs@.len(),
            pos <= n,
            match unpacked_by_counts(cs@.skip(pos as int)) {
                Ok(x) => unpacked_by_counts(cs@) == Ok::<Seq<char>, UnpackError>(out@ + x),
                Err(e) => unpacked_by_counts(cs@) == Err::<Seq<char>, UnpackError>(e),
            },
        decreases n - pos,
    {
        let ghost t = cs@.skip(pos as int);
        let mut p: usize = pos;
        while p < n && !('0' <= cs[p] && cs[p] <= '9')
            invariant
                pos <= p <= n,
                n == cs@.len(),
                forall|i: int| pos <= i < p ==> !is_digit(#[trigger] cs@[i]),
            decreases n - p,
        {
            p += 1;
        }
        proof {
            assert forall|i: int| 0 <= i < p - pos implies !is_digit(#[trigger] t[i]) by {
                assert(t[i] == cs@[pos + i]);
            }
            if p < n {
                assert(t[p - pos] == cs@[p as int]);
            }
            lemma_first_digit_is(t, p - pos);
        }
        if p == n {
            let mut i: usize = pos;
            let ghost out0 = out@;
            while i < n
                invariant
                    pos <= i <= n,
                    n == cs@.len(),
                    out@ == out0 + cs@.subrange(pos as int, i as int),
                decreases n - i,
            {
                out.push(cs[i]);
                proof {
                    assert(cs@.subrange(pos as int, i + 1) =~= cs@.subrange(pos as int, i as int).push(
                        cs@[i as int],
                    ));
                }
                i += 1;
            }
            proof {
                assert(cs@.subrange(pos as int, n as int) =~= t);
            }
            return Ok(string_of(&out));
        }
        if p == pos {
            return Err(UnpackError::MissingLetter);
        }
        let mut e: usize = p;
        while e < n && '0' <= cs[e] && cs[e] <= '9'
            invariant
                p <= e <= n,
                n == cs@.len(),
                p < n && is_digit(cs@[p as int]),
                forall|i: int| p <= i < e ==> is_digit(#[trigger] cs@[i]),
            decreases n - e,
        {
            e += 1;
        }
        proof {
            assert forall|i: int| p - pos <= i < e - pos implies is_digit(#[trigger] t[i]) by {
                assert(t[i] == cs@[pos + i]);
            }
            if e < n {
                assert(t[e - pos] == cs@[e as int]);
            }
            lemma_digits_end_is(t, p - pos, e - pos);
            assert(t.subrange(p - pos, e - pos) =~= cs@.subrange(p as int, e as int));
            assert(t.skip(e - pos) =~= cs@.skip(e as int));
            assert(t.take(p - pos - 1) =~= cs@.subrange(pos as int, p - 1));
            assert(t[p - pos - 1] == cs@[p - 1]);
            assert(all_digits(cs@.subrange(p as int, e as int))) by {
                assert forall|i: int| 0 <= i < e - p implies is_digit(
                    #[trigger] cs@.subrange(p as int, e as int)[i],
                ) by {
                    assert(cs@.subrange(p as int, e as int)[i] == cs@[p + i]);
                }
            }
        }
        proof {
            assert(e > p);
        }
        let count = match number_in(&cs, p, e) {
            None => {
                proof {
                    assert(crate::scan::number(cs@.subrange(p as int, e as int)) is Some);
                    crate::text::lemma_digits_value_nonneg(cs@.subrange(p as int, e as int));
                    assert(crate::text::digits_value(t.subrange(p - pos, e - pos)) > u64::MAX);
                    assert(first_digit(t) == p - pos);
                    assert(digits_end(t, p - pos) == e - pos);
                    assert(unpacked_by_counts(t) == Err::<Seq<char>, UnpackError>(
                        UnpackError::CountTooLarge,
                    ));
                }
                return Err(UnpackError::CountTooLarge);
            },
            Some(c) => c,
        };
        let ghost out0 = out@;
        let mut i: usize = pos;
        while i < p - 1
            invariant
                pos <= i <= p - 1,
                p < n == cs@.len(),
                out@ == out0 + cs@.subrange(pos as int, i as int),
            decreases p - 1 - i,
        {
            out.push(cs[i]);
            proof {
                assert(cs@.subrange(pos as int, i + 1) =~= cs@.subrange(pos as int, i as int).push(
                    cs@[i as int],
                ));
            }
            i += 1;
        }
        let letter = cs[p - 1];
        let ghost out1 = out@;
        let mut c: u64 = 0;
        while c < count
            invariant
                c <= count,
                out@ == out1 + copies(letter, c as nat),
            decreases count - c,
        {
            out.push(letter);
            proof {
                assert(out@ =~= out1 + copies(letter, (c + 1) as nat));
            }
            c += 1;
        }
        proof {
            match unpacked_by_counts(cs@.skip(e as int)) {
                Ok(x) => {
                    assert(out0 + (cs@.subrange(pos as int, p - 1) + copies(letter, count as nat) + x)
                        =~= out@ + x);
                },
                Err(_) => {},
            }
        }
        pos = e;
    }
}

} // verus!
