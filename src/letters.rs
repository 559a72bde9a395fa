use vstd::prelude::*;
use crate::text::chars_of;

verus! {

/// The counter of an ASCII letter: 0 to 25 for `A` to `Z`, 26 to 51 for
/// `a` to `z`; -1 for any other character.
pub open spec fn letter_index(c: char) -> int {
    if 'A' <= c <= 'Z' {
        c as int - 'A' as int
    } else if 'a' <= c <= 'z' {
        26 + c as int - 'a' as int
    } else {
        -1
    }
}

/// How many characters of `s` are the letter with counter `k`.
pub open spec fn occurrences(s: Seq<char>, k: int) -> nat
    decreases s.len(),
{
    if s.len() == 0 {
        0
    } else {
        occurrences(s.drop_last(), k) + if letter_index(s.last()) == k {
            1nat
        } else {
            0nat
        }
    }
}

proof fn lemma_occurrences_bound(s: Seq<char>, k: int)
    ensures
        occurrences(s, k) <= s.len(),
    decreases s.len(),
{
    if s.len() > 0 {
        lemma_occurrences_bound(s.drop_last(), k);
    }
}

/// Adds the ASCII letters of `s` to 52 counters, `A` to `Z` then `a` to `z`.
pub fn count_letters(s: &str, counts: &mut Vec<usize>)
    requires
        old(counts)@.len() == 52,
        forall|k: int| 0 <= k < 52 ==> old(counts)@[k] + s@.len() <= usize::MAX,
    ensures
        final(counts)@.len() == 52,
        forall|k: int|
            0 <= k < 52 ==> #[trigger] final(counts)@[k] == old(counts)@[k] + occurrences(s@, k),
{
    let cs = chars_of(s);
    let ghost c0 = counts@;
    let mut i: usize = 0;
    while i < cs.len()
        invariant
            cs@ == s@,
            i <= cs@.len(),
            counts@.len() == 52,
            forall|k: int| 0 <= k < 52 ==> c0[k] + s@.len() <= usize::MAX,
            forall|k: int|
                0 <= k < 52 ==> #[trigger] counts@[k] == c0[k] + occurrences(
                    cs@.subrange(0, i as int),
                    k,
                ),
        decreases cs@.len() - i,
    {
        let c = cs[i];
        let ghost before = counts@;
        proof {
            let t = cs@.subrange(0, i + 1);
            assert(t.drop_last() =~= cs@.subrange(0, i as int));
            assert(t.last() == c);
            assert forall|k: int| 0 <= k < 52 implies occurrences(t, k) <= i + 1 by {
                lemma_occurrences_bound(t, k);
            }
        }
        if 'A' <= c && c <= 'Z' {
            let k = (c as u32 - 'A' as u32) as usize;
            proof {
                lemma_occurrences_bound(cs@.subrange(0, i as int), k as int);
            }
            let v = counts[k] + 1;
            counts.set(k, v);
        } else if 'a' <= c && c <= 'z' {
            let k = (c as u32 - 'a' as u32 + 26) as usize;
            proof {
                lemma_occurrences_bound(cs@.subrange(0, i as int), k as int);
            }
            let v = counts[k] + 1;
            counts.set(k, v);
        }
        i += 1;
    }
    proof {
        assert(cs@.subrange(0, i as int) =~= s@);
    }
}

} // verus!
