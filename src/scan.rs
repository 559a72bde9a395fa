use vstd::prelude::*;
use crate::text::{all_digits, digits_value, is_digit, lemma_digits_value_nonneg};

verus! {

/// The first index of `c` in `t`, or -1.
pub open spec fn find(t: Seq<char>, c: char) -> int
    decreases t.len(),
{
    if t.len() == 0 {
        -1
    } else if t[0] == c {
        0
    } else {
        let k = find(t.skip(1), c);
        if k < 0 {
            -1
        } else {
            k + 1
        }
    }
}

/// The last index of `c` in `t`, or -1.
pub open spec fn find_last(t: Seq<char>, c: char) -> int
    decreases t.len(),
{
    if t.len() == 0 {
        -1
    } else if t.last() == c {
        t.len() - 1
    } else {
        find_last(t.drop_last(), c)
    }
}

/// The number that a nonempty run of decimal digits writes.
pub open spec fn number(t: Seq<char>) -> Option<nat> {
    if t.len() > 0 && all_digits(t) {
        Some(digits_value(t) as nat)
    } else {
        None
    }
}

pub open spec fn digit_char(d: int) -> char {
    seq!['0', '1', '2', '3', '4', '5', '6', '7', '8', '9'][d]
}

/// The decimal digits of `n`, most significant first.
pub open spec fn decimal(n: nat) -> Seq<char>
    decreases n,
{
    if n < 10 {
        seq![digit_char(n as int)]
    } else {
        decimal(n / 10).push(digit_char((n % 10) as int))
    }
}

pub(crate) proof fn lemma_find_is(t: Seq<char>, c: char, k: int)
    requires
        -1 <= k < t.len(),
        k >= 0 ==> t[k] == c,
        forall|j: int| 0 <= j < t.len() && (k < 0 || j < k) ==> t[j] != c,
    ensures
        find(t, c) == k,
    decreases t.len(),
{
    if t.len() > 0 && k != 0 {
        let k2 = if k < 0 { -1 } else { k - 1 };
        assert forall|j: int| 0 <= j < t.skip(1).len() && (k2 < 0 || j < k2) implies t.skip(1)[j]
            != c by {
            assert(t.skip(1)[j] == t[j + 1]);
        }
        lemma_find_is(t.skip(1), c, k2);
    }
}

pub(crate) proof fn lemma_find_last_is(t: Seq<char>, c: char, k: int)
    requires
        -1 <= k < t.len(),
        k >= 0 ==> t[k] == c,
        forall|j: int| k < j < t.len() ==> t[j] != c,
    ensures
        find_last(t, c) == k,
    decreases t.len(),
{
    if t.len() > 0 && k != t.len() - 1 {
        assert forall|j: int| k < j < t.drop_last().len() implies t.drop_last()[j] != c by {
            assert(t.drop_last()[j] == t[j]);
        }
        lemma_find_last_is(t.drop_last(), c, k);
    }
}

/// The first index of `c` in `cs[lo..hi]`, if any.
pub(crate) fn find_in(cs: &Vec<char>, lo: usize, hi: usize, c: char) -> (r: Option<usize>)
    requires
        lo <= hi <= cs@.len(),
    ensures
        match r {
            Some(k) => lo <= k < hi && find(cs@.subrange(lo as int, hi as int), c) == k - lo,
            None => find(cs@.subrange(lo as int, hi as int), c) == -1,
        },
{
    let ghost t = cs@.subrange(lo as int, hi as int);
    let mut i: usize = lo;
    while i < hi
        invariant
            lo <= i <= hi <= cs@.len(),
            t == cs@.subrange(lo as int, hi as int),
            forall|j: int| lo <= j < i ==> cs@[j] != c,
        decreases hi - i,
    {
        if cs[i] == c {
            proof {
                lemma_find_is(t, c, i - lo);
            }
            return Some(i);
        }
        i += 1;
    }
    proof {
        lemma_find_is(t, c, -1);
    }
    None
}

/// The last index of `c` in `cs[lo..hi]`, if any.
pub(crate) fn find_last_in(cs: &Vec<char>, lo: usize, hi: usize, c: char) -> (r: Option<usize>)
    requires
        lo <= hi <= cs@.len(),
    ensures
        match r {
            Some(k) => lo <= k < hi && find_last(cs@.subrange(lo as int, hi as int), c) == k - lo,
            None => find_last(cs@.subrange(lo as int, hi as int), c) == -1,
        },
{
    let ghost t = cs@.subrange(lo as int, hi as int);
    let mut i: usize = hi;
    while i > lo
        invariant
            lo <= i <= hi <= cs@.len(),
            t == cs@.subrange(lo as int, hi as int),
            forall|j: int| i <= j < hi ==> cs@[j] != c,
        decreases i - lo,
    {
        if cs[i - 1] == c {
            proof {
                lemma_find_last_is(t, c, i - 1 - lo);
            }
            return Some(i - 1);
        }
        i -= 1;
    }
    proof {
        lemma_find_last_is(t, c, -1);
    }
    None
}

pub(crate) proof fn lemma_digits_prefix(s: Seq<char>, k: int)
    requires
        0 <= k < s.len(),
    ensures
        digits_value(s.subrange(0, k + 1)) == 10 * digits_value(s.subrange(0, k)) + (s[k] as int
            - '0' as int),
{
    assert(s.subrange(0, k + 1).drop_last() =~= s.subrange(0, k));
}

pub(crate) proof fn lemma_digits_nonneg_mono(s: Seq<char>, k: int)
    requires
        all_digits(s),
        0 <= k <= s.len(),
    ensures
        0 <= digits_value(s.subrange(0, k)) <= digits_value(s),
    decreases s.len() - k,
{
    if k < s.len() {
        lemma_digits_nonneg_mono(s, k + 1);
        lemma_digits_prefix(s, k);
        assert(is_digit(s[k]));
    } else {
        assert(s.subrange(0, k) =~= s);
        lemma_digits_value_nonneg(s);
    }
}

/// The number that `cs[lo..hi]` writes in decimal, where it fits in a `u64`.
pub(crate) fn number_in(cs: &Vec<char>, lo: usize, hi: usize) -> (r: Option<u64>)
    requires
        lo <= hi <= cs@.len(),
    ensures
        match number(cs@.subrange(lo as int, hi as int)) {
            Some(v) => if v <= u64::MAX {
                r == Some(v as u64)
            } else {
                r is None
            },
            None => r is None,
        },
{
    let ghost t = cs@.subrange(lo as int, hi as int);
    if lo == hi {
        return None;
    }
    let mut acc: u64 = 0;
    let mut i: usize = lo;
    while i < hi
        invariant
            lo <= i <= hi <= cs@.len(),
            lo < hi,
            t == cs@.subrange(lo as int, hi as int),
            all_digits(t.subrange(0, i - lo)),
            acc == digits_value(t.subrange(0, i - lo)),
        decreases hi - i,
    {
        let c = cs[i];
        if !('0' <= c && c <= '9') {
            proof {
                assert(t[i - lo] == c);
            }
            return None;
        }
        proof {
            lemma_digits_prefix(t, i - lo);
            let u = t.subrange(0, i - lo + 1);
            assert(all_digits(u)) by {
                assert forall|j: int| 0 <= j < u.len() implies is_digit(#[trigger] u[j]) by {
                    assert(u[j] == t[j]);
                    if j < i - lo {
                        assert(t.subrange(0, i - lo)[j] == t[j]);
                    }
                }
            }
        }
        let d = (c as u32 - '0' as u32) as u64;
        match acc.checked_mul(10) {
            None => {
                proof {
                    if all_digits(t) {
                        lemma_digits_nonneg_mono(t, i - lo + 1);
                    }
                }
                return None;
            },
            Some(m) => match m.checked_add(d) {
                None => {
                    proof {
                        if all_digits(t) {
                            lemma_digits_nonneg_mono(t, i - lo + 1);
                        }
                    }
                    return None;
                },
                Some(v) => {
                    acc = v;
                },
            },
        }
        i += 1;
    }
    proof {
        assert(t.subrange(0, hi - lo) =~= t);
    }
    Some(acc)
}

pub(crate) fn digit_char_exec(d: u64) -> (c: char)
    requires
        d < 10,
    ensures
        c == digit_char(d as int),
{
    let digits: [char; 10] = ['0', '1', '2', '3', '4', '5', '6', '7', '8', '9'];
    proof {
        assert(digits@ =~= seq!['0', '1', '2', '3', '4', '5', '6', '7', '8', '9']);
    }
    digits[d as usize]
}

/// Appends the decimal digits of `n`.
pub(crate) fn push_decimal(n: u64, out: &mut Vec<char>)
    ensures
        final(out)@ == old(out)@ + decimal(n as nat),
    decreases n,
{
    if n < 10 {
        out.push(digit_char_exec(n));
        proof {
            assert(final(out)@ =~= old(out)@ + decimal(n as nat));
        }
    } else {
        push_decimal(n / 10, out);
        out.push(digit_char_exec(n % 10));
        proof {
            assert((n / 10) as nat == (n as nat) / 10);
            assert(final(out)@ =~= old(out)@ + decimal(n as nat));
        }
    }
}

pub(crate) proof fn lemma_decimal_digits(n: nat)
    ensures
        decimal(n).len() > 0,
        all_digits(decimal(n)),
    decreases n,
{
    if n >= 10 {
        lemma_decimal_digits(n / 10);
        let d = decimal(n / 10).push(digit_char((n % 10) as int));
        assert forall|i: int| 0 <= i < d.len() implies is_digit(#[trigger] d[i]) by {
            if i < d.len() - 1 {
                assert(d[i] == decimal(n / 10)[i]);
            }
        }
    }
}

pub(crate) proof fn lemma_find_last_bounds(t: Seq<char>, c: char)
    ensures
        -1 <= find_last(t, c) < t.len(),
        find_last(t, c) >= 0 ==> t[find_last(t, c)] == c,
    decreases t.len(),
{
    if t.len() > 0 && t.last() != c {
        lemma_find_last_bounds(t.drop_last(), c);
    }
}

pub(crate) proof fn lemma_find_bounds(t: Seq<char>, c: char)
    ensures
        -1 <= find(t, c) < t.len(),
        find(t, c) >= 0 ==> t[find(t, c)] == c,
        forall|j: int| 0 <= j < t.len() && (find(t, c) < 0 || j < find(t, c)) ==> t[j] != c,
    decreases t.len(),
{
    if t.len() > 0 && t[0] != c {
        lemma_find_bounds(t.skip(1), c);
        assert forall|j: int| 0 <= j < t.len() && (find(t, c) < 0 || j < find(t, c)) implies t[j]
            != c by {
            if j > 0 {
                assert(t[j] == t.skip(1)[j - 1]);
            }
        }
    }
}

} // verus!
