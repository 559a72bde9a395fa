use vstd::prelude::*;
use crate::cmd::texts;
use crate::text::chars_of;

verus! {

/// Lexicographic order of texts by code point, as `str`'s `Ord` orders them.
pub open spec fn text_lt(a: Seq<char>, b: Seq<char>) -> bool
    decreases a.len(),
{
    if a.len() == 0 {
        b.len() > 0
    } else if b.len() == 0 {
        false
    } else if a[0] != b[0] {
        a[0] < b[0]
    } else {
        text_lt(a.skip(1), b.skip(1))
    }
}

pub open spec fn strictly_sorted(s: Seq<Seq<char>>) -> bool {
    forall|i: int, j: int| 0 <= i < j < s.len() ==> text_lt(#[trigger] s[i], #[trigger] s[j])
}

pub proof fn lemma_text_lt_transitive(a: Seq<char>, b: Seq<char>, c: Seq<char>)
    requires
        text_lt(a, b),
        text_lt(b, c),
    ensures
        text_lt(a, c),
    decreases a.len(),
{
    if a.len() > 0 && b.len() > 0 && c.len() > 0 && a[0] == b[0] && b[0] == c[0] {
        lemma_text_lt_transitive(a.skip(1), b.skip(1), c.skip(1));
    }
}

pub proof fn lemma_text_lt_total(a: Seq<char>, b: Seq<char>)
    ensures
        a == b || text_lt(a, b) || text_lt(b, a),
        !(text_lt(a, b) && text_lt(b, a)),
    decreases a.len(),
{
    if a.len() > 0 && b.len() > 0 && a[0] == b[0] {
        lemma_text_lt_total(a.skip(1), b.skip(1));
        if a.skip(1) == b.skip(1) {
            assert(a =~= seq![a[0]] + a.skip(1));
            assert(b =~= seq![b[0]] + b.skip(1));
        }
    } else if a.len() == 0 && b.len() == 0 {
        assert(a =~= b);
    }
}

/// Compares two texts: negative, zero or positive as `a` comes before, is
/// equal to, or comes after `b`.
pub fn compare_text(a: &str, b: &str) -> (r: i8)
    ensures
        r < 0 <==> text_lt(a@, b@),
        r == 0 <==> a@ == b@,
        r > 0 <==> text_lt(b@, a@),
{
    let x = chars_of(a);
    let y = chars_of(b);
    let mut i: usize = 0;
    proof {
        lemma_text_lt_total(a@, b@);
        assert(a@.skip(0) =~= a@);
        assert(b@.skip(0) =~= b@);
    }
    while i < x.len() && i < y.len()
        invariant
            x@ == a@,
            y@ == b@,
            i <= x@.len(),
            i <= y@.len(),
            x@.subrange(0, i as int) == y@.subrange(0, i as int),
            text_lt(a@, b@) == text_lt(a@.skip(i as int), b@.skip(i as int)),
            text_lt(b@, a@) == text_lt(b@.skip(i as int), a@.skip(i as int)),
        decreases x@.len() - i,
    {
        if x[i] != y[i] {
            proof {
                assert(a@.skip(i as int)[0] == x@[i as int]);
                assert(b@.skip(i as int)[0] == y@[i as int]);
                if a@ == b@ {
                    assert(x@[i as int] == y@[i as int]);
                }
            }
            if x[i] < y[i] {
                return -1;
            } else {
                return 1;
            }
        }
        proof {
            assert(a@.skip(i as int).skip(1) =~= a@.skip(i + 1));
            assert(b@.skip(i as int).skip(1) =~= b@.skip(i + 1));
            assert(x@.subrange(0, i + 1) =~= x@.subrange(0, i as int).push(x@[i as int]));
            assert(y@.subrange(0, i + 1) =~= y@.subrange(0, i as int).push(y@[i as int]));
        }
        i += 1;
    }
    if x.len() == y.len() {
        proof {
            assert(x@ =~= x@.subrange(0, i as int));
            assert(y@ =~= y@.subrange(0, i as int));
        }
        0
    } else if i == x.len() {
        proof {
            assert(a@.skip(i as int).len() == 0);
            if a@ == b@ {
                assert(x@.len() == y@.len());
            }
        }
        -1
    } else {
        proof {
            assert(b@.skip(i as int).len() == 0);
            if a@ == b@ {
                assert(x@.len() == y@.len());
            }
        }
        1
    }
}

/// Adds `x` to a strictly ascending list of texts, where it is not there yet.
pub fn insert_sorted(v: &mut Vec<String>, x: String)
    requires
        strictly_sorted(texts(old(v)@)),
    ensures
        strictly_sorted(texts(final(v)@)),
        forall|y: Seq<char>| #[trigger]
            texts(final(v)@).contains(y) <==> texts(old(v)@).contains(y) || y == x@,
{
    let ghost t0 = texts(v@);
    let mut p: usize = 0;
    while p < v.len() && compare_text(v[p].as_str(), x.as_str()) < 0
        invariant
            p <= v@.len(),
            texts(v@) == t0,
            forall|k: int| 0 <= k < p ==> text_lt(#[trigger] t0[k], x@),
        decreases v@.len() - p,
    {
        p += 1;
    }
    if p < v.len() && compare_text(v[p].as_str(), x.as_str()) == 0 {
        proof {
            assert(t0[p as int] == x@);
        }
        return;
    }
    proof {
        if p < v@.len() {
            assert(t0[p as int] == v@[p as int]@);
            lemma_text_lt_total(t0[p as int], x@);
        }
    }
    v.insert(p, x);
    proof {
        let t1 = texts(v@);
        assert(t1 =~= t0.insert(p as int, x@));
        assert forall|i: int, j: int| 0 <= i < j < t1.len() implies text_lt(
            #[trigger] t1[i],
            #[trigger] t1[j],
        ) by {
            if j < p {
            } else if j == p {
            } else if i < p {
                assert(t1[j] == t0[j - 1]);
                assert(text_lt(x@, t0[p as int]));
                if j - 1 > p {
                    lemma_text_lt_transitive(x@, t0[p as int], t0[j - 1]);
                }
                lemma_text_lt_transitive(t0[i], x@, t0[j - 1]);
            } else if i == p {
                assert(t1[j] == t0[j - 1]);
                if j - 1 > p {
                    lemma_text_lt_transitive(x@, t0[p as int], t0[j - 1]);
                }
            } else {
                assert(t1[i] == t0[i - 1]);
                assert(t1[j] == t0[j - 1]);
            }
        }
        assert forall|y: Seq<char>| #[trigger] t1.contains(y) <==> t0.contains(y) || y == x@ by {
            if t0.contains(y) {
                let k = choose|k: int| 0 <= k < t0.len() && t0[k] == y;
                if k < p {
                    assert(t1[k] == y);
                } else {
                    assert(t1[k + 1] == y);
                }
            }
            if y == x@ {
                assert(t1[p as int] == y);
            }
            if t1.contains(y) {
                let k = choose|k: int| 0 <= k < t1.len() && t1[k] == y;
                if k < p {
                    assert(t0[k] == y);
                } else if k > p {
                    assert(t0[k - 1] == y);
                }
            }
        }
    }
}

} // verus!
