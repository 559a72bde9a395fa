use vstd::prelude::*;

verus! {

/// The values of `a` and `b` from position `i` on, taken in turn: `a[i]`,
/// `b[i]`, `a[i + 1]`, `b[i + 1]`, ..., skipping the queue that has run out.
pub open spec fn interleave_from(a: Seq<i32>, b: Seq<i32>, i: nat) -> Seq<i32>
    decreases (if a.len() > b.len() {
        a.len()
    } else {
        b.len()
    }) - i,
{
    if i >= a.len() && i >= b.len() {
        Seq::empty()
    } else {
        (if i < a.len() {
            seq![a[i as int]]
        } else {
            Seq::empty()
        }) + (if i < b.len() {
            seq![b[i as int]]
        } else {
            Seq::empty()
        }) + interleave_from(a, b, i + 1)
    }
}

/// `a` and `b` interleaved, one value of each in turn.
pub open spec fn interleave(a: Seq<i32>, b: Seq<i32>) -> Seq<i32> {
    interleave_from(a, b, 0)
}

/// Merges two queues by taking one value from each in turn while either
/// has values left.
pub fn merge(a: &[i32], b: &[i32]) -> (r: Vec<i32>)
    ensures
        r@ == interleave(a@, b@),
{
    let mut r: Vec<i32> = Vec::new();
    let mut i: usize = 0;
    let na = a.len();
    let nb = b.len();
    proof {
        assert(interleave(a@, b@) =~= r@ + interleave_from(a@, b@, 0));
    }
    while i < na || i < nb
        invariant
            i <= a@.len() || i <= b@.len(),
            na == a@.len() && nb == b@.len(),
            interleave(a@, b@) == r@ + interleave_from(a@, b@, i as nat),
        decreases (if a@.len() > b@.len() {
            a@.len()
        } else {
            b@.len()
        }) - i,
    {
        let ghost r0 = r@;
        let ghost head = (if i < a@.len() {
            seq![a@[i as int]]
        } else {
            Seq::empty()
        }) + (if i < b@.len() {
            seq![b@[i as int]]
        } else {
            Seq::empty()
        });
        if i < na {
            r.push(a[i]);
        }
        if i < nb {
            r.push(b[i]);
        }
        proof {
            assert(r@ =~= r0 + head);
            assert(interleave_from(a@, b@, i as nat) == head + interleave_from(a@, b@, (i + 1) as nat));
            assert(r0 + (head + interleave_from(a@, b@, (i + 1) as nat)) =~= r@ + interleave_from(
                a@,
                b@,
                (i + 1) as nat,
            ));
        }
        i += 1;
    }
    proof {
        assert(r@ + interleave_from(a@, b@, i as nat) =~= r@);
    }
    r
}

} // verus!
