//! A model of the merge loop: the single consumer that drains both sources'
//! channels and forwards every event into one stream. The scheduler's choice
//! at each iteration is an input (`picks`), so every possible interleaving is
//! covered; the proofs show that each source's order survives the merge and
//! that neither source can suppress the other's events.

use vstd::prelude::*;

use crate::WorkEvent;

verus! {

/// `r` is an interleaving of `a` and `b`: every element of `r` comes from the
/// front of one of the two, and both are drained completely.
pub open spec fn is_merge(r: Seq<WorkEvent>, a: Seq<WorkEvent>, b: Seq<WorkEvent>) -> bool
    decreases r.len(),
{
    if a.len() == 0 && b.len() == 0 {
        r.len() == 0
    } else {
        r.len() > 0 && ((a.len() > 0 && r[0] == a[0] && is_merge(r.skip(1), a.skip(1), b)) || (
        b.len() > 0 && r[0] == b[0] && is_merge(r.skip(1), a, b.skip(1))))
    }
}

/// `a` occurs in `r` as a subsequence: all of `a`'s elements, in `a`'s order.
pub open spec fn is_subsequence(a: Seq<WorkEvent>, r: Seq<WorkEvent>) -> bool
    decreases r.len(),
{
    if a.len() == 0 {
        true
    } else if r.len() == 0 {
        false
    } else {
        (a[0] == r[0] && is_subsequence(a.skip(1), r.skip(1))) || is_subsequence(a, r.skip(1))
    }
}

/// Extending an interleaving by one event taken from the first stream keeps
/// it an interleaving.
proof fn lemma_merge_push_first(r: Seq<WorkEvent>, a: Seq<WorkEvent>, b: Seq<WorkEvent>, v: WorkEvent)
    requires
        is_merge(r, a, b),
    ensures
        is_merge(r.push(v), a.push(v), b),
    decreases r.len(),
{
    if a.len() == 0 && b.len() == 0 {
        assert(r.push(v).skip(1) =~= r);
        assert(a.push(v).skip(1) =~= a);
        assert(r.push(v)[0] == v);
    } else {
        if a.len() > 0 && r[0] == a[0] && is_merge(r.skip(1), a.skip(1), b) {
            lemma_merge_push_first(r.skip(1), a.skip(1), b, v);
            assert(r.push(v).skip(1) =~= r.skip(1).push(v));
            assert(a.push(v).skip(1) =~= a.skip(1).push(v));
            assert(a.push(v)[0] == a[0]);
        } else {
            lemma_merge_push_first(r.skip(1), a, b.skip(1), v);
            assert(r.push(v).skip(1) =~= r.skip(1).push(v));
            assert(a.push(v).len() > 0);
        }
    }
}

/// Extending an interleaving by one event taken from the second stream keeps
/// it an interleaving.
proof fn lemma_merge_push_second(r: Seq<WorkEvent>, a: Seq<WorkEvent>, b: Seq<WorkEvent>, v: WorkEvent)
    requires
        is_merge(r, a, b),
    ensures
        is_merge(r.push(v), a, b.push(v)),
    decreases r.len(),
{
    if a.len() == 0 && b.len() == 0 {
        assert(r.push(v).skip(1) =~= r);
        assert(b.push(v).skip(1) =~= b);
        assert(r.push(v)[0] == v);
    } else {
        if a.len() > 0 && r[0] == a[0] && is_merge(r.skip(1), a.skip(1), b) {
            lemma_merge_push_second(r.skip(1), a.skip(1), b, v);
            assert(r.push(v).skip(1) =~= r.skip(1).push(v));
        } else {
            lemma_merge_push_second(r.skip(1), a, b.skip(1), v);
            assert(r.push(v).skip(1) =~= r.skip(1).push(v));
            assert(b.push(v).skip(1) =~= b.skip(1).push(v));
            assert(b.push(v)[0] == b[0]);
        }
    }
}

/// An interleaving contains every event of both streams: nothing is dropped.
pub proof fn lemma_merge_len(r: Seq<WorkEvent>, a: Seq<WorkEvent>, b: Seq<WorkEvent>)
    requires
        is_merge(r, a, b),
    ensures
        r.len() == a.len() + b.len(),
    decreases r.len(),
{
    if a.len() == 0 && b.len() == 0 {
    } else if a.len() > 0 && r[0] == a[0] && is_merge(r.skip(1), a.skip(1), b) {
        lemma_merge_len(r.skip(1), a.skip(1), b);
    } else {
        lemma_merge_len(r.skip(1), a, b.skip(1));
    }
}

/// Order preservation: in any interleaving of the two streams, each stream
/// occurs as a subsequence of the output. For events e1 before e2 emitted by
/// one source, the merged stream therefore forwards e1 before e2; and a burst
/// on one stream cannot suppress any event of the other, whose every event
/// still appears, in order.
pub proof fn lemma_merge_preserves_source_order(
    r: Seq<WorkEvent>,
    a: Seq<WorkEvent>,
    b: Seq<WorkEvent>,
)
    requires
        is_merge(r, a, b),
    ensures
        is_subsequence(a, r),
        is_subsequence(b, r),
    decreases r.len(),
{
    if a.len() == 0 && b.len() == 0 {
    } else if a.len() > 0 && r[0] == a[0] && is_merge(r.skip(1), a.skip(1), b) {
        lemma_merge_preserves_source_order(r.skip(1), a.skip(1), b);
    } else {
        lemma_merge_preserves_source_order(r.skip(1), a, b.skip(1));
    }
}

/// The merge loop over complete channel histories. `a` and `b` are the events
/// each source pushed, in order; `picks` is the scheduler's choice at each
/// iteration (`true` prefers the first stream). A preferred empty stream falls
/// back to the other, as the select of the real loop does. The result is an
/// interleaving of the two histories: complete, and order-preserving per
/// source.
pub fn merge_streams(a: Vec<WorkEvent>, b: Vec<WorkEvent>, picks: Vec<bool>) -> (r: Vec<
    WorkEvent,
>)
    requires
        picks@.len() >= a@.len() + b@.len(),
    ensures
        is_merge(r@, a@, b@),
        r@.len() == a@.len() + b@.len(),
{
    let ghost a0 = a@;
    let ghost b0 = b@;
    let mut a = a;
    let mut b = b;
    let mut r: Vec<WorkEvent> = Vec::new();
    let plen = picks.len();
    proof {
        assert(a0.take(0) =~= Seq::<WorkEvent>::empty());
        assert(b0.take(0) =~= Seq::<WorkEvent>::empty());
    }
    while a.len() > 0 || b.len() > 0
        invariant
            a@.len() <= a0.len(),
            b@.len() <= b0.len(),
            a0.len() - a@.len() + b0.len() - b@.len() == r@.len(),
            plen == picks@.len(),
            picks@.len() >= a0.len() + b0.len(),
            a@ =~= a0.skip(a0.len() - a@.len()),
            b@ =~= b0.skip(b0.len() - b@.len()),
            is_merge(r@, a0.take(a0.len() - a@.len()), b0.take(b0.len() - b@.len())),
        decreases a@.len() + b@.len(),
    {
        let take_first = if a.len() > 0 && b.len() > 0 {
            assert(r@.len() < picks@.len());
            picks[r.len()]
        } else {
            a.len() > 0
        };
        let ghost ca = a0.len() - a@.len();
        let ghost cb = b0.len() - b@.len();
        if take_first {
            let ghost apre = a@;
            proof {
                assert(0 <= ca < a0.len());
                assert(apre =~= a0.skip(ca));
                assert(a0.skip(ca)[0] == a0[ca]);
                assert(apre[0] == a0[ca]);
            }
            let v = a.remove(0);
            proof {
                assert(a@ =~= apre.skip(1));
                assert(forall|i: int| 0 <= i < apre.skip(1).len() ==> apre.skip(1)[i] == a0.skip(
                    ca + 1,
                )[i]);
                assert(a@ =~= a0.skip(ca + 1));
                lemma_merge_push_first(r@, a0.take(ca), b0.take(cb), v);
                assert(a0.take(ca).push(v) =~= a0.take(ca + 1));
            }
            r.push(v);
        } else {
            let ghost bpre = b@;
            proof {
                assert(0 <= cb < b0.len());
                assert(bpre =~= b0.skip(cb));
                assert(b0.skip(cb)[0] == b0[cb]);
                assert(bpre[0] == b0[cb]);
            }
            let v = b.remove(0);
            proof {
                assert(b@ =~= bpre.skip(1));
                assert(forall|i: int| 0 <= i < bpre.skip(1).len() ==> bpre.skip(1)[i] == b0.skip(
                    cb + 1,
                )[i]);
                assert(b@ =~= b0.skip(cb + 1));
                lemma_merge_push_second(r@, a0.take(ca), b0.take(cb), v);
                assert(b0.take(cb).push(v) =~= b0.take(cb + 1));
            }
            r.push(v);
        }
    }
    proof {
        assert(a0.take(a0.len() as int) =~= a0);
        assert(b0.take(b0.len() as int) =~= b0);
    }
    r
}

} // verus!
