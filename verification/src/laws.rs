//! The scheduler's ordering guarantees, stated and proved over the policy
//! model. Each law speaks of `schedule`, the one order that all three
//! traversal modes are contracted to produce; that shared contract is itself
//! the mode-equivalence guarantee. Exhaustion is part of the draining
//! traversal's own contract: when it reports the end, the schedule of what
//! it leaves behind is the empty sequence, so a fresh traversal over that
//! state yields nothing (`policy::lemma_schedule_empty` ties the two).

use vstd::prelude::*;

use crate::packet::Packet;
use crate::policy::advance;
use crate::policy::classes_routed;
use crate::policy::lemma_remaining_advance;
use crate::policy::lemma_remaining_nonneg;
use crate::policy::lemma_schedule_empty;
use crate::policy::quota;
use crate::policy::routed;
use crate::policy::remaining;
use crate::policy::round_from;
use crate::policy::schedule;
use crate::policy::wf_queues;
use crate::policy::wf_weights;

verus! {

/// Serving a round keeps every packet in the queue its class names.
proof fn lemma_advance_routed(qs: Seq<Seq<Packet>>, ws: Seq<int>)
    requires
        wf_queues(qs),
        wf_weights(ws),
        classes_routed(qs),
    ensures
        classes_routed(advance(qs, ws)),
{
    assert forall|j: int, i: int|
        0 <= j < 8 && 0 <= i < advance(qs, ws)[j].len() implies (#[trigger] advance(qs, ws)[j][i]).class
        == j by {
        assert(advance(qs, ws)[j][i] == qs[j][quota(qs[j], ws[j]) + i]);
    }
}

/// Every packet of one round comes from a class whose weight is positive.
proof fn lemma_round_served(qs: Seq<Seq<Packet>>, ws: Seq<int>, c: int)
    requires
        wf_queues(qs),
        wf_weights(ws),
        classes_routed(qs),
    ensures
        forall|i: int|
            0 <= i < round_from(qs, ws, c).len() ==> ws[(#[trigger] round_from(qs, ws, c)[i]).class as int]
                > 0,
    decreases 8 - c,
{
    if 0 <= c < 8 {
        lemma_round_served(qs, ws, c + 1);
        let slice = qs[c].take(quota(qs[c], ws[c]));
        assert forall|i: int|
            0 <= i < round_from(qs, ws, c).len() implies ws[(#[trigger] round_from(qs, ws, c)[i]).class as int]
            > 0 by {
            if i < slice.len() {
                assert(round_from(qs, ws, c)[i] == qs[c][i]);
                assert(quota(qs[c], ws[c]) > 0);
            } else {
                assert(round_from(qs, ws, c)[i] == round_from(qs, ws, c + 1)[i - slice.len()]);
            }
        }
    }
}

/// Zero-weight starvation: a class whose weight is zero never appears in a
/// traversal's output, however many packets its queue holds.
pub proof fn lemma_zero_weight_starved(qs: Seq<Seq<Packet>>, ws: Seq<int>)
    requires
        wf_queues(qs),
        wf_weights(ws),
        classes_routed(qs),
    ensures
        forall|i: int|
            0 <= i < schedule(qs, ws).len() ==> ws[(#[trigger] schedule(qs, ws)[i]).class as int]
                > 0,
    decreases remaining(qs, ws),
{
    lemma_remaining_nonneg(qs, ws, 8);
    if remaining(qs, ws) > 0 {
        lemma_remaining_advance(qs, ws, 8);
        lemma_remaining_nonneg(advance(qs, ws), ws, 8);
        lemma_advance_routed(qs, ws);
        lemma_zero_weight_starved(advance(qs, ws), ws);
        lemma_round_served(qs, ws, 0);
        let head = round_from(qs, ws, 0);
        let rest = schedule(advance(qs, ws), ws);
        assert forall|i: int|
            0 <= i < schedule(qs, ws).len() implies ws[(#[trigger] schedule(qs, ws)[i]).class as int]
            > 0 by {
            if i < head.len() {
                assert(schedule(qs, ws)[i] == head[i]);
            } else {
                assert(schedule(qs, ws)[i] == rest[i - head.len()]);
            }
        }
    }
}


/// A filter that rejects every element of a sequence leaves nothing.
proof fn lemma_filter_none(s: Seq<Packet>, pred: spec_fn(Packet) -> bool)
    requires
        forall|i: int| 0 <= i < s.len() ==> !pred(#[trigger] s[i]),
    ensures
        s.filter(pred) == Seq::<Packet>::empty(),
    decreases s.len(),
{
    reveal(Seq::filter);
    if s.len() > 0 {
        lemma_filter_none(s.drop_last(), pred);
    }
}

/// A filter that accepts every element of a sequence keeps it whole.
proof fn lemma_filter_all(s: Seq<Packet>, pred: spec_fn(Packet) -> bool)
    requires
        forall|i: int| 0 <= i < s.len() ==> pred(#[trigger] s[i]),
    ensures
        s.filter(pred) == s,
    decreases s.len(),
{
    reveal(Seq::filter);
    if s.len() > 0 {
        lemma_filter_all(s.drop_last(), pred);
        assert(s.filter(pred) =~= s.drop_last().push(s.last()));
    }
}

/// When every element a filter keeps would also pass a second filter,
/// filtering by the second first changes nothing.
proof fn lemma_filter_subsume(s: Seq<Packet>, p1: spec_fn(Packet) -> bool, p2: spec_fn(Packet) -> bool)
    requires
        forall|i: int| 0 <= i < s.len() && p1(#[trigger] s[i]) ==> p2(s[i]),
    ensures
        s.filter(p1) == s.filter(p2).filter(p1),
    decreases s.len(),
{
    reveal(Seq::filter);
    if s.len() > 0 {
        lemma_filter_subsume(s.drop_last(), p1, p2);
        if p2(s.last()) {
            assert(s.filter(p2).drop_last() =~= s.drop_last().filter(p2));
            assert(s.filter(p2).last() == s.last());
        } else {
            assert(!p1(s.last()));
        }
    }
}

/// One round's packets of class `c`: exactly class `c`'s slice, nothing from
/// any other class.
proof fn lemma_round_projection(qs: Seq<Seq<Packet>>, ws: Seq<int>, c: int, c0: int)
    requires
        wf_queues(qs),
        wf_weights(ws),
        classes_routed(qs),
        0 <= c < 8,
        0 <= c0 <= 8,
    ensures
        round_from(qs, ws, c0).filter(|p: Packet| p.class as int == c) == if c0 <= c {
            qs[c].take(quota(qs[c], ws[c]))
        } else {
            Seq::<Packet>::empty()
        },
    decreases 8 - c0,
{
    let pred = |p: Packet| p.class as int == c;
    if c0 >= 8 {
        lemma_filter_none(round_from(qs, ws, c0), pred);
    } else {
        lemma_round_projection(qs, ws, c, c0 + 1);
        let slice = qs[c0].take(quota(qs[c0], ws[c0]));
        Seq::filter_distributes_over_add(slice, round_from(qs, ws, c0 + 1), pred);
        if c0 == c {
            lemma_filter_all(slice, pred);
            assert(slice + Seq::<Packet>::empty() =~= slice);
        } else {
            assert forall|i: int| 0 <= i < slice.len() implies !pred(#[trigger] slice[i]) by {
                assert(slice[i] == qs[c0][i]);
            }
            lemma_filter_none(slice, pred);
            assert(Seq::<Packet>::empty() + round_from(qs, ws, c0 + 1).filter(pred)
                =~= round_from(qs, ws, c0 + 1).filter(pred));
        }
    }
}

/// Class projection: restricted to any serviceable class, the traversal
/// output is that class's queue, front to back and complete.
pub proof fn lemma_class_projection(qs: Seq<Seq<Packet>>, ws: Seq<int>, c: int)
    requires
        wf_queues(qs),
        wf_weights(ws),
        classes_routed(qs),
        0 <= c < 8,
        ws[c] > 0,
    ensures
        schedule(qs, ws).filter(|p: Packet| p.class as int == c) == qs[c],
    decreases remaining(qs, ws),
{
    let pred = |p: Packet| p.class as int == c;
    lemma_remaining_nonneg(qs, ws, 8);
    if remaining(qs, ws) <= 0 {
        lemma_schedule_empty(qs, ws);
        lemma_filter_none(schedule(qs, ws), pred);
        assert(qs[c] =~= Seq::<Packet>::empty());
    } else {
        lemma_remaining_advance(qs, ws, 8);
        lemma_remaining_nonneg(advance(qs, ws), ws, 8);
        lemma_advance_routed(qs, ws);
        lemma_class_projection(advance(qs, ws), ws, c);
        lemma_round_projection(qs, ws, c, 0);
        Seq::filter_distributes_over_add(
            round_from(qs, ws, 0),
            schedule(advance(qs, ws), ws),
            pred,
        );
        assert(advance(qs, ws)[c] == qs[c].skip(quota(qs[c], ws[c])));
        assert(qs[c].take(quota(qs[c], ws[c])) + qs[c].skip(quota(qs[c], ws[c])) =~= qs[c]);
    }
}

/// Every scheduled packet that carries flow `f` comes from class `c`, as
/// long as the queues hold flow `f` packets nowhere but in class `c`.
proof fn lemma_schedule_flow_class(qs: Seq<Seq<Packet>>, ws: Seq<int>, c: int, f: u16)
    requires
        wf_queues(qs),
        wf_weights(ws),
        classes_routed(qs),
        0 <= c < 8,
        forall|j: int, i: int|
            0 <= j < 8 && j != c && 0 <= i < qs[j].len() ==> (#[trigger] qs[j][i]).flow != f,
    ensures
        forall|i: int|
            0 <= i < schedule(qs, ws).len() && (#[trigger] schedule(qs, ws)[i]).flow == f
                ==> schedule(qs, ws)[i].class as int == c,
    decreases remaining(qs, ws),
{
    lemma_remaining_nonneg(qs, ws, 8);
    if remaining(qs, ws) > 0 {
        lemma_remaining_advance(qs, ws, 8);
        lemma_remaining_nonneg(advance(qs, ws), ws, 8);
        lemma_advance_routed(qs, ws);
        assert forall|j: int, i: int|
            0 <= j < 8 && j != c && 0 <= i < advance(qs, ws)[j].len() implies (#[trigger] advance(
            qs,
            ws,
        )[j][i]).flow != f by {
            assert(advance(qs, ws)[j][i] == qs[j][quota(qs[j], ws[j]) + i]);
        }
        lemma_schedule_flow_class(advance(qs, ws), ws, c, f);
        lemma_round_flow_class(qs, ws, c, f, 0);
        let head = round_from(qs, ws, 0);
        let rest = schedule(advance(qs, ws), ws);
        assert forall|i: int|
            0 <= i < schedule(qs, ws).len() && (#[trigger] schedule(qs, ws)[i]).flow == f
            implies schedule(qs, ws)[i].class as int == c by {
            if i < head.len() {
                assert(schedule(qs, ws)[i] == head[i]);
            } else {
                assert(schedule(qs, ws)[i] == rest[i - head.len()]);
            }
        }
    }
}

/// The round-level step of `lemma_schedule_flow_class`.
proof fn lemma_round_flow_class(qs: Seq<Seq<Packet>>, ws: Seq<int>, c: int, f: u16, c0: int)
    requires
        wf_queues(qs),
        wf_weights(ws),
        classes_routed(qs),
        0 <= c < 8,
        forall|j: int, i: int|
            0 <= j < 8 && j != c && 0 <= i < qs[j].len() ==> (#[trigger] qs[j][i]).flow != f,
    ensures
        forall|i: int|
            0 <= i < round_from(qs, ws, c0).len() && (#[trigger] round_from(qs, ws, c0)[i]).flow
                == f ==> round_from(qs, ws, c0)[i].class as int == c,
    decreases 8 - c0,
{
    if 0 <= c0 < 8 {
        lemma_round_flow_class(qs, ws, c, f, c0 + 1);
        let slice = qs[c0].take(quota(qs[c0], ws[c0]));
        assert forall|i: int|
            0 <= i < round_from(qs, ws, c0).len() && (#[trigger] round_from(qs, ws, c0)[i]).flow
            == f implies round_from(qs, ws, c0)[i].class as int == c by {
            if i < slice.len() {
                assert(round_from(qs, ws, c0)[i] == qs[c0][i]);
            } else {
                assert(round_from(qs, ws, c0)[i] == round_from(qs, ws, c0 + 1)[i - slice.len()]);
            }
        }
    }
}

/// Flow order: for a flow whose packets all share one serviceable class,
/// the traversal output restricted to that flow is the queue's packets of
/// that flow, in arrival order — the enqueue order is never reshuffled
/// within a flow.
pub proof fn lemma_flow_order(qs: Seq<Seq<Packet>>, ws: Seq<int>, c: int, f: u16)
    requires
        wf_queues(qs),
        wf_weights(ws),
        classes_routed(qs),
        0 <= c < 8,
        ws[c] > 0,
        forall|j: int, i: int|
            0 <= j < 8 && j != c && 0 <= i < qs[j].len() ==> (#[trigger] qs[j][i]).flow != f,
    ensures
        schedule(qs, ws).filter(|p: Packet| p.flow == f) == qs[c].filter(
            |p: Packet| p.flow == f,
        ),
{
    let pf = |p: Packet| p.flow == f;
    let pc = |p: Packet| p.class as int == c;
    lemma_schedule_flow_class(qs, ws, c, f);
    lemma_filter_subsume(schedule(qs, ws), pf, pc);
    lemma_class_projection(qs, ws, c);
}


/// With one packet in every queue and every weight at least one, a single
/// round takes each queue's packet in ascending class order.
proof fn lemma_round_singles(qs: Seq<Seq<Packet>>, ws: Seq<int>, c0: int)
    requires
        wf_queues(qs),
        wf_weights(ws),
        forall|j: int| 0 <= j < 8 ==> ws[j] >= 1,
        forall|j: int| 0 <= j < 8 ==> (#[trigger] qs[j]).len() == 1,
        0 <= c0 <= 8,
    ensures
        round_from(qs, ws, c0).len() == 8 - c0,
        forall|j: int| c0 <= j < 8 ==> #[trigger] round_from(qs, ws, c0)[j - c0] == qs[j][0],
    decreases 8 - c0,
{
    if c0 < 8 {
        lemma_round_singles(qs, ws, c0 + 1);
        assert(quota(qs[c0], ws[c0]) == 1);
        assert(qs[c0].take(1)[0] == qs[c0][0]);
        assert forall|j: int| c0 <= j < 8 implies #[trigger] round_from(qs, ws, c0)[j - c0]
            == qs[j][0] by {
            if j > c0 {
                assert(round_from(qs, ws, c0)[j - c0] == round_from(qs, ws, c0 + 1)[j - (c0 + 1)]);
            }
        }
    }
}

/// Class order: with equal positive weights and exactly one packet per
/// class, a full traversal yields the packets in ascending class order,
/// whatever order they were enqueued in.
pub proof fn lemma_class_order(qs: Seq<Seq<Packet>>, ws: Seq<int>)
    requires
        wf_queues(qs),
        wf_weights(ws),
        classes_routed(qs),
        forall|j: int| 0 <= j < 8 ==> #[trigger] ws[j] == ws[0],
        ws[0] >= 1,
        forall|j: int| 0 <= j < 8 ==> (#[trigger] qs[j]).len() == 1,
    ensures
        schedule(qs, ws).len() == 8,
        forall|j: int| 0 <= j < 8 ==> #[trigger] schedule(qs, ws)[j] == qs[j][0],
        forall|j: int| 0 <= j < 8 ==> (#[trigger] schedule(qs, ws)[j]).class as int == j,
{
    lemma_remaining_nonneg(qs, ws, 8);
    lemma_schedule_empty(qs, ws);
    assert(!(ws[0] <= 0 || qs[0].len() == 0));
    assert(remaining(qs, ws) > 0);
    lemma_round_singles(qs, ws, 0);
    assert forall|j: int| 0 <= j < 8 implies ws[j] <= 0 || (#[trigger] advance(qs, ws)[j]).len()
        == 0 by {
        assert(advance(qs, ws)[j] == qs[j].skip(1));
    }
    lemma_schedule_empty(advance(qs, ws), ws);
    assert(schedule(qs, ws) =~= round_from(qs, ws, 0));
    assert forall|j: int| 0 <= j < 8 implies #[trigger] schedule(qs, ws)[j] == qs[j][0] by {
        assert(round_from(qs, ws, 0)[j - 0] == qs[j][0]);
    }
}

/// The weights of classes `a` up to `b`, added up.
pub open spec fn wsum(ws: Seq<int>, a: int, b: int) -> int
    decreases b - a,
{
    if a >= b {
        0
    } else {
        ws[a] + wsum(ws, a + 1, b)
    }
}

/// Adjacent weight sums concatenate.
proof fn lemma_wsum_split(ws: Seq<int>, a: int, b: int, c: int)
    requires
        a <= b <= c,
    ensures
        wsum(ws, a, c) == wsum(ws, a, b) + wsum(ws, b, c),
    decreases b - a,
{
    if a < b {
        lemma_wsum_split(ws, a + 1, b, c);
    }
}

/// With positive weights a weight sum covers at least one slot per class.
proof fn lemma_wsum_lower(ws: Seq<int>, a: int, b: int)
    requires
        forall|j: int| 0 <= j < 8 ==> ws[j] >= 1,
        0 <= a,
        b <= 8,
    ensures
        wsum(ws, a, b) >= b - a,
        a < b ==> wsum(ws, a, b) >= ws[a],
    decreases b - a,
{
    if a < b {
        lemma_wsum_lower(ws, a + 1, b);
    }
}

/// With every quota full, one round is eight back-to-back blocks: class
/// `c`'s block holds its first `ws[c]` packets.
proof fn lemma_round_blocks(qs: Seq<Seq<Packet>>, ws: Seq<int>, c0: int)
    requires
        wf_queues(qs),
        wf_weights(ws),
        forall|j: int| 0 <= j < 8 ==> ws[j] >= 1,
        forall|j: int| 0 <= j < 8 ==> (#[trigger] qs[j]).len() >= ws[j],
        0 <= c0 <= 8,
    ensures
        round_from(qs, ws, c0).len() == wsum(ws, c0, 8),
        forall|c2: int, i: int|
            #![trigger wsum(ws, c0, c2), qs[c2][i]]
            c0 <= c2 < 8 && 0 <= i < ws[c2] ==> round_from(qs, ws, c0)[wsum(ws, c0, c2) + i]
                == qs[c2][i],
    decreases 8 - c0,
{
    if c0 < 8 {
        lemma_round_blocks(qs, ws, c0 + 1);
        assert(quota(qs[c0], ws[c0]) == ws[c0]);
        let slice = qs[c0].take(ws[c0]);
        assert forall|c2: int, i: int|
            #![trigger wsum(ws, c0, c2), qs[c2][i]]
            c0 <= c2 < 8 && 0 <= i < ws[c2] implies round_from(qs, ws, c0)[wsum(ws, c0, c2) + i]
            == qs[c2][i] by {
            lemma_wsum_lower(ws, c0, c2);
            if c2 == c0 {
                assert(round_from(qs, ws, c0)[i] == slice[i]);
            } else {
                lemma_wsum_split(ws, c0 + 1, c2, 8);
                lemma_wsum_lower(ws, c0 + 1, c2);
                lemma_wsum_lower(ws, c2, 8);
                assert(wsum(ws, c0, c2) == ws[c0] + wsum(ws, c0 + 1, c2));
                assert(round_from(qs, ws, c0)[wsum(ws, c0, c2) + i] == round_from(qs, ws, c0 + 1)[
                    wsum(ws, c0 + 1, c2) + i]);
            }
        }
    }
}

/// Weight quota: with every weight positive and every queue holding at
/// least a full round's worth, the output begins with `ws[0]` packets of
/// class 0, then `ws[1]` of class 1, and so on through class 7; and past
/// that first round the traversal carries on as a fresh traversal of the
/// advanced queues, so the pattern repeats round for round while the
/// queues last.
pub proof fn lemma_weight_quota(qs: Seq<Seq<Packet>>, ws: Seq<int>)
    requires
        wf_queues(qs),
        wf_weights(ws),
        classes_routed(qs),
        forall|j: int| 0 <= j < 8 ==> ws[j] >= 1,
        forall|j: int| 0 <= j < 8 ==> (#[trigger] qs[j]).len() >= wsum(ws, 0, 8),
    ensures
        schedule(qs, ws).len() >= wsum(ws, 0, 8),
        forall|c: int, i: int|
            #![trigger wsum(ws, 0, c), schedule(qs, ws)[i]]
            0 <= c < 8 && wsum(ws, 0, c) <= i < wsum(ws, 0, c) + ws[c] ==> (schedule(qs, ws)[i]).class as int
                == c,
        schedule(qs, ws).skip(wsum(ws, 0, 8)) == schedule(advance(qs, ws), ws),
{
    lemma_remaining_nonneg(qs, ws, 8);
    lemma_schedule_empty(qs, ws);
    lemma_wsum_lower(ws, 0, 8);
    assert forall|j: int| 0 <= j < 8 implies (#[trigger] qs[j]).len() >= ws[j] by {
        lemma_wsum_split(ws, 0, j, 8);
        lemma_wsum_lower(ws, 0, j);
        lemma_wsum_lower(ws, j, 8);
    }
    assert(!(ws[0] <= 0 || qs[0].len() == 0));
    assert(remaining(qs, ws) > 0);
    lemma_round_blocks(qs, ws, 0);
    let head = round_from(qs, ws, 0);
    let rest = schedule(advance(qs, ws), ws);
    assert(schedule(qs, ws) == head + rest);
    assert forall|c: int, i: int|
        #![trigger wsum(ws, 0, c), schedule(qs, ws)[i]]
        0 <= c < 8 && wsum(ws, 0, c) <= i < wsum(ws, 0, c) + ws[c] implies (schedule(qs, ws)[i]).class as int
        == c by {
        lemma_wsum_split(ws, 0, c, 8);
        lemma_wsum_lower(ws, 0, c);
        lemma_wsum_lower(ws, c, 8);
        assert(head[wsum(ws, 0, c) + (i - wsum(ws, 0, c))] == qs[c][i - wsum(ws, 0, c)]);
        assert(schedule(qs, ws)[i] == head[i]);
    }
    assert(schedule(qs, ws).skip(wsum(ws, 0, 8)) =~= rest);
}


/// Flow order, stated from the enqueue side: route any batch of well-formed
/// packets into an empty scheduler, and the traversal output restricted to a
/// flow is the batch restricted to that flow, in the same order — provided
/// the flow keeps to a single serviceable class, as a flow does when its
/// packets share a class.
pub proof fn lemma_flow_order_of_batch(batch: Seq<Packet>, ws: Seq<int>, c: int, f: u16)
    requires
        wf_weights(ws),
        0 <= c < 8,
        ws[c] > 0,
        forall|i: int| 0 <= i < batch.len() ==> (#[trigger] batch[i]).wf(),
        forall|i: int|
            0 <= i < batch.len() && (#[trigger] batch[i]).flow == f ==> batch[i].class as int == c,
    ensures
        ({
            let qs = Seq::new(8, |j: int| routed(batch, j));
            schedule(qs, ws).filter(|p: Packet| p.flow == f) == batch.filter(
                |p: Packet| p.flow == f,
            )
        }),
{
    let qs = Seq::new(8, |j: int| routed(batch, j));
    let pf = |p: Packet| p.flow == f;
    let pc = |p: Packet| p.class as int == c;
    assert forall|j: int, i: int|
        0 <= j < qs.len() && 0 <= i < qs[j].len() implies (#[trigger] qs[j][i]).class == j by {
        Seq::lemma_filter_pred(batch, |p: Packet| p.class as int == j, i);
    }
    assert forall|j: int, i: int|
        0 <= j < 8 && j != c && 0 <= i < qs[j].len() implies (#[trigger] qs[j][i]).flow != f by {
        Seq::lemma_filter_pred(batch, |p: Packet| p.class as int == j, i);
        Seq::lemma_filter_contains_rev(batch, |p: Packet| p.class as int == j, qs[j][i]);
        let k = choose|k: int| 0 <= k < batch.len() && batch[k] == qs[j][i];
        assert(batch[k].flow == f ==> batch[k].class as int == c);
    }
    lemma_flow_order(qs, ws, c, f);
    lemma_filter_subsume(batch, pf, pc);
}

} // verus!
