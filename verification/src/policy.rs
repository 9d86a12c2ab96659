//! The scheduling policy as a mathematical model.
//!
//! A traversal works in rounds. In every round the classes are visited in
//! ascending order `0..8`, and class `c` contributes up to `weights[c]`
//! packets from the front of whatever its queue still holds. The traversal
//! ends when a whole round contributes nothing. `schedule` is the complete
//! output order; `tail_from` describes what a traversal standing in the
//! middle of a round still has to produce, and is the shape every traversal
//! mode's invariant takes.

use vstd::prelude::*;

use crate::packet::Packet;

verus! {

/// Smaller of two integers.
pub open spec fn min_i(a: int, b: int) -> int {
    if a <= b {
        a
    } else {
        b
    }
}

/// How many packets a queue holding `q` with weight `w` contributes to one
/// round: its weight, or everything it still holds if that is less.
pub open spec fn quota(q: Seq<Packet>, w: int) -> int {
    min_i(w, q.len() as int)
}

/// Eight non-negative weights, one per class.
pub open spec fn wf_weights(ws: Seq<int>) -> bool {
    &&& ws.len() == 8
    &&& forall|j: int| 0 <= j < 8 ==> ws[j] >= 0
}

/// Eight queues, one per class.
pub open spec fn wf_queues(qs: Seq<Seq<Packet>>) -> bool {
    qs.len() == 8
}

/// Every packet sits in the queue its class names.
pub open spec fn classes_routed(qs: Seq<Seq<Packet>>) -> bool {
    forall|j: int, i: int|
        0 <= j < qs.len() && 0 <= i < qs[j].len() ==> (#[trigger] qs[j][i]).class == j
}

/// One round's output from class `c` upward: each class's slice of its own
/// queue, in ascending class order.
pub open spec fn round_from(qs: Seq<Seq<Packet>>, ws: Seq<int>, c: int) -> Seq<Packet>
    decreases 8 - c,
{
    if c < 0 || c >= 8 {
        Seq::empty()
    } else {
        qs[c].take(quota(qs[c], ws[c])) + round_from(qs, ws, c + 1)
    }
}

/// The queues once a whole round has been served: every class loses its
/// quota from the front.
pub open spec fn advance(qs: Seq<Seq<Packet>>, ws: Seq<int>) -> Seq<Seq<Packet>> {
    Seq::new(8, |j: int| qs[j].skip(quota(qs[j], ws[j])))
}

/// Packets held by serviceable classes below `c`: what a traversal still owes
/// from those classes. A class of weight zero is never serviced and does not
/// count.
pub open spec fn remaining_upto(qs: Seq<Seq<Packet>>, ws: Seq<int>, c: int) -> int
    decreases c,
{
    if c <= 0 {
        0
    } else {
        remaining_upto(qs, ws, c - 1) + (if ws[c - 1] > 0 {
            qs[c - 1].len() as int
        } else {
            0
        })
    }
}

/// Packets a traversal over `qs` with weights `ws` has yet to produce.
pub open spec fn remaining(qs: Seq<Seq<Packet>>, ws: Seq<int>) -> int {
    remaining_upto(qs, ws, 8)
}

/// The complete weighted-round-robin output order: rounds of per-class
/// slices, until a whole round contributes nothing.
pub open spec fn schedule(qs: Seq<Seq<Packet>>, ws: Seq<int>) -> Seq<Packet>
    decreases remaining(qs, ws),
        when wf_queues(qs) && wf_weights(ws)
        via schedule_decreases
{
    if remaining(qs, ws) <= 0 {
        Seq::empty()
    } else {
        round_from(qs, ws, 0) + schedule(advance(qs, ws), ws)
    }
}

#[via_fn]
proof fn schedule_decreases(qs: Seq<Seq<Packet>>, ws: Seq<int>) {
    if remaining(qs, ws) > 0 {
        lemma_remaining_nonneg(qs, ws, 8);
        lemma_remaining_advance(qs, ws, 8);
        lemma_remaining_nonneg(advance(qs, ws), ws, 8);
    }
}

/// `remaining_upto` is a sum of queue lengths, hence non-negative, and it is
/// positive only when some serviceable class still holds a packet.
pub proof fn lemma_remaining_nonneg(qs: Seq<Seq<Packet>>, ws: Seq<int>, c: int)
    ensures
        remaining_upto(qs, ws, c) >= 0,
        remaining_upto(qs, ws, c) > 0 ==> exists|j: int|
            0 <= j < c && ws[j] > 0 && qs[j].len() > 0,
    decreases c,
{
    if c > 0 {
        lemma_remaining_nonneg(qs, ws, c - 1);
        if remaining_upto(qs, ws, c) > 0 {
            if remaining_upto(qs, ws, c - 1) > 0 {
                let j = choose|j: int| 0 <= j < c - 1 && ws[j] > 0 && qs[j].len() > 0;
                assert(0 <= j < c && ws[j] > 0 && qs[j].len() > 0);
            } else {
                assert(ws[c - 1] > 0 && qs[c - 1].len() > 0);
            }
        }
    }
}

/// Serving a round never increases what is left, and strictly decreases it
/// while any serviceable class below `c` still holds a packet.
pub proof fn lemma_remaining_advance(qs: Seq<Seq<Packet>>, ws: Seq<int>, c: int)
    requires
        wf_queues(qs),
        wf_weights(ws),
        0 <= c <= 8,
    ensures
        remaining_upto(advance(qs, ws), ws, c) <= remaining_upto(qs, ws, c),
        (exists|j: int| 0 <= j < c && ws[j] > 0 && qs[j].len() > 0) ==> remaining_upto(
            advance(qs, ws),
            ws,
            c,
        ) < remaining_upto(qs, ws, c),
    decreases c,
{
    if c > 0 {
        lemma_remaining_advance(qs, ws, c - 1);
        let j = c - 1;
        assert(advance(qs, ws)[j] == qs[j].skip(quota(qs[j], ws[j])));
        assert(advance(qs, ws)[j].len() == qs[j].len() - quota(qs[j], ws[j]));
        if exists|i: int| 0 <= i < c && ws[i] > 0 && qs[i].len() > 0 {
            let i = choose|i: int| 0 <= i < c && ws[i] > 0 && qs[i].len() > 0;
            if i < c - 1 {
                assert(remaining_upto(advance(qs, ws), ws, c - 1) < remaining_upto(qs, ws, c - 1));
            } else {
                assert(quota(qs[j], ws[j]) >= 1);
            }
        }
    }
}


/// The queue state the next round will start from, seen from the middle of
/// the current round: classes before `c` are already past their slice (their
/// entry in `qs` is already the post-round state), class `c` still owes the
/// rest of a slice it has yielded `k` packets of, and later classes owe their
/// whole slice.
pub open spec fn after_part(qs: Seq<Seq<Packet>>, ws: Seq<int>, c: int, k: int) -> Seq<
    Seq<Packet>,
> {
    Seq::new(
        8,
        |j: int|
            if j < c {
                qs[j]
            } else if j == c {
                qs[j].skip(min_i(ws[j] - k, qs[j].len() as int))
            } else {
                qs[j].skip(quota(qs[j], ws[j]))
            },
    )
}

/// Everything a traversal standing at class `c` of a round, with `k` packets
/// of that class's slice already out, still has to produce. `qs` is what the
/// queues conceptually still hold: packets already produced are not in it.
pub open spec fn tail_from(qs: Seq<Seq<Packet>>, ws: Seq<int>, c: int, k: int) -> Seq<Packet> {
    if 0 <= c < 8 {
        qs[c].take(min_i(ws[c] - k, qs[c].len() as int)) + round_from(qs, ws, c + 1) + schedule(
            after_part(qs, ws, c, k),
            ws,
        )
    } else {
        schedule(qs, ws)
    }
}

/// `round_from(_, _, c)` reads only the classes from `c` upward.
pub proof fn lemma_round_from_agree(
    qs1: Seq<Seq<Packet>>,
    qs2: Seq<Seq<Packet>>,
    ws: Seq<int>,
    c: int,
)
    requires
        wf_queues(qs1),
        wf_queues(qs2),
        forall|j: int| c <= j < 8 ==> qs1[j] == qs2[j],
    ensures
        round_from(qs1, ws, c) == round_from(qs2, ws, c),
    decreases 8 - c,
{
    if 0 <= c < 8 {
        lemma_round_from_agree(qs1, qs2, ws, c + 1);
    }
}

/// A round over queues whose serviceable classes are all empty contributes
/// nothing.
pub proof fn lemma_round_from_empty(qs: Seq<Seq<Packet>>, ws: Seq<int>, c: int)
    requires
        wf_queues(qs),
        wf_weights(ws),
        forall|j: int| 0 <= j < 8 ==> ws[j] <= 0 || (#[trigger] qs[j]).len() == 0,
    ensures
        round_from(qs, ws, c) == Seq::<Packet>::empty(),
    decreases 8 - c,
{
    if 0 <= c < 8 {
        lemma_round_from_empty(qs, ws, c + 1);
        assert(quota(qs[c], ws[c]) == 0);
        assert(round_from(qs, ws, c) =~= Seq::<Packet>::empty());
    }
}

/// `remaining_upto` is at least any one of its terms.
proof fn lemma_remaining_lower(qs: Seq<Seq<Packet>>, ws: Seq<int>, c: int, j: int)
    requires
        0 <= j < c,
    ensures
        ws[j] > 0 ==> remaining_upto(qs, ws, c) >= qs[j].len(),
    decreases c,
{
    lemma_remaining_nonneg(qs, ws, c - 1);
    if j < c - 1 {
        lemma_remaining_lower(qs, ws, c - 1, j);
    }
}

/// With every serviceable queue empty, nothing is left and the schedule is
/// the empty sequence; conversely an empty schedule only arises that way.
pub proof fn lemma_schedule_empty(qs: Seq<Seq<Packet>>, ws: Seq<int>)
    requires
        wf_queues(qs),
        wf_weights(ws),
    ensures
        remaining(qs, ws) <= 0 <==> (forall|j: int|
            0 <= j < 8 ==> ws[j] <= 0 || (#[trigger] qs[j]).len() == 0),
        remaining(qs, ws) <= 0 ==> schedule(qs, ws) == Seq::<Packet>::empty(),
{
    lemma_remaining_nonneg(qs, ws, 8);
    if remaining(qs, ws) <= 0 {
        assert forall|j: int| 0 <= j < 8 implies ws[j] <= 0 || (#[trigger] qs[j]).len() == 0 by {
            lemma_remaining_lower(qs, ws, 8, j);
        }
    } else {
        let j = choose|j: int| 0 <= j < 8 && ws[j] > 0 && qs[j].len() > 0;
        assert(!(ws[j] <= 0 || qs[j].len() == 0));
    }
}

/// At the start of a round the traversal's tail is the whole schedule.
pub proof fn lemma_tail_start(qs: Seq<Seq<Packet>>, ws: Seq<int>)
    requires
        wf_queues(qs),
        wf_weights(ws),
    ensures
        tail_from(qs, ws, 0, 0) == schedule(qs, ws),
{
    assert(after_part(qs, ws, 0, 0) =~= advance(qs, ws));
    if remaining(qs, ws) <= 0 {
        lemma_schedule_empty(qs, ws);
        lemma_round_from_empty(qs, ws, 0);
        assert(quota(qs[0], ws[0]) == 0);
        lemma_remaining_nonneg(advance(qs, ws), ws, 8);
        lemma_remaining_advance(qs, ws, 8);
        lemma_schedule_empty(advance(qs, ws), ws);
        assert(tail_from(qs, ws, 0, 0) =~= schedule(qs, ws));
    } else {
        assert(schedule(qs, ws) == round_from(qs, ws, 0) + schedule(advance(qs, ws), ws));
        assert(round_from(qs, ws, 0) == qs[0].take(quota(qs[0], ws[0])) + round_from(qs, ws, 1));
        assert(tail_from(qs, ws, 0, 0) =~= schedule(qs, ws));
    }
}



/// Yielding the front packet of class `c`'s slice: the tail starts with that
/// packet, and dropping it from both the queue and the tail moves the cursor
/// one step within the slice.
pub proof fn lemma_tail_yield(qs: Seq<Seq<Packet>>, ws: Seq<int>, c: int, k: int)
    requires
        wf_queues(qs),
        wf_weights(ws),
        0 <= c < 8,
        0 <= k < ws[c],
        qs[c].len() > 0,
    ensures
        tail_from(qs, ws, c, k).len() > 0,
        tail_from(qs, ws, c, k)[0] == qs[c][0],
        tail_from(qs.update(c, qs[c].skip(1)), ws, c, k + 1) == tail_from(qs, ws, c, k).skip(1),
{
    let len = qs[c].len() as int;
    let m = min_i(ws[c] - k, len);
    assert(m >= 1);
    let t = tail_from(qs, ws, c, k);
    assert(t[0] == qs[c].take(m)[0]);
    assert(t[0] == qs[c][0]);
    let qs2 = qs.update(c, qs[c].skip(1));
    assert(qs2[c].take(min_i(ws[c] - (k + 1), qs2[c].len() as int)) =~= qs[c].take(m).skip(1));
    lemma_round_from_agree(qs2, qs, ws, c + 1);
    assert(qs2[c].skip(min_i(ws[c] - (k + 1), qs2[c].len() as int)) =~= qs[c].skip(m));
    assert(after_part(qs2, ws, c, k + 1) =~= after_part(qs, ws, c, k));
    assert(tail_from(qs2, ws, c, k + 1) =~= t.skip(1));
}

/// When class `c` has nothing more to give this round (its slice is spent or
/// its queue is empty), stepping the cursor to class `c + 1` leaves the tail
/// unchanged.
pub proof fn lemma_tail_advance(qs: Seq<Seq<Packet>>, ws: Seq<int>, c: int, k: int)
    requires
        wf_queues(qs),
        wf_weights(ws),
        0 <= c < 8,
        0 <= k <= ws[c],
        min_i(ws[c] - k, qs[c].len() as int) == 0,
    ensures
        tail_from(qs, ws, c + 1, 0) == tail_from(qs, ws, c, k),
{
    let len = qs[c].len() as int;
    let m = min_i(ws[c] - k, len);
    assert(qs[c].take(m) =~= Seq::<Packet>::empty());
    assert(qs[c].skip(m) =~= qs[c]);
    if c + 1 < 8 {
        assert(after_part(qs, ws, c + 1, 0) =~= after_part(qs, ws, c, k));
        assert(tail_from(qs, ws, c + 1, 0) =~= tail_from(qs, ws, c, k));
    } else {
        assert(after_part(qs, ws, c, k) =~= qs);
        assert(round_from(qs, ws, c + 1) == Seq::<Packet>::empty());
        assert(tail_from(qs, ws, c + 1, 0) =~= tail_from(qs, ws, c, k));
    }
}


/// The packets of a batch that route to class `j`, in batch order.
pub open spec fn routed(batch: Seq<Packet>, j: int) -> Seq<Packet> {
    batch.filter(|p: Packet| p.class as int == j)
}

} // verus!
