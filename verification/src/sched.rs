//! The scheduler: eight class-indexed FIFO queues and a weight table.

use vstd::prelude::*;

use crate::packet::Packet;
use crate::policy::classes_routed;
use crate::policy::lemma_schedule_empty;
use crate::policy::lemma_tail_advance;
use crate::policy::lemma_tail_start;
use crate::policy::lemma_tail_yield;
use crate::policy::min_i;
use crate::policy::schedule;
use crate::policy::tail_from;
use crate::policy::routed;
use crate::policy::wf_queues;
use crate::policy::wf_weights;

verus! {

/// A weighted multi-class packet scheduler. Packets are buffered per class in
/// arrival order; traversals interleave the classes by weighted round robin.
#[derive(Clone)]
pub struct Scheduler {
    queues: Vec<Vec<Packet>>,
    weights: [usize; 8],
}

impl Scheduler {
    /// The queues' contents, one sequence per class.
    pub closed spec fn qview(&self) -> Seq<Seq<Packet>> {
        self.queues@.map_values(|q: Vec<Packet>| q@)
    }

    /// The weight table.
    pub closed spec fn wview(&self) -> Seq<int> {
        self.weights@.map_values(|w: usize| w as int)
    }

    /// Eight queues, eight non-negative weights, every packet in the queue
    /// its class names.
    pub open spec fn wf(&self) -> bool {
        &&& wf_queues(self.qview())
        &&& wf_weights(self.wview())
        &&& classes_routed(self.qview())
    }

    /// Builds a scheduler with the given weight table and empty queues. A
    /// weight of zero means that class is never serviced: its queue can still
    /// receive packets, but no traversal will return them.
    pub fn new(weights: [usize; 8]) -> (s: Scheduler)
        ensures
            s.wf(),
            s.wview() == weights@.map_values(|w: usize| w as int),
            forall|j: int| 0 <= j < 8 ==> #[trigger] s.qview()[j] == Seq::<Packet>::empty(),
    {
        let mut queues: Vec<Vec<Packet>> = Vec::new();
        let mut j: usize = 0;
        while j < 8
            invariant
                queues@.len() == j,
                j <= 8,
                forall|i: int| 0 <= i < j ==> (#[trigger] queues@[i])@.len() == 0,
            decreases 8 - j,
        {
            queues.push(Vec::new());
            j = j + 1;
        }
        let s = Scheduler { queues, weights };
        proof {
            assert(forall|i: int| 0 <= i < 8 ==> #[trigger] s.qview()[i] =~= Seq::<Packet>::empty());
            assert(forall|i: int| 0 <= i < 8 ==> #[trigger] s.wview()[i] >= 0);
        }
        s
    }

    /// Appends each packet to the queue its class names, keeping the given
    /// order within every class. All packets must be well formed; a class out
    /// of range is a contract violation caught at packet construction.
    pub fn enqueue(&mut self, packets: &[Packet])
        requires
            old(self).wf(),
            forall|i: int| 0 <= i < packets@.len() ==> (#[trigger] packets@[i]).wf(),
        ensures
            final(self).wf(),
            final(self).wview() == old(self).wview(),
            forall|j: int|
                0 <= j < 8 ==> #[trigger] final(self).qview()[j] == old(self).qview()[j] + routed(
                    packets@,
                    j,
                ),
    {
        let ghost q0 = old(self).qview();
        let mut i: usize = 0;
        while i < packets.len()
            invariant
                self.wf(),
                self.wview() == old(self).wview(),
                i <= packets@.len(),
                forall|i2: int| 0 <= i2 < packets@.len() ==> (#[trigger] packets@[i2]).wf(),
                forall|j: int|
                    0 <= j < 8 ==> #[trigger] self.qview()[j] == q0[j] + routed(
                        packets@.take(i as int),
                        j,
                    ),
            decreases packets@.len() - i,
        {
            let p = packets[i];
            let c = p.class as usize;
            let ghost qs_before = self.qview();
            self.queues[c].push(p);
            proof {
                assert(self.qview() =~= qs_before.update(c as int, qs_before[c as int].push(p)));
                lemma_routed_take_step(packets@, i as int);
                assert forall|j: int| 0 <= j < 8 implies #[trigger] self.qview()[j] == q0[j]
                    + routed(packets@.take(i + 1), j) by {
                    if j == c as int {
                        assert(self.qview()[j] =~= q0[j] + routed(packets@.take(i as int), j).push(
                            p,
                        ));
                    }
                }
            }
            i = i + 1;
        }
        proof {
            assert(packets@.take(packets@.len() as int) =~= packets@);
        }
    }
}

/// Default: equal weights of one for every class, pure round robin.
impl Default for Scheduler {
    fn default() -> (s: Scheduler)
        ensures
            s.wf(),
            forall|j: int| 0 <= j < 8 ==> #[trigger] s.wview()[j] == 1,
            forall|j: int| 0 <= j < 8 ==> #[trigger] s.qview()[j] == Seq::<Packet>::empty(),
    {
        let s = Scheduler::new([1, 1, 1, 1, 1, 1, 1, 1]);
        s
    }
}

/// Routing one more packet extends exactly its own class's routed sequence.
proof fn lemma_routed_take_step(batch: Seq<Packet>, i: int)
    requires
        0 <= i < batch.len(),
    ensures
        forall|j: int|
            batch[i].class as int == j ==> #[trigger] routed(batch.take(i + 1), j) == routed(
                batch.take(i),
                j,
            ).push(batch[i]),
        forall|j: int|
            batch[i].class as int != j ==> #[trigger] routed(batch.take(i + 1), j) == routed(
                batch.take(i),
                j,
            ),
{
    reveal(Seq::filter);
    assert(batch.take(i + 1).drop_last() =~= batch.take(i));
    assert(batch.take(i + 1).last() == batch[i]);
}


/// A draining traversal: owns the scheduler, removes each packet as it
/// yields it, and leaves every serviceable queue empty once exhausted.
/// Packets already yielded are gone for good; dropping a partly consumed
/// draining traversal drops the scheduler with everything it still holds,
/// so the remainder is not recoverable.
pub struct SchedulerIntoIter {
    scheduler: Scheduler,
    class: usize,
    taken: usize,
    progressed: bool,
    full: Ghost<Seq<Packet>>,
    emitted: Ghost<nat>,
}

impl Scheduler {
    /// Starts a draining traversal over this scheduler, consuming it. The
    /// traversal yields `schedule(..)` of the scheduler's current state, one
    /// packet per call, removing each from its queue.
    pub fn into_iter(self) -> (it: SchedulerIntoIter)
        requires
            self.wf(),
        ensures
            it.inv(),
            it.order() == schedule(self.qview(), self.wview()),
            it.produced() == 0,
    {
        proof {
            lemma_tail_start(self.qview(), self.wview());
        }
        let it = SchedulerIntoIter {
            scheduler: self,
            class: 0,
            taken: 0,
            progressed: false,
            full: Ghost(schedule(self.qview(), self.wview())),
            emitted: Ghost(0),
        };
        proof {
            assert(it.full@.skip(0) =~= it.full@);
        }
        it
    }
}

impl SchedulerIntoIter {
    /// The complete order this traversal yields, fixed when it was started.
    pub closed spec fn order(&self) -> Seq<Packet> {
        self.full@
    }

    /// How many packets have been yielded so far.
    pub closed spec fn produced(&self) -> nat {
        self.emitted@
    }

    /// What the owned scheduler's queues still hold.
    pub closed spec fn live_queues(&self) -> Seq<Seq<Packet>> {
        self.scheduler.qview()
    }

    /// The owned scheduler's weights.
    pub closed spec fn live_weights(&self) -> Seq<int> {
        self.scheduler.wview()
    }

    /// The traversal's internal consistency: the cursor stands in a round at
    /// class `class` with `taken` packets of that class's slice already out,
    /// and what is left to yield is exactly the tail of the fixed order.
    pub closed spec fn inv(&self) -> bool {
        let qs = self.scheduler.qview();
        let ws = self.scheduler.wview();
        &&& self.scheduler.wf()
        &&& self.class <= 8
        &&& (self.class < 8 ==> self.taken as int <= ws[self.class as int])
        &&& (self.class == 8 ==> self.taken == 0)
        &&& self.emitted@ <= self.full@.len()
        &&& self.full@.skip(self.emitted@ as int) == tail_from(
            qs,
            ws,
            self.class as int,
            self.taken as int,
        )
        &&& (!self.progressed ==> self.taken == 0 && (forall|j: int|
            0 <= j < self.class as int ==> ws[j] <= 0 || (#[trigger] qs[j]).len() == 0))
    }

    /// Yields the next packet of the weighted round-robin order, removing it
    /// from its queue; `None` once every serviceable queue is empty, and then
    /// forever after.
    #[verifier::loop_isolation(false)]
    pub fn next(&mut self) -> (r: Option<Packet>)
        requires
            old(self).inv(),
        ensures
            final(self).inv(),
            final(self).order() == old(self).order(),
            old(self).produced() < old(self).order().len() ==> {
                &&& r == Some(old(self).order()[old(self).produced() as int])
                &&& final(self).produced() == old(self).produced() + 1
            },
            old(self).produced() >= old(self).order().len() ==> {
                &&& r is None
                &&& final(self).produced() == old(self).produced()
                &&& schedule(final(self).live_queues(), final(self).live_weights())
                    == Seq::<Packet>::empty()
            },
    {
        loop
            invariant
                self.inv(),
                self.full == old(self).full,
                self.emitted == old(self).emitted,
            decreases (if self.progressed {
                1int
            } else {
                0int
            }), 8 - self.class,
        {
            let ghost qs = self.scheduler.qview();
            let ghost ws = self.scheduler.wview();
            if self.class == 8 {
                if self.progressed {
                    proof {
                        lemma_tail_start(qs, ws);
                    }
                    self.class = 0;
                    self.progressed = false;
                } else {
                    proof {
                        lemma_schedule_empty(qs, ws);
                        assert(self.full@.skip(self.emitted@ as int).len() == 0);
                    }
                    return None;
                }
            } else {
                let c = self.class;
                let w = self.scheduler.weights[c];
                proof {
                    assert(qs[c as int] == self.scheduler.queues@[c as int]@);
                    assert(ws[c as int] == w as int);
                }
                if self.taken < w && self.scheduler.queues[c].len() > 0 {
                    let ghost k = self.taken as int;
                    proof {
                        lemma_tail_yield(qs, ws, c as int, k);
                    }
                    let p = self.scheduler.queues[c].remove(0);
                    proof {
                        assert(self.scheduler.queues@[c as int]@ =~= qs[c as int].skip(1));
                        assert(self.scheduler.qview() =~= qs.update(
                            c as int,
                            qs[c as int].skip(1),
                        ));
                        assert(self.full@.skip(self.emitted@ as int + 1) =~= self.full@.skip(
                            self.emitted@ as int,
                        ).skip(1));
                    }
                    self.taken = self.taken + 1;
                    self.progressed = true;
                    self.emitted = Ghost(self.emitted@ + 1);
                    proof {
                        assert forall|j: int, i: int|
                            0 <= j < 8 && 0 <= i < self.scheduler.qview()[j].len()
                            implies (#[trigger] self.scheduler.qview()[j][i]).class == j by {
                            assert(qs[j].len() > i >= 0 ==> qs[j][i].class == j);
                        }
                    }
                    return Some(p);
                } else {
                    proof {
                        assert(min_i(ws[c as int] - self.taken as int, qs[c as int].len() as int)
                            == 0);
                        lemma_tail_advance(qs, ws, c as int, self.taken as int);
                    }
                    self.class = c + 1;
                    self.taken = 0;
                }
            }
        }
    }
}


/// A read-only traversal: borrows the scheduler, leaves it untouched, and
/// yields references to the packets in weighted round-robin order. Any
/// number of read traversals may run side by side.
pub struct SchedulerIter<'a> {
    sched: &'a Scheduler,
    off: Vec<usize>,
    class: usize,
    taken: usize,
    progressed: bool,
    cur: Ghost<Seq<Seq<Packet>>>,
    emitted: Ghost<nat>,
}

impl Scheduler {
    /// Starts a read-only traversal over the scheduler's current state.
    /// While any read traversal is alive the scheduler is shared and cannot
    /// be enqueued into or mutated, so a traversal always observes the state
    /// it started from; packets enqueued later are seen only by traversals
    /// started later.
    pub fn iter<'s>(&'s self) -> (it: SchedulerIter<'s>)
        requires
            self.wf(),
        ensures
            it.inv(),
            it.order() == schedule(self.qview(), self.wview()),
            it.produced() == 0,
    {
        proof {
            lemma_tail_start(self.qview(), self.wview());
        }
        let mut off: Vec<usize> = Vec::new();
        let mut j: usize = 0;
        while j < 8
            invariant
                off@.len() == j,
                j <= 8,
                forall|i: int| 0 <= i < j ==> #[trigger] off@[i] == 0,
            decreases 8 - j,
        {
            off.push(0);
            j = j + 1;
        }
        let it = SchedulerIter {
            sched: self,
            off,
            class: 0,
            taken: 0,
            progressed: false,
            cur: Ghost(self.qview()),
            emitted: Ghost(0),
        };
        proof {
            assert(forall|i: int|
                0 <= i < 8 ==> #[trigger] it.cur@[i] =~= self.qview()[i].skip(0));
            assert(it.order().skip(0) =~= it.order());
        }
        it
    }
}

impl<'a> SchedulerIter<'a> {
    /// The complete order this traversal yields: the schedule of the queues
    /// as they stood when it started (and still stand, since it never
    /// mutates them).
    pub closed spec fn order(&self) -> Seq<Packet> {
        schedule(self.sched.qview(), self.sched.wview())
    }

    /// How many packets have been yielded so far.
    pub closed spec fn produced(&self) -> nat {
        self.emitted@
    }

    /// The traversal's internal consistency: `cur` is what the queues
    /// conceptually still hold (each queue minus its `off` produced
    /// packets), the cursor stands at class `class` with `taken` of its
    /// slice out this round, and the rest to yield is the tail of the order.
    pub closed spec fn inv(&self) -> bool {
        let qs = self.sched.qview();
        let ws = self.sched.wview();
        &&& self.sched.wf()
        &&& self.off@.len() == 8
        &&& self.cur@.len() == 8
        &&& (forall|j: int| 0 <= j < 8 ==> #[trigger] self.off@[j] as int <= qs[j].len())
        &&& (forall|j: int|
            0 <= j < 8 ==> #[trigger] self.cur@[j] == qs[j].skip(self.off@[j] as int))
        &&& self.class <= 8
        &&& (self.class < 8 ==> self.taken as int <= ws[self.class as int])
        &&& (self.class == 8 ==> self.taken == 0)
        &&& self.emitted@ <= self.order().len()
        &&& self.order().skip(self.emitted@ as int) == tail_from(
            self.cur@,
            ws,
            self.class as int,
            self.taken as int,
        )
        &&& (!self.progressed ==> self.taken == 0 && (forall|j: int|
            0 <= j < self.class as int ==> ws[j] <= 0 || (#[trigger] self.cur@[j]).len() == 0))
    }

    /// Yields a reference to the next packet of the weighted round-robin
    /// order without disturbing the queues; `None` once the order is
    /// exhausted, and then forever after.
    #[verifier::loop_isolation(false)]
    pub fn next(&mut self) -> (r: Option<&'a Packet>)
        requires
            old(self).inv(),
        ensures
            final(self).inv(),
            final(self).order() == old(self).order(),
            old(self).produced() < old(self).order().len() ==> {
                &&& r matches Some(p) && *p == old(self).order()[old(self).produced() as int]
                &&& final(self).produced() == old(self).produced() + 1
            },
            old(self).produced() >= old(self).order().len() ==> {
                &&& r is None
                &&& final(self).produced() == old(self).produced()
            },
    {
        loop
            invariant
                self.inv(),
                self.sched == old(self).sched,
                self.emitted == old(self).emitted,
            decreases (if self.progressed {
                1int
            } else {
                0int
            }), 8 - self.class,
        {
            let ghost ws = self.sched.wview();
            if self.class == 8 {
                if self.progressed {
                    proof {
                        lemma_tail_start(self.cur@, ws);
                    }
                    self.class = 0;
                    self.progressed = false;
                } else {
                    proof {
                        lemma_schedule_empty(self.cur@, ws);
                        assert(self.order().skip(self.emitted@ as int).len() == 0);
                    }
                    return None;
                }
            } else {
                let c = self.class;
                let s: &'a Scheduler = self.sched;
                let w = s.weights[c];
                let pos = self.off[c];
                proof {
                    assert(self.cur@[c as int] == s.qview()[c as int].skip(pos as int));
                    assert(ws[c as int] == w as int);
                }
                if self.taken < w && pos < s.queues[c].len() {
                    let ghost k = self.taken as int;
                    let ghost cur0 = self.cur@;
                    let ghost off0 = self.off@;
                    proof {
                        assert(cur0[c as int].len() == s.qview()[c as int].len() - pos);
                        lemma_tail_yield(cur0, ws, c as int, k);
                        assert(cur0[c as int][0] == s.qview()[c as int][pos as int]);
                    }
                    let q: &'a Vec<Packet> = &s.queues[c];
                    let p: &'a Packet = &q[pos];
                    self.off[c] = pos + 1;
                    self.taken = self.taken + 1;
                    self.progressed = true;
                    self.cur = Ghost(cur0.update(c as int, cur0[c as int].skip(1)));
                    self.emitted = Ghost(self.emitted@ + 1);
                    proof {
                        assert(self.cur@[c as int] =~= s.qview()[c as int].skip(pos as int + 1));
                        assert(self.order().skip(self.emitted@ as int) =~= self.order().skip(
                            self.emitted@ as int - 1,
                        ).skip(1));
                        assert(self.off@ =~= off0.update(c as int, (pos + 1) as usize));
                        assert(pos + 1 <= s.qview()[c as int].len());
                        assert forall|j: int| 0 <= j < 8 implies #[trigger] self.off@[j] as int
                            <= s.qview()[j].len() by {
                            assert(off0[j] as int <= s.qview()[j].len());
                        }
                        assert forall|j: int| 0 <= j < 8 implies #[trigger] self.cur@[j]
                            == s.qview()[j].skip(self.off@[j] as int) by {
                            assert(cur0[j] == s.qview()[j].skip(off0[j] as int));
                            assert(self.off@[j] == off0.update(c as int, (pos + 1) as usize)[j]);
                        }
                    }
                    return Some(p);
                } else {
                    proof {
                        assert(min_i(ws[c as int] - self.taken as int, self.cur@[c as int].len() as int)
                            == 0);
                        lemma_tail_advance(self.cur@, ws, c as int, self.taken as int);
                    }
                    self.class = c + 1;
                    self.taken = 0;
                }
            }
        }
    }
}


/// A mutable traversal: borrows the scheduler exclusively and yields, in
/// weighted round-robin order, exclusive access to each packet's payload.
/// Only the payload can be edited in place: class and flow stay as they
/// are, so the class-indexed queue invariant cannot be broken.
pub struct SchedulerIterMut<'a> {
    sched: &'a mut Scheduler,
    off: Vec<usize>,
    class: usize,
    taken: usize,
    progressed: bool,
    cur: Ghost<Seq<Seq<Packet>>>,
    full: Ghost<Seq<Packet>>,
    emitted: Ghost<nat>,
}

impl Scheduler {
    /// Starts a mutable traversal. It has the scheduler to itself for its
    /// whole lifetime: no enqueue and no other traversal can interleave.
    pub fn iter_mut<'s>(&'s mut self) -> (it: SchedulerIterMut<'s>)
        requires
            old(self).wf(),
        ensures
            it.inv(),
            it.order() == schedule(old(self).qview(), old(self).wview()),
            it.produced() == 0,
            it.live_queues() == old(self).qview(),
            it.live_weights() == old(self).wview(),
    {
        proof {
            lemma_tail_start(self.qview(), self.wview());
        }
        let ghost qs0 = self.qview();
        let ghost ws0 = self.wview();
        let mut off: Vec<usize> = Vec::new();
        let mut j: usize = 0;
        while j < 8
            invariant
                off@.len() == j,
                j <= 8,
                forall|i: int| 0 <= i < j ==> #[trigger] off@[i] == 0,
            decreases 8 - j,
        {
            off.push(0);
            j = j + 1;
        }
        let it = SchedulerIterMut {
            sched: self,
            off,
            class: 0,
            taken: 0,
            progressed: false,
            cur: Ghost(qs0),
            full: Ghost(schedule(qs0, ws0)),
            emitted: Ghost(0),
        };
        proof {
            assert(forall|i: int| 0 <= i < 8 ==> #[trigger] it.cur@[i] =~= qs0[i].skip(0));
            assert(it.full@.skip(0) =~= it.full@);
        }
        it
    }
}

impl<'a> SchedulerIterMut<'a> {
    /// The complete order this traversal yields, fixed when it was started;
    /// payload edits to packets already yielded do not change it.
    pub closed spec fn order(&self) -> Seq<Packet> {
        self.full@
    }

    /// How many packets have been yielded so far.
    pub closed spec fn produced(&self) -> nat {
        self.emitted@
    }

    /// What the borrowed scheduler's queues hold right now, edits included.
    pub closed spec fn live_queues(&self) -> Seq<Seq<Packet>> {
        self.sched.qview()
    }

    /// The borrowed scheduler's weights.
    pub closed spec fn live_weights(&self) -> Seq<int> {
        self.sched.wview()
    }

    /// How far the traversal has read into each queue: the next packet of
    /// class `j` to be yielded stands at this index of its queue.
    pub closed spec fn consumed(&self) -> Seq<usize> {
        self.off@
    }

    /// The traversal's internal consistency. As in the read-only traversal,
    /// `cur` is what the queues conceptually still hold; packets already
    /// yielded (and so open to payload edits) are not in it, which keeps the
    /// tail of the fixed order intact whatever the caller writes.
    pub closed spec fn inv(&self) -> bool {
        let qs = self.sched.qview();
        let ws = self.sched.wview();
        &&& wf_queues(qs)
        &&& wf_weights(ws)
        &&& classes_routed(self.cur@)
        &&& self.off@.len() == 8
        &&& self.cur@.len() == 8
        &&& (forall|j: int| 0 <= j < 8 ==> #[trigger] self.off@[j] as int <= qs[j].len())
        &&& (forall|j: int|
            0 <= j < 8 ==> (#[trigger] self.cur@[j] =~= qs[j].skip(self.off@[j] as int)))
        &&& self.class <= 8
        &&& (self.class < 8 ==> self.taken as int <= ws[self.class as int])
        &&& (self.class == 8 ==> self.taken == 0)
        &&& self.emitted@ <= self.full@.len()
        &&& self.full@.skip(self.emitted@ as int) == tail_from(
            self.cur@,
            ws,
            self.class as int,
            self.taken as int,
        )
        &&& (!self.progressed ==> self.taken == 0 && (forall|j: int|
            0 <= j < self.class as int ==> ws[j] <= 0 || (#[trigger] self.cur@[j]).len() == 0))
    }

    /// Yields exclusive access to the payload of the next packet of the
    /// weighted round-robin order; `None` once the order is exhausted, and
    /// then forever after. The packet stays in its queue; only its payload
    /// changes, to whatever the caller writes through the reference.
    #[verifier::loop_isolation(false)]
    pub fn next(&mut self) -> (r: Option<&mut u64>)
        requires
            old(self).inv(),
        ensures
            final(self).inv(),
            final(self).order() == old(self).order(),
            final(self).live_weights() == old(self).live_weights(),
            old(self).produced() < old(self).order().len() ==> ({
                let p = old(self).order()[old(self).produced() as int];
                let ci = p.class as int;
                let pi = old(self).consumed()[ci] as int;
                &&& (r matches Some(e) && *e == p.payload && (final(self).live_queues()
                    =~= old(self).live_queues().update(
                    ci,
                    old(self).live_queues()[ci].update(
                        pi,
                        (Packet { class: p.class, flow: p.flow, payload: *final(e) }),
                    ),
                )))
                &&& final(self).produced() == old(self).produced() + 1
            }),
            old(self).produced() >= old(self).order().len() ==> {
                &&& r is None
                &&& final(self).produced() == old(self).produced()
                &&& final(self).live_queues() == old(self).live_queues()
            },
            forall|j: int|
                0 <= j < 8 ==> (#[trigger] final(self).live_queues()[j]).len() == old(
                    self,
                ).live_queues()[j].len(),
            forall|j: int, i: int|
                0 <= j < 8 && 0 <= i < old(self).live_queues()[j].len() ==> {
                    &&& (#[trigger] final(self).live_queues()[j][i]).class == old(
                        self,
                    ).live_queues()[j][i].class
                    &&& final(self).live_queues()[j][i].flow == old(self).live_queues()[j][i].flow
                },
    {
        loop
            invariant
                self.inv(),
                self.full == old(self).full,
                self.emitted == old(self).emitted,
                self.off@ == old(self).off@,
                self.sched.qview() == old(self).sched.qview(),
                self.sched.wview() == old(self).sched.wview(),
            decreases (if self.progressed {
                1int
            } else {
                0int
            }), 8 - self.class,
        {
            let ghost ws = self.sched.wview();
            if self.class == 8 {
                if self.progressed {
                    proof {
                        lemma_tail_start(self.cur@, ws);
                    }
                    self.class = 0;
                    self.progressed = false;
                } else {
                    proof {
                        lemma_schedule_empty(self.cur@, ws);
                        assert(self.full@.skip(self.emitted@ as int).len() == 0);
                    }
                    return None;
                }
            } else {
                let c = self.class;
                let w = self.sched.weights[c];
                let pos = self.off[c];
                let qlen = self.sched.queues[c].len();
                proof {
                    assert(self.cur@[c as int] =~= self.sched.qview()[c as int].skip(pos as int));
                    assert(ws[c as int] == w as int);
                }
                if self.taken < w && pos < qlen {
                    let ghost k = self.taken as int;
                    let ghost cur0 = self.cur@;
                    let ghost off0 = self.off@;
                    let ghost qs0 = self.sched.qview();
                    proof {
                        assert(cur0[c as int].len() == qs0[c as int].len() - pos);
                        lemma_tail_yield(cur0, ws, c as int, k);
                        assert(cur0[c as int][0] == qs0[c as int][pos as int]);
                        assert(self.full@[self.emitted@ as int] == qs0[c as int][pos as int]);
                        assert(cur0[c as int][0].class == c);
                    }
                    self.off[c] = pos + 1;
                    self.taken = self.taken + 1;
                    self.progressed = true;
                    self.cur = Ghost(cur0.update(c as int, cur0[c as int].skip(1)));
                    self.emitted = Ghost(self.emitted@ + 1);
                    proof {
                        assert(self.off@ =~= off0.update(c as int, (pos + 1) as usize));
                        assert(self.full@.skip(self.emitted@ as int) =~= self.full@.skip(
                            self.emitted@ as int - 1,
                        ).skip(1));
                        assert(self.cur@[c as int] =~= qs0[c as int].skip(pos as int + 1));
                        assert forall|j: int, i: int|
                            0 <= j < self.cur@.len() && 0 <= i < self.cur@[j].len() implies (#[trigger] self.cur@[j][i]).class
                            == j by {
                            assert(0 <= j < 8 && i < cur0[j].len() ==> cur0[j][i].class == j);
                            if j == c as int {
                                assert(self.cur@[j][i] == cur0[j][i + 1]);
                            }
                        }
                    }
                    let e = &mut self.sched.queues[c][pos].payload;
                    return Some(e);
                } else {
                    proof {
                        assert(min_i(ws[c as int] - self.taken as int, self.cur@[c as int].len() as int)
                            == 0);
                        lemma_tail_advance(self.cur@, ws, c as int, self.taken as int);
                    }
                    self.class = c + 1;
                    self.taken = 0;
                }
            }
        }
    }
}

} // verus!
