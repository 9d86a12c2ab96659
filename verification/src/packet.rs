use vstd::prelude::*;

verus! {

/// A unit of traffic. The class selects the queue (and thereby the weight)
/// the scheduler uses; the flow only labels the stream the packet belongs to;
/// the payload is carried through unchanged.
#[derive(Debug, Clone, Copy, PartialEq, Eq, Structural)]
pub struct Packet {
    pub class: u8,
    pub flow: u16,
    pub payload: u64,
}

impl Packet {
    /// A packet is well formed when its class names one of the eight queues.
    pub open spec fn wf(self) -> bool {
        self.class < 8
    }

    /// Builds a packet. A class outside `[0, 8)` is a contract violation of
    /// the caller, never silently clamped or rerouted.
    pub fn new(payload: u64, class: u8, flow: u16) -> (p: Packet)
        requires
            class < 8,
        ensures
            p == (Packet { class, flow, payload }),
            p.wf(),
    {
        Packet { class, flow, payload }
    }
}

} // verus!
