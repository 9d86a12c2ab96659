//! A weighted multi-class packet scheduler, with a few small demonstration
//! modules alongside it.
//!
//! Packets carry a priority class in `[0, 8)` and are buffered in one FIFO
//! queue per class. A traversal interleaves the queues in rounds of weighted
//! round robin: round after round, each class in ascending order contributes
//! up to its weight's worth of packets, and within every class the arrival
//! order is kept. Three traversal modes — read, mutate, drain — are
//! contracted to one and the same order, `policy::schedule`.

pub mod basics;
pub mod laws;
pub mod packet;
pub mod policy;
pub mod quad;
pub mod sched;
