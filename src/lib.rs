//! Packet classification over prioritised five-dimensional rule sets.
//!
//! Several decision structures (a linear scan, CutSplit, HiCuts, HyperSplit,
//! TupleMerge and PartitionSort) are built from the same rules and answer the
//! same question: which action does the rule of lowest priority value that
//! matches a packet prescribe. Every engine is proved to agree with the
//! linear scan on every packet.

pub mod packet;
pub mod rule;
pub mod order;
pub mod classifier;
pub mod linear;
pub mod cutsplit;
pub mod hicuts;
pub mod hypersplit;
pub mod tss;
pub mod partitionsort;
pub mod simulation;
