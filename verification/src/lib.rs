//! A minimal conservative mark-and-sweep garbage collector, exposed as a
//! runtime support library: a host compiler registers object shapes (an
//! allocation size plus the byte offsets of pointer-valued fields) and then
//! allocates instances of those shapes through the collector, which tracks
//! every live address it has handed out. A collection cycle discovers roots
//! conservatively in a snapshot of the mutator's stack words, computes the
//! transitive closure of tracked objects over their declared pointer fields,
//! and reclaims exactly the tracked addresses the closure did not reach.
//!
//! The collector itself never touches raw memory: addresses are plain
//! integers used as map keys, and the raw reads (stack words, pointer-field
//! words) as well as the raw allocation and release are the caller's part.
//! The caller hands in the word snapshots and receives the addresses to
//! release, so everything here is ordinary data-structure code with proofs.
pub mod collector;
pub mod defs;
pub mod reach;
