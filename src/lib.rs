//! An in-memory vector index: labelled fixed-dimension vectors with soft
//! deletion, slot reuse, explicit capacity growth, filtered k-nearest-neighbour
//! search and a checked binary encoding.
//!
//! Vector components are carried as the bit patterns of IEEE-754 binary32
//! values; the distance kernel is supplied by the caller.
pub mod codec;
pub mod config;
pub mod errors;
pub mod index;
pub mod laws;
pub mod state;
