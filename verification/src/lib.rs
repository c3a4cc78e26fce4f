//! Verified core of a PoC1 -> PoC2 plot file converter.
//!
//! A plot file is a precomputed store of hash data for proof-of-capacity
//! mining.  Converting it from the PoC1 layout to the PoC2 layout only
//! rearranges 32-byte hash halves between mirrored regions of the file;
//! no hash is recomputed.  This crate holds the verified logic:
//!
//! * [`digits`] - decimal parsing and formatting used by the filename schema;
//! * [`plot`] - the plot descriptor: filename parsing, size validation,
//!   conversion mode selection and output naming;
//! * [`transform`] - the scoop-pair swap itself, with proofs that it is a
//!   self-inverse permutation that never touches a first hash half.
//!
//! All file and terminal I/O stays with the (unverified) caller, which hands
//! this crate plain values and buffers.

pub mod digits;
pub mod plot;
pub mod transform;
