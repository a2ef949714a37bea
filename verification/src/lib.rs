//! Integrity attestation of a process's memory: a snapshot of the address space is
//! cut into fixed-size blocks, each block is hashed into a leaf, the leaves are bound
//! by a Merkle root, and single blocks are later revealed against that commitment.

pub mod dumper;
pub mod hash;
pub mod leaves;
pub mod merkle;
pub mod profiler;
pub mod protocol;
pub mod region;
pub mod server;
pub mod text;
pub mod utils;
