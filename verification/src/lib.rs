//! Proof-of-storage library: finite-field data packing, Merkle commitments over
//! Reed-Solomon encoded file matrices, and the verification logic a client uses to
//! check a storage server.

pub mod databases;
pub mod fields;
pub mod file_metadata;
pub mod lcpc_online;
pub mod networking;
