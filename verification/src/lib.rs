//! Inclusion proofs for Merkle Mountain Ranges: the wire formats of proofs and
//! leaf records, the hash that joins two nodes, the driver that turns loaded
//! witnesses into a verdict, and the generator of randomized fixtures.

pub mod error;
pub mod wire;
pub mod format;
pub mod hash;
pub mod baseline;
pub mod compiled;
pub mod driver;
pub mod generator;
