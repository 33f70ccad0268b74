//! Modular arithmetic, polynomial rings, and lattice types, with contracts
//! proved by Verus.
pub mod arith;
pub mod lattice;
pub mod poly;
pub mod serialize;
