//! Witness computation for zero-knowledge circuits that prove answers to
//! TPC-H queries 3 and 18 over integer-encoded tables.

pub mod sort;
pub mod table;
pub mod aggregate;
pub mod q18;
pub mod q3;
