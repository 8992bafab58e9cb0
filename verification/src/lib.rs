//! Verified course exercises centered on an arbitrary-precision signed
//! integer ([`bigint::BigInt`]) stored as two's-complement 32-bit words.

pub mod bigint;
pub mod bigint_laws;
pub mod calculus;
pub mod calendar;
pub mod generator;
pub mod labyrinth;
pub mod listops;
pub mod numeric;
pub mod parser;
pub mod roster;
pub mod semiring;
pub mod series;
pub mod shell;
pub mod sorting;
pub mod stats;
pub mod storage;
pub mod strutil;
pub mod text;
