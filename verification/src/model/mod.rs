//! The storage engine: big-endian length prefixes, fixed-size row slots
//! inside fixed-size pages, and the engine state that decides what is
//! written where.
pub mod be_bytes;
pub mod page;
pub mod database;
pub mod builder;
