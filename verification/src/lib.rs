//! An append-only key-value log with an in-memory position index and
//! per-record checksums, together with a few small companions: a tiny
//! register machine, a two-dimensional array, and a digest helper.

pub mod record;
pub mod index;
pub mod store;
pub mod cpu;
pub mod array2d;
pub mod hasher;
pub mod render;
