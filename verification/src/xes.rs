//! The two in-memory log representations: the lifecycle form, in which each
//! activity execution appears as a pair of `start`/`complete` transition
//! events, and the interval form, in which each execution is one record with
//! a start and an end stamp.

pub mod interval;
pub mod lifecycle;
