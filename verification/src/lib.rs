//! Converter between two representations of process-mining event logs:
//! a lifecycle log, where each activity execution appears as a pair of
//! `start`/`complete` transition events stored in XML, and an interval log,
//! where each execution is a single record with a start and an end stamp
//! stored as header-driven tabular text.

pub mod cli;
pub mod conversion;
pub mod io;
pub mod stamp;
pub mod xes;
