//! A verified cron-style job scheduling core.
//!
//! The library models calendar instants at seconds resolution, parses
//! seven-field cron expressions (second, minute, hour, day of month, month,
//! day of week, year), computes the next fire instant of a schedule, and
//! maintains a registry of recurring jobs that a host process drives with a
//! polling tick. Handlers themselves are the host's business: a tick reports
//! which jobs are due so that the host can dispatch them without the core
//! ever waiting on one.

pub mod datetime;
pub mod expr;
pub mod fire;
pub mod parse;
pub mod sched;
