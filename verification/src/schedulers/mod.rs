//! Schedulers: which matches of a rule are applied, and when.

pub mod back_off;
pub mod history;
pub mod matches;
pub mod round_robin;
pub mod tags;
