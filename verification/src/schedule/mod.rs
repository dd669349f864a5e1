//! Extended schedules: what they mean, and the machine that runs them.

pub mod command;
pub mod laws;
pub mod machine;
pub mod requests;
pub mod runs;
pub mod semantics;
