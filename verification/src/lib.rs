//! Extended schedules and multi-extraction for an equality-saturation engine.

pub mod expr;
pub mod multi_extract;
pub mod name_map;
pub mod schedule;
pub mod schedulers;
pub mod std_text;
