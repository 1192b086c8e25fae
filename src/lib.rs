//! Conversion of an exported tree of tasks into a flat list of tasks with
//! dependency and parent links.
pub mod asana;
pub mod convert;
pub mod mapping;
pub mod taskwarrior;
pub mod time;
