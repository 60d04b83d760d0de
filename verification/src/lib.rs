//! Verified core of a reader for osu!tourney client memory.

pub mod bytes;
pub mod error;
pub mod finder;
pub mod mods;
pub mod pattern;
pub mod processes;
pub mod reader;
pub mod supervisor;
pub mod text;
pub mod tourney;
