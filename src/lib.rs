//! Load-order management for Bethesda game plugins: the ordered plugin list,
//! its structural rules, and the text formats that persist it.

pub mod asterisk_based;
pub mod codec;
pub mod enums;
pub mod game_settings;
pub mod identity;
pub mod invariants;
pub mod laws;
pub mod mutable;
pub mod plugin;
pub mod scan;
pub mod textfile_based;
pub mod timestamp_based;

pub use crate::enums::{Error, GameId, LoadOrderMethod};
