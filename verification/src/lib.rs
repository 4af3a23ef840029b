//! Recoloring of Grim Dawn localization text.

pub mod text;
pub mod strmap;
pub mod keywords;
pub mod property;
pub mod colorize;
pub mod db;
pub mod infer;
pub mod color;
pub mod history;
pub mod conflicts;
pub mod loot_refs;
pub mod mi_signal;
pub mod validate;
pub mod tags;
