//! Core of the Wolcen mod editor: reading the game's XML data into an
//! editable model, rewriting files for an exported mod, and reconstructing
//! edits from an existing mod.

pub mod text;
pub mod xml;
pub mod localization;
pub mod order;
pub mod skills;
pub mod export;
pub mod import;
pub mod passives;
pub mod player;
pub mod paths;
pub mod setup;
pub mod decode;
pub mod roundtrip;
