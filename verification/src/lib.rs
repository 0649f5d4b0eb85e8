//! Stele: JSON-first i18n catalogs compiled to typed accessor code.

pub mod text;
pub mod json;
pub mod placeholder;
pub mod error;
pub mod ir;
pub mod plural;
pub mod assoc;
pub mod check;
pub mod model;
pub mod csvio;
pub mod exchange;
pub mod roundtrip;
pub mod import_shape;
pub mod emit;
pub mod config;
pub mod commands;
