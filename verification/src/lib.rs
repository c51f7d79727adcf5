//! The SaveScummer catalog: the bundle model and its validator, wildcard
//! matching, the broad-folder rule, placeholder translation and the
//! resolver that picks a game's save directory, plus the catalog builder's
//! translation of manifest entries into bundle entries.

pub mod text;
pub mod glob;
pub mod broad;
pub mod model;
pub mod paths;
pub mod placeholders;
pub mod resolve;
pub mod manifest;
pub mod translate;
pub mod identity;
pub mod games;
pub mod report;
pub mod inputs;
pub mod builder;
pub mod host;
pub mod catalog_store;
pub mod scan_queue;
pub mod cli;
