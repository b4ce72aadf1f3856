//! A file-index and tree-view engine: a lazily loaded directory tree, a flat
//! index of files with fuzzy ranking, and the refresh policy that keeps both
//! in step with a changing filesystem.

pub mod order;
pub mod text;
pub mod walker;
pub mod tree;
pub mod rank;
pub mod schedule;
pub mod search;
pub mod session;
pub mod layout;
pub mod entries;
