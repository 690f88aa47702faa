//! Log ingestion, retention and folded-view derivation for a live log viewer.

pub mod record;
pub mod classify;
pub mod ring;
pub mod filter;
pub mod view;
pub mod render;
pub mod window;
