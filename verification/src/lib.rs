//! Core of an interactive side-by-side change viewer.
//!
//! The library holds the verified logic: the row alignment engine that turns
//! a pair of line sequences into a synchronized two-pane display model, the
//! hierarchy builder that orders changed paths into a directory tree, the
//! parser of the version-control status records, the view-state machine that
//! owns selection, scrolling and refresh reconciliation, and the coherency
//! rule of the single-slot highlight cache. Reading file content, decoding
//! keys and drawing the terminal stay outside.

pub mod app;
pub mod cache;
pub mod diff;
pub mod model;
pub mod status;
pub mod tree;
