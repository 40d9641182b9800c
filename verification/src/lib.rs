//! Pre-renders the diagram blocks of a hierarchical document.
//!
//! The library holds the pure part of the pipeline: it fingerprints diagram
//! sources, finds the fenced diagram blocks of every document unit, decides
//! per block between cache hit and render, turns each outcome into a pending
//! edit, selects the stale cache entries, and rewrites the units' texts.
//! Whatever touches the file system or runs the renderer is left to the
//! caller, which feeds the results back in as plain values.
//!
//! A run goes through the modules in this order:
//!
//! - `config` resolves the settings;
//! - `pattern` finds the diagram fences in a text;
//! - `request` walks the document and makes one request per block, with the
//!   help of `fingerprint`;
//! - `collect` resolves a request step by step into one pending edit;
//! - `gc` selects the cache entries that no edit refers to;
//! - `apply` rewrites the texts of the units with the edits;
//! - `runtime` is the other mode, which replaces blocks by markup for the
//!   browser and renders nothing.
//!
//! `document` holds the tree, `text` the byte ranges of UTF-8 text, `model`
//! the views of lists and the places of units, and `pipeline` what holds of
//! a run as a whole.

pub mod apply;
pub mod collect;
pub mod config;
pub mod document;
pub mod fingerprint;
pub mod gc;
pub mod model;
pub mod pattern;
pub mod pipeline;
pub mod request;
pub mod runtime;
pub mod text;

pub use crate::collect::PendingEdit;
pub use crate::config::DiagramsPreprocessor;
pub use crate::document::DocumentUnit;
pub use crate::pattern::FencePattern;
pub use crate::request::RenderRequest;
