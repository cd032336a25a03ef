//! A document highlight-compositing and viewport rendering pipeline.
//!
//! For a visible window of a text buffer, the library determines the exact
//! range that must be displayed, merges independent highlight streams
//! (syntax, selection, diagnostics) into one ordered, non-overlapping
//! sequence of style spans, converts that sequence into text runs for a
//! shaper, and produces per-line gutter annotations synchronized to the
//! same viewport.

pub mod buffer;
pub mod compose;
pub mod events;
pub mod gutter;
pub mod render;
pub mod resolve;
pub mod runs;
pub mod sources;
pub mod style;
