//! Parsing, indexing and coordinate projection for UCSC chain alignment
//! files.
//!
//! - `align`, `chain`: the records of a chain body and the chain header, read
//!   from bytes against a line grammar; `render` writes them back as text.
//! - `blocks`: where each aligned run and gap of a chain lies on both sides.
//! - `interval`, `project`, `coverage`: the sweep that projects sorted batches
//!   of reference intervals onto the query and counts aligned bases.
//! - `map`: chains keyed by id, with filters.
//! - `reader`, `index`: splitting whole files into chains, reading chosen ids,
//!   and the byte-offset index for random access.
//! - `laws`: properties of all of the above, proved.
//! - `text`, `error`: decimal numbers, byte search, and the error kinds.

pub mod text;
pub mod error;
pub mod align;
pub mod chain;
pub mod render;
pub mod blocks;
pub mod interval;
pub mod project;
pub mod coverage;
pub mod map;
pub mod reader;
pub mod index;
pub mod laws;
