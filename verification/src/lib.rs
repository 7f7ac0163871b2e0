//! Incremental translation of nested key/value documents.
//!
//! A run takes a source document and the target document of an earlier run,
//! if there is one. `collect` finds the texts of the source and what the
//! target already holds for them; `driver` decides which phrases go out for
//! translation, in which batches and how many at a time, and stores the
//! replies; `rebuild` brings the target into the shape of the source, keeping
//! what it holds and filling what is missing. `laws` holds what is proved of
//! every run.

pub mod assoc;
pub mod batch;
pub mod collect;
pub mod document;
pub mod driver;
pub mod laws;
pub mod phrases;
pub mod rebuild;
pub mod walker;
