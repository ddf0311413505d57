//! Structural comparison of hierarchical documents.
//!
//! A document is a tree of scalars, sequences and mappings, see
//! [`Value`]. [`enumerate`] lists the path of every node of one document;
//! [`diff`] reports every point at which two documents differ. Both
//! follow the nesting of the documents; [`enumerate_within`] and
//! [`diff_within`] refuse documents that nest deeper than a given limit.
//!
//! Both are specified over the mathematical model of a document,
//! [`value::Tree`]. What holds of every listing and every comparison is
//! proved in [`laws`], [`symmetry`], [`locality`], [`exact`] and
//! [`coverage`].

pub mod coverage;
pub mod diff;
pub mod enumerate;
pub mod exact;
pub mod laws;
pub mod locality;
pub mod locate;
pub mod path;
pub mod symmetry;
pub mod value;

pub use crate::diff::{diff, diff_within, DiffKind, DiffOp};
pub use crate::enumerate::{enumerate, enumerate_within, path_strings, path_strings_within};
pub use crate::path::{Path, Segment};
pub use crate::value::{Entry, Number, Value};
