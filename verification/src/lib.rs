//! Position bookkeeping for notebook documents.
//!
//! A notebook is a set of cells, each with an index and a text. A language
//! backend sees one synthetic document made of all the cells; this crate
//! assembles that document and takes positions from a cell to the synthetic
//! document and back.
//!
//! - [`notebook`]: the notebook itself, with its operations.
//! - [`view`]: what a notebook is, mathematically, and what follows from it.
//! - [`fragment`]: the identifiers by which the editor names a cell.
//! - [`text`]: the lines and characters of a text.
//! - [`layout`]: sums and joined texts over ranges of cell indices.
//! - [`walk`]: lemmas on walking through the cells in order.
//! - [`position`]: positions, ranges, and moving them by lines.
//! - [`error`]: the failures.

pub mod error;
pub mod fragment;
pub mod layout;
pub mod notebook;
pub mod position;
pub mod text;
pub mod view;
pub mod walk;

pub use crate::error::NotebookError;
pub use crate::notebook::Notebook;
pub use crate::position::{Position, Range};
