//! Streaming sort-merge join of two key-sorted, delimited record streams.
//!
//! The library holds the join itself: the field view over one line, the
//! cursor that keeps a current record and one record of lookahead for each
//! stream, the merge driver that decides which cursor advances, and the
//! projector that renders an output line. Reading lines and writing the
//! rendered output are left to the caller, who feeds each line in and takes
//! the rendered rows back.

pub mod fields;
pub mod order;
pub mod compare;
pub mod config;
pub mod cursor;
pub mod project;
pub mod merge;
pub mod driver;
pub mod join;
pub mod laws;
pub mod parse;
pub mod setup;

pub use crate::config::{
    JoinConfig, JoinError, JoinFileConfig, KeyField, KeyFields, OutputField, OutputOrder, Side,
};
pub use crate::cursor::JoinFile;
pub use crate::driver::{Joiner, Opening};
pub use crate::fields::SplitLine;
pub use crate::join::join;
