//! Byte-level logic of a file concatenation tool: separator escapes,
//! input cleaning and trimming, command-line interpretation, the order in
//! which inputs and separators are written, and timestamped output names.
use vstd::prelude::*;

pub mod args;
pub mod bytes;
pub mod clean;
pub mod plan;
pub mod reader;
pub mod separator;
pub mod timestamp;

verus! {

} // verus!

