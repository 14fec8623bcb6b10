//! Spreadsheet formula engine: formula parsing and reference analysis,
//! evaluation order, placeholder replacement, Excel dates, the shape logic of
//! dynamic arrays, and how array results spill into the sheet.
use vstd::prelude::*;

pub mod ast;
pub mod date;
pub mod deps;
pub mod dynamic_array;
pub mod error;
pub mod parser;
pub mod refs;
pub mod replace;
pub mod schedule;
pub mod spill;
pub mod spill_deps;
pub mod soft_spill;
pub mod prune;
pub mod text;

pub use error::SpreadsheetError;
pub use replace::ReplacementValue;
pub use schedule::ParallelThresholds;

verus! {

} // verus!
