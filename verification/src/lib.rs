//! Incremental recalculation of a spreadsheet, and the values it reads from outside.
//!
//! A [`Model`] keeps what recalculation needs to know of a workbook: which cells changed,
//! what each formula read, and an index from cells to the formulas that read them. It also
//! keeps the values that `API` calls read from outside. The host evaluates formulas; the
//! model says which.
pub mod cell_map;
pub mod effects;
pub mod external;
pub mod formula;
pub mod incremental;
pub mod index;
pub mod key;
pub mod laws;
pub mod model;
pub mod reach;
pub mod stale;
pub mod sums;
pub mod text;

pub use crate::cell_map::{CellMap, CellSet};
pub use crate::external::{CalcResult, Error, ExternalValue, EXTERNAL_KEY_SEP};
pub use crate::formula::{is_volatile, Function, Node, StaticResult};
pub use crate::incremental::{RecalcAction, RecalcEvent, RecalcReport};
pub use crate::index::{CellOrRange, DependencyIndex, RangeDep};
pub use crate::key::{CellReferenceIndex, Key};
pub use crate::model::{ArrayKind, Cell, CellState, Model, Spill};
pub use crate::text::{TextMap, TextSet};
