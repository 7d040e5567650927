//! The model: what recalculation and outside values keep track of in a workbook.
use vstd::prelude::*;

use crate::cell_map::{CellMap, CellSet};
use crate::external::ExternalValue;
use crate::formula::{Node, StaticResult};
use crate::index::{CellOrRange, DependencyIndex};
use crate::key::Key;
use crate::text::{TextMap, TextSet};

verus! {

/// How an array formula was entered.
#[derive(Debug, Clone, Copy, PartialEq, Eq, Structural)]
pub enum ArrayKind {
    /// Spills as far as its result needs.
    Dynamic,
    /// Fills the range it was entered into.
    Cse,
}

/// A cell of the workbook, as far as recalculation looks into it. `f` is the position of
/// the formula among the parsed formulas of the sheet.
#[derive(Debug, Clone, Copy)]
pub enum Cell {
    /// A value entered by hand, or nothing.
    Value,
    Formula { f: i32 },
    /// `r` is the width and height the result takes.
    ArrayFormula { f: i32, kind: ArrayKind, r: (i32, i32) },
    /// A cell another cell's result spills into.
    SpillCell,
}

impl Cell {
    /// The formula of the cell, if it has one.
    pub open spec fn formula(self) -> Option<i32> {
        match self {
            Cell::Formula { f } => Some(f),
            Cell::ArrayFormula { f, .. } => Some(f),
            _ => None,
        }
    }

    /// The formula of the cell, if it has one.
    pub fn get_formula(&self) -> (f: Option<i32>)
        ensures
            f == self.formula(),
    {
        match self {
            Cell::Formula { f } => Some(*f),
            Cell::ArrayFormula { f, .. } => Some(*f),
            _ => None,
        }
    }

    /// Whether the cell is the anchor of a dynamic array, or one it spills into.
    pub open spec fn in_dynamic_array(self) -> bool {
        ||| self is SpillCell
        ||| self is ArrayFormula && self->ArrayFormula_kind == ArrayKind::Dynamic
    }

    /// Whether the cell is the anchor of a dynamic array of more than one cell.
    pub open spec fn spills(self) -> bool {
        self is ArrayFormula && self->ArrayFormula_kind == ArrayKind::Dynamic && self->r != (
            1i32,
            1i32,
        )
    }
}

/// Where evaluation of a formula cell stands.
#[derive(Debug, Clone, Copy, PartialEq, Eq, Structural)]
pub enum CellState {
    Evaluating,
    Evaluated,
}

/// A dynamic array: the cell its formula is in, and the cells it spills into.
#[derive(Debug)]
pub struct Spill {
    pub anchor: Key,
    pub area: Vec<Key>,
}

impl Spill {
    /// Whether a cell is the anchor of the array, or one it spills into.
    pub open spec fn takes(self, k: Key) -> bool {
        self.anchor == k || self.area@.contains(k)
    }
}

pub struct Model {
    /// The cells of the workbook.
    pub sheets: CellMap<Cell>,
    /// Per sheet, the parsed formulas and what they return.
    pub parsed_formulas: Vec<Vec<(Node, StaticResult)>>,
    /// The formula cells that are evaluated or being evaluated.
    pub cells: CellMap<CellState>,
    /// Where hyperlink formulas point.
    pub links: CellMap<String>,
    /// What each formula read during its last evaluation.
    pub support: CellMap<Vec<CellOrRange>>,
    /// The dynamic arrays.
    pub spill_cells: Vec<Spill>,
    /// The cells changed since the last recalculation.
    pub dirty: Vec<Key>,
    /// The cells recalculated every time.
    pub volatile: CellSet,
    pub index: DependencyIndex,
    /// The outside values that have arrived.
    pub externals: TextMap<ExternalValue>,
    /// The outside values to be fetched again, shown until the new ones arrive.
    pub forgotten: TextMap<ExternalValue>,
    /// Per outside key, the cells that read it.
    pub external_users: TextMap<CellSet>,
    /// The outside keys asked for.
    pub external_requests: TextSet,
}

impl Model {
    /// What the formula in `k` read.
    pub open spec fn reads(self, k: Key) -> Seq<CellOrRange> {
        if self.support@.contains_key(k) {
            self.support@[k]@
        } else {
            Seq::empty()
        }
    }

    /// Per outside key, the cells that read it.
    pub open spec fn users(self) -> Map<Seq<char>, Set<Key>> {
        self.external_users@.map_values(|set: CellSet| set@)
    }

    /// The parsed formula at a position of a sheet, and what it returns.
    pub open spec fn parsed(self, sheet: u32, f: i32) -> Option<(Node, StaticResult)> {
        if sheet < self.parsed_formulas.len() && 0 <= f < self.parsed_formulas[sheet as int].len() {
            Some(self.parsed_formulas[sheet as int][f as int])
        } else {
            None
        }
    }

    /// The parsed formula of a cell, and what it returns.
    pub open spec fn parsed_at(self, k: Key) -> Option<(Node, StaticResult)> {
        if self.sheets@.contains_key(k) {
            match self.sheets@[k].formula() {
                Some(f) => self.parsed(k.0, f),
                None => None,
            }
        } else {
            None
        }
    }

    /// A model of an empty workbook, not yet evaluated.
    pub fn new() -> (model: Model)
        ensures
            model.sheets@ == Map::<Key, Cell>::empty(),
            model.parsed_formulas@ == Seq::<Vec<(Node, StaticResult)>>::empty(),
            model.cells@ == Map::<Key, CellState>::empty(),
            model.links@ == Map::<Key, String>::empty(),
            model.support@ == Map::<Key, Vec<CellOrRange>>::empty(),
            model.spill_cells@ == Seq::<Spill>::empty(),
            model.dirty@ == Seq::<Key>::empty(),
            model.volatile@ == Set::<Key>::empty(),
            model.index@ == crate::index::IndexView::empty(),
            model.externals@ == Map::<Seq<char>, ExternalValue>::empty(),
            model.forgotten@ == Map::<Seq<char>, ExternalValue>::empty(),
            model.external_users@ == Map::<Seq<char>, CellSet>::empty(),
            model.external_requests@ == Set::<Seq<char>>::empty(),
    {
        Model {
            sheets: CellMap::new(),
            parsed_formulas: Vec::new(),
            cells: CellMap::new(),
            links: CellMap::new(),
            support: CellMap::new(),
            spill_cells: Vec::new(),
            dirty: Vec::new(),
            volatile: CellSet::new(),
            index: DependencyIndex::default(),
            externals: TextMap::new(),
            forgotten: TextMap::new(),
            external_users: TextMap::new(),
            external_requests: TextSet::new(),
        }
    }

    /// The parsed formula at a position of a sheet, and what it returns.
    pub(crate) fn parsed_formula(&self, sheet: u32, f: i32) -> (formula: Option<&(Node, StaticResult)>)
        ensures
            match formula {
                Some(p) => self.parsed(sheet, f) == Some(*p),
                None => self.parsed(sheet, f) is None,
            },
    {
        let sheet: usize = sheet as usize;
        if sheet < self.parsed_formulas.len() && f >= 0 && (f as usize)
            < self.parsed_formulas[sheet].len() {
            Some(&self.parsed_formulas[sheet][f as usize])
        } else {
            None
        }
    }
}

} // verus!
