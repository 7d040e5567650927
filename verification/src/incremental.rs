//! Incremental recalculation.
//!
//! A full evaluation visits every cell. Most edits touch one cell, and only the formulas
//! that read it (directly, through a range, or through a defined name) can change. The
//! dependency index is built from `support` — what each formula actually read during its
//! last evaluation — so it follows the real reads, including through names and
//! cross-sheet references. Cells whose formulas call a volatile function (NOW, RAND,
//! INDIRECT, OFFSET…) are recalculated every time, since their reads are not recorded.
//!
//! Anything the index cannot follow falls back to a full evaluation: a structural change
//! (rows, columns, sheets, names, tables) marks the index as stale, and dynamic arrays keep
//! the full two-phase algorithm.
use vstd::prelude::*;

use crate::cell_map::{CellMap, CellSet};
use crate::formula::{is_volatile, StaticResult};
use crate::index::{CellOrRange, DependencyIndex, IndexView};
use crate::key::Key;
use crate::model::{ArrayKind, Cell, Model};

verus! {

/// What an `evaluate_dirty` did, for logs and tests.
#[derive(Debug, Clone, Copy)]
pub struct RecalcReport {
    /// Everything was recalculated.
    pub full: bool,
    /// Why, when `full`.
    pub reason: &'static str,
    /// Cells recalculated (or, when full, formula cells in the workbook).
    pub cells: usize,
    /// Cells recalculated on every pass because their formula is volatile.
    pub volatile: usize,
    pub millis: u128,
    /// Conditional formatting, evaluated after an incremental pass.
    pub millis_cf: u128,
}

/// What happened last in a recalculation.
#[derive(Debug)]
pub enum RecalcEvent {
    /// A recalculation is asked for.
    Begin,
    /// The cells handed out have been evaluated.
    CellsEvaluated { visited: Vec<Key> },
    /// Conditional formatting has been evaluated, after so many cells.
    Formatted { cells: usize, millis: u128, millis_cf: u128 },
    /// Everything has been evaluated, for the reason given, conditional formatting included,
    /// and the index built again.
    AllEvaluated { reason: &'static str, millis: u128 },
}

/// What a recalculation does next.
#[derive(Debug)]
pub enum RecalcAction {
    /// Evaluate the whole workbook, conditional formatting included, and build the index
    /// again.
    EvaluateAll { reason: &'static str },
    /// Clear the variables and lambdas of earlier formulas, and evaluate these cells.
    EvaluateCells { visited: Vec<Key> },
    /// Evaluate conditional formatting.
    EvaluateConditionalFormatting { cells: usize },
    /// The recalculation is over.
    Done { report: RecalcReport },
}

/// How a recalculation begins.
enum Plan {
    /// The index cannot be trusted.
    NotReady,
    /// A changed cell has a formula that may spill.
    MaySpill,
    /// A cell to visit is part of a dynamic array.
    DynamicArray { visited: Vec<Key> },
    /// Only some cells have to be evaluated.
    Cells { visited: Vec<Key> },
}

/// Two lists together hold the members of both.
proof fn lemma_concat_set(a: Seq<Key>, b: Seq<Key>)
    ensures
        (a + b).to_set() == a.to_set().union(b.to_set()),
{
    let all = a + b;
    assert forall|k: Key| a.contains(k) || b.contains(k) implies all.contains(k) by {
        if a.contains(k) {
            let i = a.index_of(k);
            assert(all[i] == k);
        } else {
            let i = b.index_of(k);
            assert(all[a.len() + i] == k);
        }
    }
    assert(all.to_set() =~= a.to_set().union(b.to_set()));
}

impl Model {
    /// The cells a recalculation starts from.
    pub open spec fn roots(self) -> Set<Key> {
        self.dirty@.to_set().union(self.volatile@)
    }

    /// The cells an incremental recalculation visits.
    pub open spec fn touched(self) -> Set<Key> {
        self.index@.reached(self.roots())
    }

    /// Whether the cell has a formula that may take more than one cell.
    pub open spec fn may_spill(self, k: Key) -> bool {
        match self.parsed_at(k) {
            Some((_, result)) => result != StaticResult::Scalar,
            None => false,
        }
    }

    /// Whether the cell is part of a dynamic array, or was when the index was built.
    pub open spec fn in_dynamic_array(self, k: Key) -> bool {
        ||| self.index.spill_areas@.contains(k)
        ||| self.sheets@.contains_key(k) && self.sheets@[k].in_dynamic_array()
    }

    /// Whether the cell is a dynamic array of more than one cell.
    pub open spec fn spills(self, k: Key) -> bool {
        self.sheets@.contains_key(k) && self.sheets@[k].spills()
    }

    /// Whether the counters of the index have room for some cells to be forgotten.
    pub open spec fn can_forget(self, gone: Set<Key>) -> bool {
        &&& forall|k: Key| #[trigger] gone.contains(k) ==> self.index@.generation(k) < u32::MAX
        &&& self.index.stale + crate::sums::sum_over(
            |k: Key| crate::index::range_count(self.reads(k)),
            gone,
        ) <= usize::MAX
    }

    /// Whether `after` is this model with what some cells were and read forgotten.
    pub open spec fn forgets(self, after: Model, gone: Set<Key>) -> bool {
        &&& after == Model {
            cells: after.cells,
            links: after.links,
            support: after.support,
            external_users: after.external_users,
            index: after.index,
            ..self
        }
        &&& after.cells@ == self.cells@.remove_keys(gone)
        &&& after.links@ == self.links@.remove_keys(gone)
        &&& after.support@ == self.support@.remove_keys(gone)
        &&& after.users() == self.users().map_values(|users: Set<Key>| users.difference(gone))
        &&& after.index@ == self.index@.without(gone, |k: Key| self.reads(k))
    }

    /// Whether a changed cell has a formula that may take more than one cell.
    pub open spec fn dirty_may_spill(self) -> bool {
        exists|i: int| 0 <= i < self.dirty.len() && self.may_spill(#[trigger] self.dirty[i])
    }

    /// Whether a cell to visit is part of a dynamic array.
    pub open spec fn touches_dynamic_array(self) -> bool {
        exists|k: Key| #[trigger] self.touched().contains(k) && self.in_dynamic_array(k)
    }

    /// Whether a recalculation can be incremental.
    pub open spec fn goes_incremental(self) -> bool {
        self.index.ready && !self.dirty_may_spill() && !self.touches_dynamic_array()
    }

    /// How a recalculation begins: with a full evaluation where the index cannot be
    /// trusted or dynamic arrays are involved; else by forgetting the changed cells, the
    /// volatile ones and all that depends on them, and evaluating these.
    pub open spec fn begins(self, after: Model, action: RecalcAction) -> bool {
        if !self.index.ready {
            &&& after == self
            &&& action matches RecalcAction::EvaluateAll { reason }
            &&& reason@ == "index not ready"@
        } else if self.dirty_may_spill() {
            &&& after == Model { dirty: after.dirty, ..self }
            &&& after.dirty@ == Seq::<Key>::empty()
            &&& action matches RecalcAction::EvaluateAll { reason }
            &&& reason@ == "a formula that may spill"@
        } else if self.touches_dynamic_array() {
            &&& after == Model { dirty: after.dirty, ..self }
            &&& after.dirty@.no_duplicates()
            &&& after.dirty@.to_set() == self.touched()
            &&& action matches RecalcAction::EvaluateAll { reason }
            &&& reason@ == "touches a dynamic array"@
        } else {
            &&& action matches RecalcAction::EvaluateCells { visited }
            &&& visited@.no_duplicates()
            &&& visited@.to_set() == self.touched()
            &&& after.dirty@ == Seq::<Key>::empty()
            &&& (Model { dirty: after.dirty, ..self }).forgets(after, self.touched())
        }
    }

    /// How a recalculation goes on once the visited cells are evaluated: with a full
    /// evaluation where one of them spills now; else with what they read now in the index,
    /// and those among them whose formulas are volatile now in the volatile cells.
    pub open spec fn goes_on(self, visited: Seq<Key>, after: Model, action: RecalcAction) -> bool {
        if exists|i: int| 0 <= i < visited.len() && self.spills(#[trigger] visited[i]) {
            &&& after == self
            &&& action matches RecalcAction::EvaluateAll { reason }
            &&& reason@ == "a formula started to spill"@
        } else {
            let indexed = self.index@.with_all(visited, |k: Key| self.reads(k));
            &&& after == Model { index: after.index, volatile: after.volatile, ..self }
            &&& after.volatile@ == self.volatile@.difference(visited.to_set()).union(
                self.volatile_cells().intersect(visited.to_set()),
            )
            &&& after.index@ == if indexed.compaction_due() {
                indexed.compacted()
            } else {
                indexed
            }
            &&& action matches RecalcAction::EvaluateConditionalFormatting { cells }
            &&& cells == visited.len()
        }
    }

    /// One step of a recalculation.
    pub open spec fn steps(self, event: RecalcEvent, after: Model, action: RecalcAction) -> bool {
        match event {
            RecalcEvent::Begin => self.begins(after, action),
            RecalcEvent::CellsEvaluated { visited } => self.goes_on(visited@, after, action),
            RecalcEvent::Formatted { cells, millis, millis_cf } => {
                &&& after == self
                &&& action matches RecalcAction::Done { report }
                &&& !report.full
                &&& report.reason@ == ""@
                &&& report.cells == cells
                &&& report.volatile == self.volatile@.len()
                &&& report.millis == millis
                &&& report.millis_cf == millis_cf
            },
            RecalcEvent::AllEvaluated { reason, millis } => {
                &&& after == self
                &&& action matches RecalcAction::Done { report }
                &&& report.full
                &&& report.reason@ == reason@
                &&& report.cells == self.cells@.len()
                &&& report.volatile == self.volatile@.len()
                &&& report.millis == millis
                &&& report.millis_cf == 0
            },
        }
    }

    /// Whether the counters of the index have room for a step of a recalculation.
    pub open spec fn has_room(self, event: RecalcEvent) -> bool {
        event is Begin && self.goes_incremental() ==> self.can_forget(self.touched())
    }

    /// The cells whose formulas call a volatile function.
    pub open spec fn volatile_cells(self) -> Set<Key> {
        Set::new(
            |k: Key|
                match self.parsed_at(k) {
                    Some((node, _)) => crate::formula::calls_volatile(node),
                    None => false,
                },
        )
    }

    /// The anchors of the first so many dynamic arrays, and the cells they spill into.
    pub open spec fn spill_area(self, n: int) -> Set<Key> {
        Set::new(
            |k: Key|
                exists|i: int|
                    0 <= i < n && (#[trigger] self.spill_cells[i]).takes(k),
        )
    }

    /// The index of what every formula read, taken in the order of a list.
    pub open spec fn index_in_order(self, ks: Seq<Key>) -> IndexView {
        IndexView {
            spill_areas: self.spill_area(self.spill_cells.len() as int),
            ready: true,
            ..IndexView::empty().with_all(ks, |k: Key| self.reads(k))
        }
    }

    /// Whether an index is that of what every formula read, taken in some order.
    pub open spec fn indexes_support(self, index: IndexView) -> bool {
        exists|ks: Seq<Key>|
            ks.no_duplicates() && ks.to_set() == self.support@.dom() && index
                == #[trigger] self.index_in_order(ks)
    }

    /// Tells the model a cell's content changed by hand or by an operation; the next
    /// `evaluate_dirty` recalculates what depends on it.
    pub fn mark_dirty(&mut self, sheet: u32, row: i32, column: i32)
        ensures
            *final(self) == (Model { dirty: final(self).dirty, ..*old(self) }),
            final(self).dirty@ == old(self).dirty@.push((sheet, row, column)),
    {
        self.dirty.push((sheet, row, column));
    }

    /// Tells the model something structural changed (rows, columns, sheets, names, tables):
    /// the next `evaluate_dirty` is a full evaluation.
    pub fn needs_full_evaluation(&mut self)
        ensures
            *final(self) == (Model {
                index: DependencyIndex { ready: false, ..old(self).index },
                ..*old(self)
            }),
    {
        self.index.ready = false;
    }

    /// Indexes what the formula in `k` read.
    pub fn index_cell(&mut self, k: Key)
        ensures
            *final(self) == (Model { index: final(self).index, ..*old(self) }),
            final(self).index@ == old(self).index@.with_reads(k, old(self).reads(k)),
    {
        match self.support.get(k) {
            Some(reads) => {
                self.index.add_reads(k, reads);
            },
            None => {
                proof {
                    self.index@.lemma_with_no_reads(k);
                }
            },
        }
    }

    /// Drops the stale range entries of the index once they dominate.
    pub fn compact_ranges(&mut self)
        ensures
            *final(self) == (Model { index: final(self).index, ..*old(self) }),
            final(self).index@ == if old(self).index@.compaction_due() {
                old(self).index@.compacted()
            } else {
                old(self).index@
            },
    {
        self.index.compact();
    }

    /// Forgets what a cell was and what it read.
    fn forget_cell(&mut self, k: Key)
        requires
            old(self).index@.generation(k) < u32::MAX,
            old(self).index.stale + crate::index::range_count(old(self).reads(k)) <= usize::MAX,
        ensures
            old(self).forgets(*final(self), set![k]),
    {
        let ghost before = *self;
        self.cells.remove(k);
        self.links.remove(k);
        self.forget_external_user(k);
        let reads: Vec<CellOrRange> = match self.support.remove(k) {
            Some(reads) => reads,
            None => Vec::new(),
        };
        assert(reads@ =~= before.reads(k));
        self.index.drop_reads(k, &reads);
        proof {
            assert(self.cells@ =~= before.cells@.remove_keys(set![k]));
            assert(self.links@ =~= before.links@.remove_keys(set![k]));
            assert(self.support@ =~= before.support@.remove_keys(set![k]));
            assert forall|key: Seq<char>| #[trigger]
                before.users().contains_key(key) implies self.users()[key]
                =~= before.users()[key].difference(set![k]) by {}
            assert(self.users() =~= before.users().map_values(
                |users: Set<Key>| users.difference(set![k]),
            ));
            let was = before.index@;
            was.lemma_without_none(|d: Key| before.reads(d));
            was.lemma_without_one_more(
                Set::empty(),
                k,
                |d: Key| before.reads(d),
                |d: Key| reads@,
            );
            assert(Set::<Key>::empty().insert(k) =~= set![k]);
        }
    }

    /// Forgetting nothing changes nothing.
    proof fn lemma_forgets_none(self)
        ensures
            self.forgets(self, Set::empty()),
    {
        let none = Set::<Key>::empty();
        self.index@.lemma_without_none(|k: Key| self.reads(k));
        assert(self.cells@ =~= self.cells@.remove_keys(none));
        assert(self.links@ =~= self.links@.remove_keys(none));
        assert(self.support@ =~= self.support@.remove_keys(none));
        let goal = self.users().map_values(|users: Set<Key>| users.difference(none));
        assert forall|key: Seq<char>| #[trigger] self.users().contains_key(key) implies self.users()[key]
            =~= goal[key] by {}
        assert(self.users() =~= goal);
    }

    /// Cells can be forgotten one after the other.
    proof fn lemma_forgets_one_more(self, now: Model, next: Model, gone: Set<Key>, k: Key)
        requires
            self.forgets(now, gone),
            now.forgets(next, set![k]),
            !gone.contains(k),
        ensures
            self.forgets(next, gone.insert(k)),
    {
        let more = gone.insert(k);
        assert(next.cells@ =~= self.cells@.remove_keys(more));
        assert(next.links@ =~= self.links@.remove_keys(more));
        assert(next.support@ =~= self.support@.remove_keys(more));
        let goal = self.users().map_values(|users: Set<Key>| users.difference(more));
        assert(now.users().dom() =~= self.users().dom());
        assert(next.users().dom() =~= now.users().dom());
        assert(goal.dom() =~= self.users().dom());
        assert forall|key: Seq<char>| #[trigger] goal.contains_key(key) implies next.users()[key]
            =~= goal[key] by {
            assert(now.users().contains_key(key));
            assert(next.users().contains_key(key));
            assert(now.users()[key] == self.users()[key].difference(gone));
            assert(next.users()[key] == now.users()[key].difference(set![k]));
        }
        assert(next.users() =~= goal);
        assert(now.reads(k) =~= self.reads(k));
        self.index@.lemma_without_one_more(
            gone,
            k,
            |d: Key| self.reads(d),
            |d: Key| now.reads(d),
        );
    }

    /// Forgets what the cells of a list were and what they read.
    fn forget_cells(&mut self, visited: &Vec<Key>)
        requires
            visited@.no_duplicates(),
            old(self).can_forget(visited@.to_set()),
        ensures
            old(self).forgets(*final(self), visited@.to_set()),
    {
        let ghost before = *self;
        proof {
            before.lemma_forgets_none();
            assert(visited@.take(0).to_set() =~= Set::empty());
        }
        for i in 0..visited.len()
            invariant
                visited@.no_duplicates(),
                before.can_forget(visited@.to_set()),
                before.forgets(*self, visited@.take(i as int).to_set()),
        {
            let k: Key = visited[i];
            let ghost now = *self;
            let ghost gone = visited@.take(i as int).to_set();
            proof {
                assert(visited@.take(i + 1) =~= visited@.take(i as int).push(k));
                visited@.take(i as int).lemma_push_to_set_commute(k);
                assert(!visited@.take(i as int).contains(k));
                assert(visited@.to_set().contains(visited@[i as int]));
                let f = |d: Key| crate::index::range_count(before.reads(d));
                crate::key::lemma_keys_finite(gone);
                crate::key::lemma_keys_finite(visited@.to_set());
                crate::sums::lemma_sum_insert(f, gone, k);
                assert(gone.insert(k).subset_of(visited@.to_set())) by {
                    assert forall|d: Key| gone.contains(d) implies visited@.to_set().contains(d) by {
                        let j = visited@.take(i as int).index_of(d);
                        assert(visited@[j] == d);
                    }
                }
                crate::sums::lemma_sum_subset(f, gone.insert(k), visited@.to_set());
                assert(now.reads(k) =~= before.reads(k));
                let was = |d: Key| before.reads(d);
                assert((|d: Key| crate::index::range_count(was(d))) =~= f);
            }
            self.forget_cell(k);
            proof {
                before.lemma_forgets_one_more(now, *self, gone, k);
            }
        }
        assert(visited@.take(visited@.len() as int) =~= visited@);
    }

    /// Whether one of the cells has a formula that may take more than one cell.
    fn any_may_spill(&self, seeds: &Vec<Key>) -> (found: bool)
        ensures
            found == exists|i: int| 0 <= i < seeds.len() && self.may_spill(#[trigger] seeds[i]),
    {
        for i in 0..seeds.len()
            invariant
                forall|j: int| 0 <= j < i ==> !self.may_spill(#[trigger] seeds[j]),
        {
            let k: Key = seeds[i];
            if let Some(cell) = self.sheets.get(k) {
                if let Some(f) = cell.get_formula() {
                    if let Some(parsed) = self.parsed_formula(k.0, f) {
                        if !matches!(parsed.1, StaticResult::Scalar) {
                            return true;
                        }
                    }
                }
            }
        }
        false
    }

    /// Whether one of the cells is part of a dynamic array.
    fn any_in_dynamic_array(&self, visited: &Vec<Key>) -> (found: bool)
        ensures
            found == exists|i: int|
                0 <= i < visited.len() && self.in_dynamic_array(#[trigger] visited[i]),
    {
        for i in 0..visited.len()
            invariant
                forall|j: int| 0 <= j < i ==> !self.in_dynamic_array(#[trigger] visited[j]),
        {
            let k: Key = visited[i];
            if self.index.spill_areas.contains(k) {
                return true;
            }
            match self.sheets.get(k) {
                Some(Cell::ArrayFormula { kind: ArrayKind::Dynamic, .. }) | Some(
                    Cell::SpillCell,
                ) => {
                    return true;
                },
                _ => {},
            }
        }
        false
    }

    /// Whether one of the cells is a dynamic array of more than one cell.
    fn any_spills(&self, visited: &Vec<Key>) -> (found: bool)
        ensures
            found == exists|i: int| 0 <= i < visited.len() && self.spills(#[trigger] visited[i]),
    {
        for i in 0..visited.len()
            invariant
                forall|j: int| 0 <= j < i ==> !self.spills(#[trigger] visited[j]),
        {
            match self.sheets.get(visited[i]) {
                Some(Cell::ArrayFormula { kind: ArrayKind::Dynamic, r, .. }) => {
                    if r.0 != 1 || r.1 != 1 {
                        return true;
                    }
                },
                _ => {},
            }
        }
        false
    }

    /// Finds out how a recalculation begins.
    fn plan(&self) -> (plan: Plan)
        ensures
            self.plans(plan),
    {
        if !self.index.ready {
            return Plan::NotReady;
        }
        // A new formula that may spill needs the two-phase evaluation.
        if self.any_may_spill(&self.dirty) {
            return Plan::MaySpill;
        }
        // Everything the seeds reach, plus the volatile cells.
        let mut queue: Vec<Key> = Vec::new();
        for i in 0..self.dirty.len()
            invariant
                queue@ == self.dirty@.take(i as int),
        {
            queue.push(self.dirty[i]);
            assert(queue@ =~= self.dirty@.take(i + 1));
        }
        assert(queue@ =~= self.dirty@);
        let mut volatile: Vec<Key> = self.volatile.to_vec();
        proof {
            lemma_concat_set(queue@, volatile@);
        }
        queue.append(&mut volatile);
        let visited: Vec<Key> = self.index.reach(queue);
        // Dynamic arrays keep the full two-phase evaluation: an anchor, a spilled cell, or a
        // cell inside a spill area among the touched ones.
        if self.any_in_dynamic_array(&visited) {
            proof {
                let i = choose|i: int|
                    0 <= i < visited.len() && self.in_dynamic_array(#[trigger] visited[i]);
                assert(visited@.to_set().contains(visited[i]));
                assert(self.touched().contains(visited[i]) && self.in_dynamic_array(visited[i]));
            }
            Plan::DynamicArray { visited }
        } else {
            assert(!self.touches_dynamic_array()) by {
                if self.touches_dynamic_array() {
                    let k = choose|k: Key| #[trigger]
                        self.touched().contains(k) && self.in_dynamic_array(k);
                    assert(visited@.to_set().contains(k));
                    let i = visited@.index_of(k);
                    assert(self.in_dynamic_array(visited[i]));
                }
            }
            Plan::Cells { visited }
        }
    }

    /// Whether a plan is how a recalculation begins.
    spec fn plans(self, plan: Plan) -> bool {
        match plan {
            Plan::NotReady => !self.index.ready,
            Plan::MaySpill => self.index.ready && self.dirty_may_spill(),
            Plan::DynamicArray { visited } => {
                &&& self.index.ready && !self.dirty_may_spill() && self.touches_dynamic_array()
                &&& visited@.no_duplicates()
                &&& visited@.to_set() == self.touched()
            },
            Plan::Cells { visited } => {
                &&& self.goes_incremental()
                &&& visited@.no_duplicates()
                &&& visited@.to_set() == self.touched()
            },
        }
    }

    /// The first step of a recalculation.
    fn carry_out(&mut self, plan: Plan) -> (action: RecalcAction)
        requires
            old(self).plans(plan),
            old(self).has_room(RecalcEvent::Begin),
        ensures
            old(self).begins(*final(self), action),
    {
        let ghost before = *self;
        match plan {
            Plan::NotReady => RecalcAction::EvaluateAll { reason: "index not ready" },
            Plan::MaySpill => {
                self.dirty.clear();
                RecalcAction::EvaluateAll { reason: "a formula that may spill" }
            },
            Plan::DynamicArray { visited } => {
                self.dirty = visited;
                RecalcAction::EvaluateAll { reason: "touches a dynamic array" }
            },
            Plan::Cells { visited } => {
                self.dirty.clear();
                assert((|k: Key| crate::index::range_count(before.reads(k))) =~= (|k: Key|
                    crate::index::range_count(self.reads(k))));
                self.forget_cells(&visited);
                RecalcAction::EvaluateCells { visited }
            },
        }
    }

    /// Whether the counters of the index have room for some cells to be forgotten.
    fn room_for(&self, visited: &Vec<Key>) -> (room: bool)
        requires
            visited@.no_duplicates(),
        ensures
            room == self.can_forget(visited@.to_set()),
    {
        let ghost gone = visited@.to_set();
        let ghost f = |k: Key| crate::index::range_count(self.reads(k));
        let mut stale: usize = self.index.stale;
        proof {
            crate::key::lemma_keys_finite(gone);
            assert(visited@.take(0).to_set() =~= Set::empty());
        }
        for i in 0..visited.len()
            invariant
                visited@.no_duplicates(),
                gone == visited@.to_set(),
                gone.finite(),
                f == (|k: Key| crate::index::range_count(self.reads(k))),
                stale == self.index.stale + crate::sums::sum_over(
                    f,
                    visited@.take(i as int).to_set(),
                ),
                forall|j: int|
                    0 <= j < i ==> self.index@.generation(#[trigger] visited@[j]) < u32::MAX,
        {
            let k: Key = visited[i];
            let ghost seen = visited@.take(i as int).to_set();
            proof {
                assert(visited@.take(i + 1) =~= visited@.take(i as int).push(k));
                visited@.take(i as int).lemma_push_to_set_commute(k);
                assert(!visited@.take(i as int).contains(k));
                assert(gone.contains(visited@[i as int]));
                crate::key::lemma_keys_finite(seen);
                crate::sums::lemma_sum_insert(f, seen, k);
                assert(seen.insert(k).subset_of(gone)) by {
                    assert forall|d: Key| seen.contains(d) implies gone.contains(d) by {
                        let j = visited@.take(i as int).index_of(d);
                        assert(visited@[j] == d);
                    }
                }
                crate::sums::lemma_sum_subset(f, seen.insert(k), gone);
            }
            if self.index.generation(k) == u32::MAX {
                return false;
            }
            let ranges: usize = match self.support.get(k) {
                Some(reads) => crate::index::count_ranges(reads),
                None => {
                    assert(self.reads(k).filter(|p: CellOrRange| p is Range).len() == 0) by {
                        reveal(Seq::filter);
                    }
                    0
                },
            };
            match stale.checked_add(ranges) {
                Some(more) => {
                    stale = more;
                },
                None => {
                    return false;
                },
            }
        }
        proof {
            assert(visited@.take(visited@.len() as int) =~= visited@);
            assert forall|k: Key| #[trigger] gone.contains(k) implies self.index@.generation(k)
                < u32::MAX by {
                let j = visited@.index_of(k);
                assert(visited@[j] == k);
            }
        }
        true
    }

    /// The step after the visited cells have been evaluated.
    fn go_on(&mut self, visited: &Vec<Key>) -> (action: RecalcAction)
        ensures
            old(self).goes_on(visited@, *final(self), action),
    {
        // A cell that started to spill just now: its neighbours must be written in order.
        if self.any_spills(visited) {
            return RecalcAction::EvaluateAll { reason: "a formula started to spill" };
        }
        self.index_cells(visited);
        self.compact_ranges();
        assert(self.volatile_cells() =~= old(self).volatile_cells()) by {
            assert forall|k: Key| #[trigger] self.parsed_at(k) == old(self).parsed_at(k) by {}
        }
        self.refresh_volatile(visited);
        RecalcAction::EvaluateConditionalFormatting { cells: visited.len() }
    }

    /// Whether the formula of a cell calls a volatile function.
    fn cell_volatile(&self, k: Key) -> (volatile: bool)
        ensures
            volatile == self.volatile_cells().contains(k),
    {
        if let Some(cell) = self.sheets.get(k) {
            if let Some(f) = cell.get_formula() {
                if let Some(parsed) = self.parsed_formula(k.0, f) {
                    return is_volatile(&parsed.0);
                }
            }
        }
        false
    }

    /// Finds out again which cells of a list are volatile.
    fn refresh_volatile(&mut self, visited: &Vec<Key>)
        ensures
            *final(self) == (Model { volatile: final(self).volatile, ..*old(self) }),
            final(self).volatile@ == old(self).volatile@.difference(visited@.to_set()).union(
                old(self).volatile_cells().intersect(visited@.to_set()),
            ),
    {
        let ghost before = *self;
        assert(visited@.take(0).to_set() =~= Set::empty());
        assert(self.volatile@ =~= before.volatile@.difference(Set::empty()).union(
            before.volatile_cells().intersect(Set::empty()),
        ));
        for i in 0..visited.len()
            invariant
                *self == (Model { volatile: self.volatile, ..before }),
                self.volatile@ == before.volatile@.difference(
                    visited@.take(i as int).to_set(),
                ).union(before.volatile_cells().intersect(visited@.take(i as int).to_set())),
        {
            let k: Key = visited[i];
            proof {
                assert(visited@.take(i + 1) =~= visited@.take(i as int).push(k));
                visited@.take(i as int).lemma_push_to_set_commute(k);
                assert(self.parsed_at(k) == before.parsed_at(k));
            }
            if self.cell_volatile(k) {
                self.volatile.insert(k);
            } else {
                self.volatile.remove(k);
            }
            assert(self.volatile@ =~= before.volatile@.difference(
                visited@.take(i + 1).to_set(),
            ).union(before.volatile_cells().intersect(visited@.take(i + 1).to_set())));
        }
        assert(visited@.take(visited@.len() as int) =~= visited@);
    }

    /// Indexes what the formulas of a list of cells read.
    fn index_cells(&mut self, ks: &Vec<Key>)
        ensures
            *final(self) == (Model { index: final(self).index, ..*old(self) }),
            final(self).index@ == old(self).index@.with_all(ks@, |k: Key| old(self).reads(k)),
    {
        let ghost before = *self;
        let ghost reads = |k: Key| before.reads(k);
        for i in 0..ks.len()
            invariant
                reads == (|k: Key| before.reads(k)),
                *self == (Model { index: self.index, ..before }),
                self.index@ == before.index@.with_all(ks@.take(i as int), reads),
        {
            proof {
                assert(ks@.take(i + 1).drop_last() =~= ks@.take(i as int));
                assert(ks@.take(i + 1).last() == ks@[i as int]);
                assert(self.reads(ks@[i as int]) == before.reads(ks@[i as int]));
            }
            self.index_cell(ks[i]);
        }
        assert(ks@.take(ks@.len() as int) =~= ks@);
    }

    /// One step of recalculating the marked cells and everything that reads them, or
    /// everything when the index cannot be trusted. Conditional formatting is re-evaluated
    /// either way. Beginning with `RecalcEvent::Begin`, the host performs each action and
    /// hands back what happened, until the recalculation is done.
    pub fn evaluate_dirty(&mut self, event: RecalcEvent) -> (action: RecalcAction)
        requires
            old(self).has_room(event),
        ensures
            old(self).steps(event, *final(self), action),
    {
        match event {
            RecalcEvent::Begin => {
                let plan = self.plan();
                self.carry_out(plan)
            },
            RecalcEvent::CellsEvaluated { visited } => self.go_on(&visited),
            RecalcEvent::Formatted { cells, millis, millis_cf } => {
                let volatile: usize = self.volatile.len();
                let report = RecalcReport {
                    full: false,
                    reason: "",
                    cells,
                    volatile,
                    millis,
                    millis_cf,
                };
                RecalcAction::Done { report }
            },
            RecalcEvent::AllEvaluated { reason, millis } => {
                let cells: usize = self.cells.len();
                let volatile: usize = self.volatile.len();
                let report = RecalcReport {
                    full: true,
                    reason,
                    cells,
                    volatile,
                    millis,
                    millis_cf: 0,
                };
                RecalcAction::Done { report }
            },
        }
    }

    /// The same step for a host that does not know whether the counters of the index have
    /// room for it; without room nothing happens.
    pub fn try_evaluate_dirty(&mut self, event: RecalcEvent) -> (action: Option<RecalcAction>)
        ensures
            match action {
                Some(action) => old(self).has_room(event) && old(self).steps(
                    event,
                    *final(self),
                    action,
                ),
                None => !old(self).has_room(event) && *final(self) == *old(self),
            },
    {
        match event {
            RecalcEvent::Begin => {
                let plan = self.plan();
                let room = match &plan {
                    Plan::Cells { visited } => self.room_for(visited),
                    _ => true,
                };
                if room {
                    Some(self.carry_out(plan))
                } else {
                    None
                }
            },
            event => Some(self.evaluate_dirty(event)),
        }
    }

    /// After a full evaluation: the index from every formula's recorded reads, and the
    /// volatile cells.
    pub fn build_dependency_index(&mut self)
        ensures
            *final(self) == (Model {
                index: final(self).index,
                dirty: final(self).dirty,
                volatile: final(self).volatile,
                ..*old(self)
            }),
            final(self).dirty@ == Seq::<Key>::empty(),
            final(self).volatile@ == old(self).volatile_cells(),
            old(self).indexes_support(final(self).index@),
    {
        let ghost before = *self;
        self.index = DependencyIndex::default();
        self.dirty.clear();
        let keys: Vec<Key> = self.support.keys();
        let ghost cleared = *self;
        self.index_cells(&keys);
        let volatile = self.find_volatile();
        self.volatile = volatile;
        let areas = self.find_spill_areas();
        self.index.spill_areas = areas;
        self.index.ready = true;
        proof {
            assert((|k: Key| cleared.reads(k)) =~= (|k: Key| before.reads(k)));
            assert(self.index@ =~= before.index_in_order(keys@));
        }
    }

    /// The cells whose formulas call a volatile function. Cells of a sheet share formulas,
    /// so each formula is looked into once.
    fn find_volatile(&self) -> (volatile: CellSet)
        ensures
            volatile@ == self.volatile_cells(),
    {
        let mut volatile = CellSet::new();
        let mut by_formula: CellMap<bool> = CellMap::new();
        let all: Vec<Key> = self.sheets.keys();
        for i in 0..all.len()
            invariant
                forall|k: Key| #[trigger]
                    volatile@.contains(k) <==> all@.take(i as int).contains(k)
                        && self.volatile_cells().contains(k),
                forall|s: u32, f: i32| #[trigger]
                    by_formula@.contains_key((s, f, 0i32)) ==> by_formula@[(s, f, 0i32)]
                        == self.formula_volatile(s, f),
        {
            let k: Key = all[i];
            proof {
                assert(all@.take(i + 1) =~= all@.take(i as int).push(k));
                assert(all@.take(i + 1)[i as int] == k);
                assert forall|d: Key| all@.take(i + 1).contains(d) <==> d == k || all@.take(
                    i as int,
                ).contains(d) by {
                    if all@.take(i as int).contains(d) {
                        let j = all@.take(i as int).index_of(d);
                        assert(all@.take(i + 1)[j] == d);
                    }
                }
            }
            if let Some(cell) = self.sheets.get(k) {
                if let Some(f) = cell.get_formula() {
                    let known: Option<bool> = match by_formula.get((k.0, f, 0)) {
                        Some(v) => Some(*v),
                        None => None,
                    };
                    let v: bool = match known {
                        Some(v) => v,
                        None => {
                            let v: bool = match self.parsed_formula(k.0, f) {
                                Some(parsed) => is_volatile(&parsed.0),
                                None => false,
                            };
                            by_formula.insert((k.0, f, 0), v);
                            v
                        },
                    };
                    if v {
                        volatile.insert(k);
                    }
                }
            }
        }
        proof {
            assert(all@.take(all@.len() as int) =~= all@);
            assert forall|k: Key| self.volatile_cells().contains(k) implies all@.contains(k) by {
                assert(all@.to_set().contains(k));
            }
            assert(volatile@ =~= self.volatile_cells());
        }
        volatile
    }

    /// Whether a formula of a sheet calls a volatile function.
    spec fn formula_volatile(self, sheet: u32, f: i32) -> bool {
        match self.parsed(sheet, f) {
            Some((node, _)) => crate::formula::calls_volatile(node),
            None => false,
        }
    }

    /// The anchors of dynamic arrays, and the cells they spill into.
    fn find_spill_areas(&self) -> (areas: CellSet)
        ensures
            areas@ == self.spill_area(self.spill_cells.len() as int),
    {
        let mut areas = CellSet::new();
        assert(areas@ =~= self.spill_area(0));
        for i in 0..self.spill_cells.len()
            invariant
                areas@ == self.spill_area(i as int),
        {
            let spill = &self.spill_cells[i];
            for j in 0..spill.area.len()
                invariant
                    forall|k: Key| #[trigger]
                        areas@.contains(k) <==> self.spill_area(i as int).contains(k)
                            || exists|l: int| 0 <= l < j && #[trigger] spill.area@[l] == k,
            {
                areas.insert(spill.area[j]);
            }
            areas.insert(spill.anchor);
            assert(areas@ =~= self.spill_area(i + 1)) by {
                assert forall|k: Key| areas@.contains(k) <==> self.spill_area(i + 1).contains(k) by {
                    if spill.takes(k) {
                        assert(self.spill_cells[i as int].takes(k));
                    }
                }
            }
        }
        areas
    }
}

} // verus!
