//! What holds of recalculation and of outside values as a whole.
use vstd::prelude::*;

use crate::index::{CellOrRange, DependencyIndex, IndexView, RangeDep};
use crate::external::{CalcResult, Error, ExternalValue, EXTERNAL_KEY_SEP};
use crate::incremental::{RecalcAction, RecalcEvent};
use crate::key::{CellReferenceIndex, Key};
use crate::model::Model;

verus! {

/// Whether a read takes in a cell.
pub open spec fn read_covers(p: CellOrRange, k: Key) -> bool {
    match p {
        CellOrRange::Cell(c) => c == k,
        CellOrRange::Range((s, r1, c1, r2, c2)) => s == k.0 && r1 <= k.1 <= r2 && c1 <= k.2 <= c2,
    }
}

/// Whether one of the reads of a formula takes in a cell.
pub open spec fn reads_cell(reads: Seq<CellOrRange>, k: Key) -> bool {
    exists|i: int| 0 <= i < reads.len() && read_covers(#[trigger] reads[i], k)
}

/// The read that a range entry of a sheet stands for.
pub open spec fn read_of(s: u32, rd: RangeDep) -> CellOrRange {
    CellOrRange::Range((s, rd.r1, rd.c1, rd.r2, rd.c2))
}

/// The entries made for the reads of a formula are those of its ranges.
pub(crate) proof fn lemma_deps_members(reads: Seq<CellOrRange>, s: u32, k: Key, gen: u32)
    ensures
        forall|i: int|
            0 <= i < crate::index::deps_on(reads, s, k, gen).len() ==> {
                let rd = #[trigger] crate::index::deps_on(reads, s, k, gen)[i];
                reads.contains(read_of(s, rd)) && rd.dependent == k && rd.gen == gen
            },
        forall|p: CellOrRange| #[trigger]
            reads.contains(p) && crate::index::range_on(p, s) ==> crate::index::deps_on(
                reads,
                s,
                k,
                gen,
            ).contains(crate::index::dep_of(p, k, gen)),
{
    let deps = crate::index::deps_on(reads, s, k, gen);
    let on = |p: CellOrRange| crate::index::range_on(p, s);
    let ranges = reads.filter(on);
    assert forall|i: int| 0 <= i < deps.len() implies {
        let rd = #[trigger] deps[i];
        reads.contains(read_of(s, rd)) && rd.dependent == k && rd.gen == gen
    } by {
        let p = ranges[i];
        assert(ranges.contains(p));
        reads.lemma_filter_contains_rev(on, p);
        reads.lemma_filter_pred(on, i);
        assert(read_of(s, deps[i]) == p);
    }
    assert forall|p: CellOrRange| #[trigger]
        reads.contains(p) && crate::index::range_on(p, s) implies deps.contains(
        crate::index::dep_of(p, k, gen),
    ) by {
        let j = reads.index_of(p);
        reads.lemma_filter_contains(on, j);
        let i = ranges.index_of(p);
        assert(deps[i] == crate::index::dep_of(p, k, gen));
    }
}

impl IndexView {
    /// Whether a range read by `d` has an entry that is not stale.
    pub open spec fn holds_range(self, d: Key, p: CellOrRange) -> bool {
        self.ranges_on(p->Range_0.0).contains(crate::index::dep_of(p, d, self.generation(d)))
    }

    /// Whether the index says of each formula what it reads, and no more: a formula is a
    /// reader of exactly the cells among its reads, each of its ranges has an entry, and
    /// entries that are not stale stand for a range read. No entry is newer than the
    /// generation of its formula.
    pub open spec fn faithful(self, reads: spec_fn(Key) -> Seq<CellOrRange>) -> bool {
        &&& forall|c: Key, d: Key| #[trigger]
            self.readers_of(c).contains(d) <==> reads(d).contains(CellOrRange::Cell(c))
        &&& forall|s: u32, i: int|
            0 <= i < self.ranges_on(s).len() ==> self.entry_true(
                s,
                #[trigger] self.ranges_on(s)[i],
                reads,
            )
        &&& forall|d: Key, p: CellOrRange| #[trigger]
            reads(d).contains(p) && p is Range ==> self.holds_range(d, p)
    }

    /// Whether a range entry is stale or stands for a range read.
    pub open spec fn entry_true(
        self,
        s: u32,
        rd: RangeDep,
        reads: spec_fn(Key) -> Seq<CellOrRange>,
    ) -> bool {
        &&& rd.gen <= self.generation(rd.dependent)
        &&& self.live(rd) ==> reads(rd.dependent).contains(read_of(s, rd))
    }
}

/// The entries of a sheet once more reads are indexed.
pub(crate) proof fn lemma_with_ranges_on(v: IndexView, k: Key, reads: Seq<CellOrRange>, s: u32)
    ensures
        v.with_reads(k, reads).ranges_on(s) == v.ranges_on(s) + crate::index::deps_on(
            reads,
            s,
            k,
            v.generation(k),
        ),
{
    let next = v.with_reads(k, reads);
    let deps = crate::index::deps_on(reads, s, k, v.generation(k));
    crate::index::lemma_no_deps(reads, s, k, v.generation(k));
    if !next.ranges.contains_key(s) {
        assert(deps.len() == 0);
        assert(next.ranges_on(s) =~= v.ranges_on(s) + deps);
    }
}

/// A faithful index follows the real reads: a change of `k` may change `d` exactly when one
/// of the reads of `d` takes `k` in.
pub proof fn law_index_follows_reads(
    v: IndexView,
    reads: spec_fn(Key) -> Seq<CellOrRange>,
    d: Key,
    k: Key,
)
    requires
        v.faithful(reads),
    ensures
        v.depends(d, k) <==> reads_cell(reads(d), k),
{
    let list = v.ranges_on(k.0);
    if v.depends(d, k) {
        if v.readers_of(k).contains(d) {
            let i = reads(d).index_of(CellOrRange::Cell(k));
            assert(read_covers(reads(d)[i], k));
        } else {
            let i = choose|i: int|
                #![trigger v.ranges_on(k.0)[i]]
                0 <= i < v.ranges_on(k.0).len() && v.ranges_on(k.0)[i].covers(k) && v.live(
                    v.ranges_on(k.0)[i],
                ) && v.ranges_on(k.0)[i].dependent == d;
            assert(v.entry_true(k.0, list[i], reads));
            let j = reads(d).index_of(read_of(k.0, list[i]));
            assert(read_covers(reads(d)[j], k));
        }
    }
    if reads_cell(reads(d), k) {
        let j = choose|j: int| 0 <= j < reads(d).len() && read_covers(#[trigger] reads(d)[j], k);
        let p = reads(d)[j];
        assert(reads(d).contains(p));
        match p {
            CellOrRange::Cell(c) => {
                assert(v.readers_of(c).contains(d));
            },
            CellOrRange::Range(_) => {
                assert(v.holds_range(d, p));
                let rd = crate::index::dep_of(p, d, v.generation(d));
                let i = list.index_of(rd);
                assert(v.ranges_on(k.0)[i] == rd);
                assert(rd.covers(k));
            },
        }
    }
}

/// Indexing what a formula reads, when the index holds nothing of it yet, keeps the index
/// faithful.
pub proof fn law_indexing_keeps_faithful(
    v: IndexView,
    reads: spec_fn(Key) -> Seq<CellOrRange>,
    k: Key,
    now: Seq<CellOrRange>,
)
    requires
        v.faithful(reads),
        reads(k) == Seq::<CellOrRange>::empty(),
    ensures
        v.with_reads(k, now).faithful(crate::index::reading(reads, k, now)),
{
    let next = v.with_reads(k, now);
    let reads2 = crate::index::reading(reads, k, now);
    assert forall|d: Key| #[trigger] next.generation(d) == v.generation(d) by {}
    assert forall|c: Key, d: Key| #[trigger]
        next.readers_of(c).contains(d) <==> reads2(d).contains(CellOrRange::Cell(c)) by {
        assert(v.readers_of(c).contains(d) <==> reads(d).contains(CellOrRange::Cell(c)));
    }
    assert forall|s: u32, i: int| 0 <= i < next.ranges_on(s).len() implies next.entry_true(
        s,
        #[trigger] next.ranges_on(s)[i],
        reads2,
    ) by {
        lemma_with_ranges_on(v, k, now, s);
        lemma_deps_members(now, s, k, v.generation(k));
        let n = v.ranges_on(s).len();
        if i < n {
            let rd = v.ranges_on(s)[i];
            assert(next.ranges_on(s)[i] == rd);
            assert(v.entry_true(s, rd, reads));
        } else {
            let deps = crate::index::deps_on(now, s, k, v.generation(k));
            assert(next.ranges_on(s)[i] == deps[i - n]);
        }
    }
    assert forall|d: Key, p: CellOrRange| #[trigger]
        reads2(d).contains(p) && p is Range implies next.holds_range(d, p) by {
        let s = p->Range_0.0;
        let rd = crate::index::dep_of(p, d, next.generation(d));
        lemma_with_ranges_on(v, k, now, s);
        let n = v.ranges_on(s).len();
        if d == k {
            lemma_deps_members(now, s, k, v.generation(k));
            let deps = crate::index::deps_on(now, s, k, v.generation(k));
            assert(crate::index::range_on(p, s));
            assert(deps.contains(rd));
            let j = deps.index_of(rd);
            assert(next.ranges_on(s)[n + j] == rd);
        } else {
            assert(reads(d).contains(p));
            assert(v.holds_range(d, p));
            let j = v.ranges_on(s).index_of(rd);
            assert(next.ranges_on(s)[j] == rd);
        }
    }
}

/// Forgetting what some cells read leaves an index that is faithful to what the other
/// cells read.
pub proof fn law_forgetting_keeps_faithful(
    v: IndexView,
    reads: spec_fn(Key) -> Seq<CellOrRange>,
    gone: Set<Key>,
)
    requires
        v.faithful(reads),
        forall|k: Key| #[trigger] gone.contains(k) ==> v.generation(k) < u32::MAX,
    ensures
        v.without(gone, reads).faithful(
            |d: Key|
                if gone.contains(d) {
                    Seq::empty()
                } else {
                    reads(d)
                },
        ),
{
    let next = v.without(gone, reads);
    let reads2 = |d: Key|
        if gone.contains(d) {
            Seq::empty()
        } else {
            reads(d)
        };
    assert forall|d: Key| #[trigger]
        next.generation(d) == v.generation(d) + (if gone.contains(d) {
            1int
        } else {
            0int
        }) by {}
    assert forall|c: Key, d: Key| #[trigger]
        next.readers_of(c).contains(d) <==> reads2(d).contains(CellOrRange::Cell(c)) by {
        assert(v.readers_of(c).contains(d) <==> reads(d).contains(CellOrRange::Cell(c)));
    }
    assert forall|s: u32, i: int| 0 <= i < next.ranges_on(s).len() implies next.entry_true(
        s,
        #[trigger] next.ranges_on(s)[i],
        reads2,
    ) by {
        assert(next.ranges_on(s) == v.ranges_on(s));
        assert(v.entry_true(s, v.ranges_on(s)[i], reads));
    }
    assert forall|d: Key, p: CellOrRange| #[trigger]
        reads2(d).contains(p) && p is Range implies next.holds_range(d, p) by {
        assert(reads(d).contains(p));
        assert(v.holds_range(d, p));
        assert(next.ranges_on(p->Range_0.0) == v.ranges_on(p->Range_0.0));
    }
}

/// The entries of a sheet after compaction.
pub(crate) proof fn lemma_compacted_ranges_on(v: IndexView, s: u32)
    ensures
        v.compacted().ranges_on(s) == v.ranges_on(s).filter(|rd: RangeDep| v.live(rd)),
{
    reveal(Seq::filter);
    let live = |rd: RangeDep| v.live(rd);
    if !v.ranges.contains_key(s) {
        assert(v.compacted().ranges_on(s) =~= v.ranges_on(s).filter(live));
    }
}

/// Compaction drops stale entries only: what depends on what stays as it was, and so does
/// what a recalculation reaches.
pub proof fn law_compaction_changes_no_dependency(v: IndexView, roots: Set<Key>)
    ensures
        forall|d: Key, k: Key| #[trigger] v.compacted().depends(d, k) <==> v.depends(d, k),
        v.compacted().reached(roots) == v.reached(roots),
{
    let next = v.compacted();
    let live = |rd: RangeDep| v.live(rd);
    assert forall|d: Key, k: Key| #[trigger] next.depends(d, k) <==> v.depends(d, k) by {
        let list = v.ranges_on(k.0);
        let kept = next.ranges_on(k.0);
        lemma_compacted_ranges_on(v, k.0);
        if next.depends(d, k) && !next.readers_of(k).contains(d) {
            let i = choose|i: int|
                #![trigger next.ranges_on(k.0)[i]]
                0 <= i < next.ranges_on(k.0).len() && next.ranges_on(k.0)[i].covers(k)
                    && next.live(next.ranges_on(k.0)[i]) && next.ranges_on(k.0)[i].dependent == d;
            assert(list.filter(live).contains(kept[i]));
            list.lemma_filter_contains_rev(live, kept[i]);
            let j = list.index_of(kept[i]);
            assert(v.ranges_on(k.0)[j] == kept[i]);
        }
        if v.depends(d, k) && !v.readers_of(k).contains(d) {
            let j = choose|j: int|
                #![trigger v.ranges_on(k.0)[j]]
                0 <= j < v.ranges_on(k.0).len() && v.ranges_on(k.0)[j].covers(k) && v.live(
                    v.ranges_on(k.0)[j],
                ) && v.ranges_on(k.0)[j].dependent == d;
            list.lemma_filter_contains(live, j);
            let i = list.filter(live).index_of(list[j]);
            assert(next.ranges_on(k.0)[i] == list[j]);
        }
    }
    assert forall|k: Key| next.reached(roots).contains(k) <==> v.reached(roots).contains(k) by {
        if next.reached(roots).contains(k) {
            let p = choose|p: Seq<Key>| next.leads(roots, p, k);
            assert forall|i: int| 0 <= i < p.len() - 1 implies v.depends(
                p[i + 1],
                #[trigger] p[i],
            ) by {
                assert(next.depends(p[i + 1], p[i]));
            }
            assert(v.leads(roots, p, k));
        }
        if v.reached(roots).contains(k) {
            let p = choose|p: Seq<Key>| v.leads(roots, p, k);
            assert forall|i: int| 0 <= i < p.len() - 1 implies next.depends(
                p[i + 1],
                #[trigger] p[i],
            ) by {
                assert(v.depends(p[i + 1], p[i]));
            }
            assert(next.leads(roots, p, k));
        }
    }
    assert(next.reached(roots) =~= v.reached(roots));
}

/// Compaction keeps the index faithful.
pub proof fn law_compaction_keeps_faithful(v: IndexView, reads: spec_fn(Key) -> Seq<CellOrRange>)
    requires
        v.faithful(reads),
    ensures
        v.compacted().faithful(reads),
{
    let next = v.compacted();
    let live = |rd: RangeDep| v.live(rd);
    assert forall|c: Key, d: Key| #[trigger]
        next.readers_of(c).contains(d) <==> reads(d).contains(CellOrRange::Cell(c)) by {
        assert(v.readers_of(c).contains(d) <==> reads(d).contains(CellOrRange::Cell(c)));
    }
    assert forall|s: u32, i: int| 0 <= i < next.ranges_on(s).len() implies next.entry_true(
        s,
        #[trigger] next.ranges_on(s)[i],
        reads,
    ) by {
        lemma_compacted_ranges_on(v, s);
        let rd = next.ranges_on(s)[i];
        assert(v.ranges_on(s).filter(live).contains(rd));
        v.ranges_on(s).lemma_filter_contains_rev(live, rd);
        let j = v.ranges_on(s).index_of(rd);
        assert(v.entry_true(s, v.ranges_on(s)[j], reads));
    }
    assert forall|d: Key, p: CellOrRange| #[trigger]
        reads(d).contains(p) && p is Range implies next.holds_range(d, p) by {
        let s = p->Range_0.0;
        lemma_compacted_ranges_on(v, s);
        assert(v.holds_range(d, p));
        let rd = crate::index::dep_of(p, d, v.generation(d));
        let j = v.ranges_on(s).index_of(rd);
        v.ranges_on(s).lemma_filter_contains(live, j);
    }
}

/// Indexing what a list of formulas reads, when the index holds nothing of them yet, keeps
/// the index faithful.
pub proof fn law_indexing_all_keeps_faithful(
    v: IndexView,
    ks: Seq<Key>,
    reads: spec_fn(Key) -> Seq<CellOrRange>,
    now: spec_fn(Key) -> Seq<CellOrRange>,
)
    requires
        v.faithful(reads),
        ks.no_duplicates(),
        forall|k: Key| #[trigger] ks.contains(k) ==> reads(k) == Seq::<CellOrRange>::empty(),
    ensures
        v.with_all(ks, now).faithful(crate::index::reading_all(reads, ks, now)),
{
    let kept = |w: IndexView, r: spec_fn(Key) -> Seq<CellOrRange>| w.faithful(r);
    assert forall|w: IndexView, r: spec_fn(Key) -> Seq<CellOrRange>, k: Key|
        #![trigger kept(w, r), w.with_reads(k, now(k))]
        kept(w, r) && r(k) == Seq::<CellOrRange>::empty() implies kept(
        w.with_reads(k, now(k)),
        crate::index::reading(r, k, now(k)),
    ) by {
        law_indexing_keeps_faithful(w, r, k, now(k));
    }
    v.lemma_with_all_keeps(kept, ks, reads, now);
}

/// An index with the same entries is as faithful.
proof fn lemma_same_entries_faithful(
    a: IndexView,
    b: IndexView,
    reads: spec_fn(Key) -> Seq<CellOrRange>,
)
    requires
        a.faithful(reads),
        b.readers == a.readers,
        b.ranges == a.ranges,
        b.gen == a.gen,
    ensures
        b.faithful(reads),
{
    assert forall|c: Key, d: Key| #[trigger]
        b.readers_of(c).contains(d) <==> reads(d).contains(CellOrRange::Cell(c)) by {
        assert(a.readers_of(c).contains(d) <==> reads(d).contains(CellOrRange::Cell(c)));
    }
    assert forall|s: u32, i: int| 0 <= i < b.ranges_on(s).len() implies b.entry_true(
        s,
        #[trigger] b.ranges_on(s)[i],
        reads,
    ) by {
        assert(a.entry_true(s, a.ranges_on(s)[i], reads));
    }
    assert forall|d: Key, p: CellOrRange| #[trigger]
        reads(d).contains(p) && p is Range implies b.holds_range(d, p) by {
        assert(a.holds_range(d, p));
    }
}

impl Model {
    /// Whether the index says of each formula what it read last, and no more.
    pub open spec fn index_faithful(self) -> bool {
        self.index@.faithful(|k: Key| self.reads(k))
    }
}

/// The index that a full evaluation builds is trusted, and it is faithful.
pub proof fn law_built_index_is_faithful(m: Model, after: Model)
    requires
        m.indexes_support(after.index@),
        after.support == m.support,
    ensures
        after.index.ready,
        after.index_faithful(),
{
    let index = after.index@;
    let ks = choose|ks: Seq<Key>|
        ks.no_duplicates() && ks.to_set() == m.support@.dom() && index
            == #[trigger] m.index_in_order(ks);
    let none = |k: Key| Seq::<CellOrRange>::empty();
    let now = |k: Key| m.reads(k);
    assert(IndexView::empty().faithful(none));
    law_indexing_all_keeps_faithful(IndexView::empty(), ks, none, now);
    let got = crate::index::reading_all(none, ks, now);
    assert forall|d: Key| #[trigger] got(d) == now(d) by {
        assert(ks.to_set().contains(d) <==> m.support@.contains_key(d));
    }
    assert(got =~= now);
    lemma_same_entries_faithful(IndexView::empty().with_all(ks, now), index, now);
    assert((|k: Key| after.reads(k)) =~= now);
}

/// An incremental recalculation visits every marked cell, every volatile cell, and every
/// formula that reads a visited cell; and it visits nothing else: any set of cells with
/// these properties holds all that it visits.
pub proof fn law_visits_the_marked_and_their_readers(m: Model, s: Set<Key>)
    requires
        m.index_faithful(),
    ensures
        forall|i: int| 0 <= i < m.dirty@.len() ==> m.touched().contains(#[trigger] m.dirty@[i]),
        m.volatile@.subset_of(m.touched()),
        forall|d: Key, k: Key|
            m.touched().contains(k) && #[trigger] reads_cell(m.reads(d), k)
                ==> m.touched().contains(d),
        m.roots().subset_of(s) && (forall|d: Key, k: Key|
            s.contains(k) && #[trigger] reads_cell(m.reads(d), k) ==> s.contains(d))
            ==> m.touched().subset_of(s),
{
    let v = m.index@;
    let reads = |k: Key| m.reads(k);
    assert forall|i: int| 0 <= i < m.dirty@.len() implies m.touched().contains(
        #[trigger] m.dirty@[i],
    ) by {
        assert(m.dirty@.to_set().contains(m.dirty@[i]));
        v.lemma_root_reached(m.roots(), m.dirty@[i]);
    }
    assert forall|k: Key| m.volatile@.contains(k) implies m.touched().contains(k) by {
        v.lemma_root_reached(m.roots(), k);
    }
    assert forall|d: Key, k: Key|
        m.touched().contains(k) && #[trigger] reads_cell(m.reads(d), k) implies m.touched().contains(
        d,
    ) by {
        law_index_follows_reads(v, reads, d, k);
        v.lemma_dependent_reached(m.roots(), k, d);
    }
    if m.roots().subset_of(s) && (forall|d: Key, k: Key|
        s.contains(k) && #[trigger] reads_cell(m.reads(d), k) ==> s.contains(d)) {
        assert forall|k: Key, d: Key| s.contains(k) && #[trigger] v.depends(d, k) implies s.contains(
            d,
        ) by {
            law_index_follows_reads(v, reads, d, k);
            assert(reads_cell(m.reads(d), k));
        }
        v.lemma_reached_least(m.roots(), s);
    }
}

impl Model {
    /// Whether the volatile cells are known, but for cells that are marked.
    pub open spec fn volatile_known(self) -> bool {
        forall|k: Key|
            !self.dirty@.contains(k) ==> (#[trigger] self.volatile@.contains(k)
                <==> self.volatile_cells().contains(k))
    }
}

/// After a full evaluation the volatile cells are known.
pub proof fn law_building_finds_the_volatile(m: Model, after: Model)
    requires
        after.sheets == m.sheets,
        after.parsed_formulas == m.parsed_formulas,
        after.volatile@ == m.volatile_cells(),
    ensures
        after.volatile@ == after.volatile_cells(),
        after.volatile_known(),
{
    lemma_same_formulas_volatile(m, after);
}

/// A change of formulas leaves the volatile cells known, as long as every cell it changes is
/// marked.
pub proof fn law_marked_edits_keep_the_volatile_known(m: Model, edited: Model)
    requires
        m.volatile_known(),
        edited.volatile@ == m.volatile@,
        forall|k: Key| m.dirty@.contains(k) ==> #[trigger] edited.dirty@.contains(k),
        forall|k: Key|
            #[trigger] edited.parsed_at(k) != m.parsed_at(k) ==> edited.dirty@.contains(k),
    ensures
        edited.volatile_known(),
{
    assert forall|k: Key| !edited.dirty@.contains(k) implies (#[trigger] edited.volatile@.contains(k)
        <==> edited.volatile_cells().contains(k)) by {
        assert(edited.parsed_at(k) == m.parsed_at(k));
        assert(m.volatile@.contains(k) <==> m.volatile_cells().contains(k));
    }
}

/// Every cell whose formula calls a volatile function is visited by every incremental
/// recalculation, also one that got its formula after the last full evaluation.
pub proof fn law_volatile_cells_are_visited_every_time(
    m: Model,
    mid: Model,
    visited: Vec<Key>,
)
    requires
        m.volatile_known(),
        m.begins(mid, (RecalcAction::EvaluateCells { visited })),
    ensures
        m.volatile_cells().subset_of(visited@.to_set()),
{
    lemma_volatile_touched(m);
}

/// An incremental recalculation leaves all volatile cells known, as long as evaluating the
/// visited cells changes the formula of no other cell. Its report counts them.
pub proof fn law_recalculation_keeps_the_volatile_known(
    m: Model,
    mid: Model,
    evaluated: Model,
    after: Model,
    visited: Vec<Key>,
    cells: usize,
)
    requires
        m.volatile_known(),
        m.begins(mid, (RecalcAction::EvaluateCells { visited })),
        evaluated.volatile@ == mid.volatile@,
        forall|k: Key|
            !visited@.contains(k) ==> #[trigger] evaluated.parsed_at(k) == mid.parsed_at(k),
        evaluated.goes_on(
            visited@,
            after,
            (RecalcAction::EvaluateConditionalFormatting { cells }),
        ),
    ensures
        after.volatile@ == after.volatile_cells(),
        after.volatile_known(),
{
    lemma_volatile_touched(m);
    lemma_same_formulas_volatile(evaluated, after);
    assert forall|k: Key| after.volatile@.contains(k) <==> evaluated.volatile_cells().contains(
        k,
    ) by {
        assert(visited@.to_set().contains(k) <==> visited@.contains(k));
        if !visited@.contains(k) {
            assert(evaluated.parsed_at(k) == mid.parsed_at(k));
            assert(mid.parsed_at(k) == m.parsed_at(k));
            assert(!m.volatile_cells().contains(k));
            assert(!m.volatile@.contains(k)) by {
                if m.volatile@.contains(k) {
                    m.index@.lemma_root_reached(m.roots(), k);
                }
            }
        }
    }
    assert(after.volatile@ =~= evaluated.volatile_cells());
}

/// Cells that are known or marked are reached.
proof fn lemma_volatile_touched(m: Model)
    requires
        m.volatile_known(),
    ensures
        m.volatile_cells().subset_of(m.touched()),
{
    assert forall|k: Key| m.volatile_cells().contains(k) implies m.touched().contains(k) by {
        if !m.dirty@.contains(k) {
            assert(m.volatile@.contains(k));
        }
        assert(m.roots().contains(k));
        m.index@.lemma_root_reached(m.roots(), k);
    }
}

/// The same formulas in the same cells are as volatile.
proof fn lemma_same_formulas_volatile(a: Model, b: Model)
    requires
        b.sheets == a.sheets,
        b.parsed_formulas == a.parsed_formulas,
    ensures
        b.volatile_cells() == a.volatile_cells(),
{
    assert forall|k: Key| #[trigger] b.parsed_at(k) == a.parsed_at(k) by {}
    assert(b.volatile_cells() =~= a.volatile_cells());
}

/// A cell that is not visited has no reason to change: where the value of a cell that is
/// neither marked nor volatile follows from the values of the cells it reads, and no cell
/// reads itself in a circle, all cells that are not visited keep their values.
pub proof fn law_unvisited_cells_keep_their_values<V>(
    m: Model,
    was: spec_fn(Key) -> V,
    now: spec_fn(Key) -> V,
    rank: spec_fn(Key) -> nat,
    d: Key,
)
    requires
        m.index_faithful(),
        m.volatile_known(),
        forall|e: Key, k: Key| #[trigger] reads_cell(m.reads(e), k) ==> rank(k) < rank(e),
        forall|e: Key|
            !m.dirty@.contains(e) && !m.volatile_cells().contains(e) && (forall|k: Key| #[trigger]
                reads_cell(m.reads(e), k) ==> was(k) == now(k)) ==> #[trigger] was(e) == now(e),
        !m.touched().contains(d),
    ensures
        was(d) == now(d),
    decreases rank(d),
{
    law_visits_the_marked_and_their_readers(m, Set::empty());
    lemma_volatile_touched(m);
    assert(!m.dirty@.contains(d)) by {
        if m.dirty@.contains(d) {
            let i = m.dirty@.index_of(d);
            assert(m.touched().contains(m.dirty@[i]));
        }
    }
    assert forall|k: Key| #[trigger] reads_cell(m.reads(d), k) implies was(k) == now(k) by {
        law_unvisited_cells_keep_their_values(m, was, now, rank, k);
    }
}

/// Whether the value of a cell is what its formula gives, and follows from what it read:
/// the formula gives the same wherever the cells among its reads have the same values.
pub open spec fn evaluates<V>(
    formula: spec_fn(Key, spec_fn(Key) -> V) -> V,
    reads: Seq<CellOrRange>,
    values: spec_fn(Key) -> V,
    e: Key,
) -> bool {
    forall|other: spec_fn(Key) -> V|
        (forall|k: Key| #[trigger] reads_cell(reads, k) ==> other(k) == values(k))
            ==> #[trigger] formula(e, other) == values(e)
}

/// Whether a host has done what an action asks for: it has evaluated everything, or the
/// cells handed out and no other, or no cell.
pub open spec fn performs<V>(
    formula: spec_fn(Key, spec_fn(Key) -> V) -> V,
    action: RecalcAction,
    before: Model,
    was: spec_fn(Key) -> V,
    after: Model,
    now: spec_fn(Key) -> V,
) -> bool {
    match action {
        RecalcAction::EvaluateAll { .. } => forall|e: Key| #[trigger]
            evaluates(formula, after.reads(e), now, e),
        RecalcAction::EvaluateCells { visited } => {
            &&& forall|e: Key|
                visited@.contains(e) ==> #[trigger] evaluates(formula, after.reads(e), now, e)
            &&& forall|e: Key|
                !visited@.contains(e) ==> #[trigger] now(e) == was(e)
            &&& forall|e: Key|
                !visited@.contains(e) ==> #[trigger] after.reads(e) == before.reads(e)
        },
        _ => {
            &&& forall|e: Key| #[trigger] now(e) == was(e)
            &&& forall|e: Key| #[trigger] after.reads(e) == before.reads(e)
        },
    }
}

/// A full evaluation has one result: where the value of every cell is what its formula
/// gives from the cells it reads, and no cell reads itself in a circle, no other values are
/// what the formulas give.
pub proof fn law_full_evaluation_has_one_result<V>(
    formula: spec_fn(Key, spec_fn(Key) -> V) -> V,
    reads: spec_fn(Key) -> Seq<CellOrRange>,
    values: spec_fn(Key) -> V,
    full: spec_fn(Key) -> V,
    rank: spec_fn(Key) -> nat,
)
    requires
        forall|e: Key| evaluates(formula, #[trigger] reads(e), values, e),
        forall|e: Key, k: Key| #[trigger] reads_cell(reads(e), k) ==> rank(k) < rank(e),
        forall|e: Key| #[trigger] full(e) == formula(e, full),
    ensures
        values == full,
{
    assert forall|d: Key| #[trigger] values(d) == full(d) by {
        lemma_one_result(formula, reads, values, full, rank, d);
    }
    assert(values =~= full);
}

/// One cell has one result.
proof fn lemma_one_result<V>(
    formula: spec_fn(Key, spec_fn(Key) -> V) -> V,
    reads: spec_fn(Key) -> Seq<CellOrRange>,
    values: spec_fn(Key) -> V,
    full: spec_fn(Key) -> V,
    rank: spec_fn(Key) -> nat,
    d: Key,
)
    requires
        forall|e: Key| evaluates(formula, #[trigger] reads(e), values, e),
        forall|e: Key, k: Key| #[trigger] reads_cell(reads(e), k) ==> rank(k) < rank(e),
        forall|e: Key| #[trigger] full(e) == formula(e, full),
    ensures
        values(d) == full(d),
    decreases rank(d),
{
    assert forall|k: Key| #[trigger] reads_cell(reads(d), k) implies full(k) == values(k) by {
        lemma_one_result(formula, reads, values, full, rank, k);
    }
    assert(evaluates(formula, reads(d), values, d));
    assert(full(d) == formula(d, full));
}

/// A recalculation gives what a full evaluation gives, whichever way it goes. Let `was` be
/// the values of the cells before it, `now` those after the host has done what the first
/// step asked for, and `last` those at its end; and let a full evaluation of the workbook as
/// it is now give `full`. Where the index is trusted, the values of the cells that are
/// neither marked nor volatile are those of the last evaluation. If no cell reads itself in
/// a circle, every cell ends with the value that a full evaluation gives it, and so does all
/// that follows from the values, such as conditional formatting. The values are again those
/// of an evaluation, so that the next recalculation can start from them.
pub proof fn law_recalculation_gives_what_full_evaluation_gives<V>(
    formula: spec_fn(Key, spec_fn(Key) -> V) -> V,
    m: Model,
    was: spec_fn(Key) -> V,
    mid: Model,
    action: RecalcAction,
    evaluated: Model,
    now: spec_fn(Key) -> V,
    after: Model,
    next: RecalcAction,
    finished: Model,
    last: spec_fn(Key) -> V,
    full: spec_fn(Key) -> V,
    rank: spec_fn(Key) -> nat,
)
    requires
        m.index.ready ==> {
            &&& m.index_faithful()
            &&& m.volatile_known()
            &&& forall|e: Key|
                !m.dirty@.contains(e) && !m.volatile_cells().contains(e) ==> #[trigger] evaluates(
                    formula,
                    m.reads(e),
                    was,
                    e,
                )
        },
        m.begins(mid, action),
        performs(formula, action, mid, was, evaluated, now),
        match action {
            RecalcAction::EvaluateCells { visited } => {
                &&& evaluated.goes_on(visited@, after, next)
                &&& performs(formula, next, after, now, finished, last)
            },
            _ => finished == evaluated && last == now,
        },
        forall|e: Key, k: Key| #[trigger] reads_cell(finished.reads(e), k) ==> rank(k) < rank(e),
        forall|e: Key| #[trigger] full(e) == formula(e, full),
    ensures
        last == full,
        forall|e: Key| #[trigger] evaluates(formula, finished.reads(e), last, e),
{
    let reads = |e: Key| finished.reads(e);
    assert forall|e: Key| evaluates(formula, #[trigger] reads(e), last, e) by {
        if action is EvaluateAll {
            assert(evaluates(formula, evaluated.reads(e), now, e));
        } else if next is EvaluateAll {
            assert(evaluates(formula, finished.reads(e), last, e));
        } else {
            let visited = action->EvaluateCells_visited;
            assert(last =~= now);
            assert(finished.reads(e) == after.reads(e));
            assert(after.reads(e) == evaluated.reads(e));
            if visited@.contains(e) {
                assert(evaluates(formula, evaluated.reads(e), now, e));
            } else {
                lemma_unvisited_evaluates(formula, m, was, mid, visited, now, e);
                assert(evaluated.reads(e) == mid.reads(e));
            }
        }
    }
    assert forall|e: Key, k: Key| #[trigger] reads_cell(reads(e), k) implies rank(k) < rank(e) by {
        assert(reads_cell(finished.reads(e), k));
    }
    law_full_evaluation_has_one_result(formula, reads, last, full, rank);
    assert forall|e: Key| #[trigger] evaluates(formula, finished.reads(e), last, e) by {
        assert(evaluates(formula, reads(e), last, e));
    }
}

/// What a cell that is not visited reads is not visited either, so that its value is still
/// what its formula gives.
proof fn lemma_unvisited_evaluates<V>(
    formula: spec_fn(Key, spec_fn(Key) -> V) -> V,
    m: Model,
    was: spec_fn(Key) -> V,
    mid: Model,
    visited: Vec<Key>,
    now: spec_fn(Key) -> V,
    e: Key,
)
    requires
        m.index_faithful(),
        m.volatile_known(),
        forall|d: Key|
            !m.dirty@.contains(d) && !m.volatile_cells().contains(d) ==> #[trigger] evaluates(
                formula,
                m.reads(d),
                was,
                d,
            ),
        m.begins(mid, (RecalcAction::EvaluateCells { visited })),
        forall|d: Key| !visited@.contains(d) ==> #[trigger] now(d) == was(d),
        !visited@.contains(e),
    ensures
        mid.reads(e) == m.reads(e),
        evaluates(formula, mid.reads(e), now, e),
{
    law_visits_the_marked_and_their_readers(m, Set::empty());
    lemma_volatile_touched(m);
    assert forall|k: Key| m.touched().contains(k) <==> visited@.contains(k) by {
        assert(visited@.to_set().contains(k) <==> visited@.contains(k));
    }
    assert(!m.dirty@.contains(e)) by {
        if m.dirty@.contains(e) {
            let i = m.dirty@.index_of(e);
            assert(m.touched().contains(m.dirty@[i]));
        }
    }
    assert(mid.support@.contains_key(e) <==> m.support@.contains_key(e));
    assert(evaluates(formula, m.reads(e), was, e));
    assert forall|other: spec_fn(Key) -> V|
        (forall|k: Key| #[trigger] reads_cell(mid.reads(e), k) ==> other(k) == now(k)) implies
        #[trigger] formula(e, other) == now(e) by {
        assert forall|k: Key| #[trigger] reads_cell(m.reads(e), k) implies other(k) == was(k) by {
            assert(reads_cell(mid.reads(e), k));
            assert(!visited@.contains(k));
            assert(now(k) == was(k));
        }
        assert(now(e) == was(e));
    }
}

/// When an incremental recalculation hands out cells to evaluate, nothing of what they were
/// is left: no state, no link, no reads, no outside value read, and the index has them
/// depend on nothing. It stays faithful to what the other formulas read.
pub proof fn law_visited_cells_are_forgotten(m: Model, mid: Model, visited: Vec<Key>, k: Key)
    requires
        m.index_faithful(),
        m.can_forget(m.touched()),
        m.begins(mid, (RecalcAction::EvaluateCells { visited })),
        visited@.contains(k),
    ensures
        !mid.cells@.contains_key(k),
        !mid.links@.contains_key(k),
        mid.reads(k) == Seq::<CellOrRange>::empty(),
        forall|key: Seq<char>| !(#[trigger] mid.users_of(key)).contains(k),
        forall|c: Key| !(#[trigger] mid.index@.depends(k, c)),
        mid.index_faithful(),
{
    let gone = m.touched();
    let reads = |d: Key| m.reads(d);
    assert(visited@.to_set().contains(k));
    law_forgetting_keeps_faithful(m.index@, reads, gone);
    let taken = Model { dirty: mid.dirty, ..m };
    assert((|d: Key| taken.reads(d)) =~= reads);
    let left = |d: Key|
        if gone.contains(d) {
            Seq::empty()
        } else {
            reads(d)
        };
    let mine = |d: Key| mid.reads(d);
    assert forall|d: Key| #[trigger] mine(d) == left(d) by {
        assert(mid.support@.contains_key(d) <==> m.support@.contains_key(d) && !gone.contains(d));
    }
    assert(mine =~= left);
    assert forall|key: Seq<char>| !(#[trigger] mid.users_of(key)).contains(k) by {
        if mid.users().contains_key(key) {
            assert(taken.users().contains_key(key));
        }
    }
    assert forall|c: Key| !(#[trigger] mid.index@.depends(k, c)) by {
        law_index_follows_reads(mid.index@, mine, k, c);
    }
}

/// An incremental recalculation leaves a faithful index faithful, whatever the visited
/// cells read now, as long as evaluating them records reads for no other cell.
pub proof fn law_recalculation_keeps_index_faithful(
    m: Model,
    mid: Model,
    evaluated: Model,
    after: Model,
    visited: Vec<Key>,
    cells: usize,
)
    requires
        m.index_faithful(),
        m.can_forget(m.touched()),
        m.begins(mid, (RecalcAction::EvaluateCells { visited })),
        evaluated.index@ == mid.index@,
        forall|k: Key| !visited@.contains(k) ==> #[trigger] evaluated.reads(k) == mid.reads(k),
        evaluated.goes_on(
            visited@,
            after,
            (RecalcAction::EvaluateConditionalFormatting { cells }),
        ),
    ensures
        after.index.ready,
        after.index_faithful(),
        cells == m.touched().len(),
{
    let before = |d: Key| mid.reads(d);
    let now = |d: Key| evaluated.reads(d);
    visited@.unique_seq_to_set();
    assert(mid.index@.faithful(before)) by {
        if visited@.len() > 0 {
            assert(visited@.contains(visited@[0]));
            law_visited_cells_are_forgotten(m, mid, visited, visited@[0]);
        } else {
            lemma_nothing_visited(m, mid, visited);
        }
    }
    assert forall|k: Key| #[trigger] visited@.contains(k) implies before(k) == Seq::<
        CellOrRange,
    >::empty() by {
        law_visited_cells_are_forgotten(m, mid, visited, k);
    }
    law_indexing_all_keeps_faithful(mid.index@, visited@, before, now);
    let got = crate::index::reading_all(before, visited@, now);
    let last = |d: Key| after.reads(d);
    assert forall|d: Key| #[trigger] got(d) == last(d) by {
        assert(evaluated.reads(d) == after.reads(d));
        if !visited@.contains(d) {
            assert(evaluated.reads(d) == mid.reads(d));
        }
    }
    assert(got =~= last);
    let indexed = evaluated.index@.with_all(visited@, now);
    evaluated.index@.lemma_with_all_leaves(visited@, now);
    law_compaction_keeps_faithful(indexed, last);
}

/// With no cell visited, the index is as faithful as before.
proof fn lemma_nothing_visited(m: Model, mid: Model, visited: Vec<Key>)
    requires
        m.index_faithful(),
        m.begins(mid, (RecalcAction::EvaluateCells { visited })),
        visited@.len() == 0,
    ensures
        mid.index_faithful(),
{
    let taken = Model { dirty: mid.dirty, ..m };
    assert(m.touched() =~= Set::empty());
    m.index@.lemma_without_none(|d: Key| taken.reads(d));
    assert(mid.index@ == m.index@);
    let mine = |d: Key| mid.reads(d);
    let was = |d: Key| m.reads(d);
    assert forall|d: Key| #[trigger] mine(d) == was(d) by {
        assert(mid.support@ =~= m.support@);
    }
    assert(mine =~= was);
}

/// A structural change makes the next recalculation a full one.
pub proof fn law_structural_change_forces_full(m: Model, after: Model, action: RecalcAction)
    requires
        (Model { index: DependencyIndex { ready: false, ..m.index }, ..m }).begins(after, action),
    ensures
        action is EvaluateAll,
        action->EvaluateAll_reason@ == "index not ready"@,
        after.dirty == m.dirty,
{
}

/// A recalculation ends after a full evaluation or after conditional formatting, and not
/// before; it gets to either in a few steps.
pub proof fn law_recalculation_ends(m: Model, event: RecalcEvent, after: Model, action: RecalcAction)
    requires
        m.steps(event, after, action),
    ensures
        event is Begin ==> action is EvaluateAll || action is EvaluateCells,
        event is CellsEvaluated ==> action is EvaluateAll || action is EvaluateConditionalFormatting,
        action is Done <==> event is Formatted || event is AllEvaluated,
        action is Done ==> action->Done_report.full == event is AllEvaluated,
{
}

/// With nothing marked and nothing volatile, an incremental recalculation visits nothing.
pub proof fn law_nothing_marked_nothing_visited(m: Model)
    requires
        m.dirty@.len() == 0,
        m.volatile@ == Set::<Key>::empty(),
    ensures
        m.touched() == Set::<Key>::empty(),
{
    assert(m.roots() =~= Set::empty());
    m.index@.lemma_reached_least(m.roots(), Set::empty());
    assert(m.touched() =~= Set::empty());
}

/// Two different lists of arguments never share a key, as long as no argument holds the
/// separator.
pub proof fn law_keys_are_unambiguous(a: Seq<Seq<char>>, b: Seq<Seq<char>>)
    requires
        a.len() > 0,
        b.len() > 0,
        forall|i: int| 0 <= i < a.len() ==> !(#[trigger] a[i]).contains(EXTERNAL_KEY_SEP),
        forall|i: int| 0 <= i < b.len() ==> !(#[trigger] b[i]).contains(EXTERNAL_KEY_SEP),
        crate::external::joined(a) == crate::external::joined(b),
    ensures
        a == b,
    decreases a.len(),
{
    let key = crate::external::joined(a);
    if a.len() == 1 || b.len() == 1 {
        if a.len() > 1 {
            let n = crate::external::joined(a.drop_last()).len() as int;
            assert(key[n] == EXTERNAL_KEY_SEP);
            assert(b[0].contains(EXTERNAL_KEY_SEP));
        }
        if b.len() > 1 {
            let n = crate::external::joined(b.drop_last()).len() as int;
            assert(key[n] == EXTERNAL_KEY_SEP);
            assert(a[0].contains(EXTERNAL_KEY_SEP));
        }
        assert(a =~= b);
    } else {
        let p = crate::external::joined(a.drop_last());
        let q = crate::external::joined(b.drop_last());
        let (x, y) = (a[a.len() - 1], b[b.len() - 1]);
        assert(key == p.push(EXTERNAL_KEY_SEP) + x);
        assert(key == q.push(EXTERNAL_KEY_SEP) + y);
        assert(key[p.len() as int] == EXTERNAL_KEY_SEP);
        assert(key[q.len() as int] == EXTERNAL_KEY_SEP);
        if p.len() > q.len() {
            assert((q.push(EXTERNAL_KEY_SEP) + y)[p.len() as int] == y[p.len() - q.len() - 1]);
            assert(y.contains(EXTERNAL_KEY_SEP));
        }
        if q.len() > p.len() {
            assert((p.push(EXTERNAL_KEY_SEP) + x)[q.len() as int] == x[q.len() - p.len() - 1]);
            assert(x.contains(EXTERNAL_KEY_SEP));
        }
        assert(p =~= key.take(p.len() as int));
        assert(q =~= key.take(q.len() as int));
        assert(a.last() =~= key.skip(p.len() as int + 1));
        assert(b.last() =~= key.skip(q.len() as int + 1));
        assert forall|i: int| 0 <= i < a.drop_last().len() implies !(
        #[trigger] a.drop_last()[i]).contains(EXTERNAL_KEY_SEP) by {
            assert(a.drop_last()[i] == a[i]);
        }
        assert forall|i: int| 0 <= i < b.drop_last().len() implies !(
        #[trigger] b.drop_last()[i]).contains(EXTERNAL_KEY_SEP) by {
            assert(b.drop_last()[i] == b[i]);
        }
        law_keys_are_unambiguous(a.drop_last(), b.drop_last());
        assert(a =~= a.drop_last().push(a.last()));
        assert(b =~= b.drop_last().push(b.last()));
    }
}

/// The connection of a key is its first argument, as long as that does not hold the
/// separator; and a key has no second connection.
pub proof fn law_connection_is_the_first_argument(parts: Seq<Seq<char>>, connection: Seq<char>)
    requires
        parts.len() > 0,
        !parts[0].contains(EXTERNAL_KEY_SEP),
    ensures
        crate::external::first_part(crate::external::joined(parts), connection) <==> connection == parts[0],
{
    lemma_starts_with_first(parts);
    let key = crate::external::joined(parts);
    let first = parts[0];
    if crate::external::first_part(key, connection) {
        if connection.len() < first.len() {
            let n = connection.len() as int;
            assert(key.take(first.len() as int)[n] == first[n]);
            assert(first.contains(EXTERNAL_KEY_SEP));
        }
        if connection.len() > first.len() {
            let n = first.len() as int;
            assert(key.take(connection.len() as int)[n] == connection[n]);
            assert(connection.contains(EXTERNAL_KEY_SEP));
        }
        assert(connection =~= first);
    }
}

/// A key starts with its first argument, and a separator where more follow.
proof fn lemma_starts_with_first(parts: Seq<Seq<char>>)
    requires
        parts.len() > 0,
    ensures
        parts[0].len() <= crate::external::joined(parts).len(),
        crate::external::joined(parts).take(parts[0].len() as int) == parts[0],
        parts.len() == 1 ==> crate::external::joined(parts) == parts[0],
        parts.len() > 1 ==> parts[0].len() < crate::external::joined(parts).len()
            && crate::external::joined(parts)[parts[0].len() as int] == EXTERNAL_KEY_SEP,
    decreases parts.len(),
{
    let n = parts[0].len() as int;
    if parts.len() > 1 {
        let rest = parts.drop_last();
        lemma_starts_with_first(rest);
        assert(rest[0] == parts[0]);
        assert(crate::external::joined(parts).take(n) =~= crate::external::joined(rest).take(n));
    } else {
        assert(crate::external::joined(parts).take(n) =~= parts[0]);
    }
}

/// There is one list, in order, of a set of keys: what is listed is determined to the last
/// key.
pub proof fn law_a_set_has_one_list(
    a: Seq<String>,
    b: Seq<String>,
    members: Set<Seq<char>>,
)
    requires
        crate::text::lists(a, members),
        crate::text::lists(b, members),
    ensures
        a.map_values(|key: String| key@) == b.map_values(|key: String| key@),
{
    lemma_increasing_unique(a.map_values(|key: String| key@), b.map_values(|key: String| key@));
}

/// Two lists in order with the same members are the same.
proof fn lemma_increasing_unique(a: Seq<Seq<char>>, b: Seq<Seq<char>>)
    requires
        crate::text::increasing(a),
        crate::text::increasing(b),
        a.to_set() == b.to_set(),
    ensures
        a == b,
    decreases a.len(),
{
    if a.len() == 0 || b.len() == 0 {
        if a.len() > 0 {
            assert(a.to_set().contains(a[0]));
            assert(b.contains(a[0]));
        }
        if b.len() > 0 {
            assert(b.to_set().contains(b[0]));
            assert(a.contains(b[0]));
        }
        assert(a =~= b);
    } else {
        let (x, y) = (a[a.len() - 1], b[b.len() - 1]);
        assert(x == y) by {
            assert(a.to_set().contains(x));
            assert(b.to_set().contains(y));
            let i = a.index_of(y);
            let j = b.index_of(x);
            if i < a.len() - 1 && j < b.len() - 1 {
                assert(crate::text::text_before(a[i], a[a.len() - 1]));
                assert(crate::text::text_before(b[j], b[b.len() - 1]));
                crate::text::lemma_before_transitive(x, y, x);
                crate::text::lemma_before_irreflexive(x);
            }
        }
        let (c, d) = (a.drop_last(), b.drop_last());
        assert forall|i: int, j: int| 0 <= i < j < c.len() implies #[trigger] crate::text::text_before(
            c[i],
            c[j],
        ) by {
            assert(crate::text::text_before(a[i], a[j]));
        }
        assert forall|i: int, j: int| 0 <= i < j < d.len() implies #[trigger] crate::text::text_before(
            d[i],
            d[j],
        ) by {
            assert(crate::text::text_before(b[i], b[j]));
        }
        lemma_without_last(a);
        lemma_without_last(b);
        assert(c.to_set() =~= d.to_set());
        lemma_increasing_unique(c, d);
        assert(a =~= c.push(x));
        assert(b =~= d.push(y));
    }
}

/// A list in order holds its last member once.
proof fn lemma_without_last(a: Seq<Seq<char>>)
    requires
        crate::text::increasing(a),
        a.len() > 0,
    ensures
        a.drop_last().to_set() == a.to_set().remove(a[a.len() - 1]),
{
    crate::text::lemma_increasing_distinct(a);
    let rest = a.drop_last();
    let last = a[a.len() - 1];
    assert forall|k: Seq<char>| rest.to_set().contains(k) <==> a.to_set().contains(k) && k != last by {
        if rest.contains(k) {
            let i = rest.index_of(k);
            assert(a[i] == k);
        }
        if a.contains(k) && k != last {
            let i = a.index_of(k);
            assert(rest[i] == k);
        }
    }
    assert(rest.to_set() =~= a.to_set().remove(last));
}

/// Once a value has arrived, a call that reads its key returns it, and the key is waited for
/// no more.
pub proof fn law_arrived_value_is_returned(
    m: Model,
    mid: Model,
    after: Model,
    key: Seq<char>,
    value: ExternalValue,
    cell: CellReferenceIndex,
    result: CalcResult,
)
    requires
        m.sets_external(key, value, mid),
        mid.answers(key, cell, after, result),
    ensures
        result == crate::external::result_of(value, cell),
        !after.waiting().contains(key),
        after.users_of(key).contains(cell.as_key()),
{
}

/// While no value has ever arrived, a call that reads a key shows `#N/A` and the key is
/// waited for.
pub proof fn law_missing_value_is_waited_for(
    m: Model,
    after: Model,
    key: Seq<char>,
    cell: CellReferenceIndex,
    result: CalcResult,
)
    requires
        m.shown(key) is None,
        m.answers(key, cell, after, result),
    ensures
        result is Error,
        result->Error_error == Error::NA,
        result->Error_message@ == "waiting for the API"@,
        after.waiting().contains(key),
        after.users_of(key).contains(cell.as_key()),
{
}

/// Only the arrival of a value changes what a key shows: forgetting a value, a call that
/// reads one, and a step of a recalculation leave what every key shows as it was, and the
/// arrival of a value changes its own key alone.
pub proof fn law_only_arrival_changes_what_is_shown(m: Model, after: Model, other: Seq<char>)
    ensures
        (exists|key: Seq<char>| #[trigger] m.forgets_external(key, after)) ==> after.shown(other)
            == m.shown(other),
        (exists|key: Seq<char>, cell: CellReferenceIndex, result: CalcResult| #[trigger]
            m.answers(key, cell, after, result)) ==> after.shown(other) == m.shown(other),
        (exists|event: RecalcEvent, action: RecalcAction| #[trigger]
            m.steps(event, after, action)) ==> after.shown(other) == m.shown(other),
        forall|key: Seq<char>, value: ExternalValue| #[trigger]
            m.sets_external(key, value, after) ==> after.shown(other) == if key == other {
                Some(value)
            } else {
                m.shown(other)
            },
{
}

/// The cells that read a forgotten value keep showing it until the new one arrives: a call
/// that reads its key is answered as before it was forgotten, whenever that is before the
/// key shows something else; and the key is waited for.
pub proof fn law_forgotten_value_is_shown(
    m: Model,
    mid: Model,
    later: Model,
    after: Model,
    key: Seq<char>,
    cell: CellReferenceIndex,
    result: CalcResult,
)
    requires
        m.externals@.contains_key(key),
        m.forgets_external(key, mid),
        later.shown(key) == mid.shown(key),
        later.answers(key, cell, after, result),
    ensures
        result == crate::external::result_of(m.externals@[key], cell),
        mid.waiting().contains(key),
        !later.externals@.contains_key(key) ==> after.waiting().contains(key),
{
}

/// Forgetting a value has it fetched again and marks nothing dirty; when the new value
/// arrives, the cells that read its key are marked as if the old one had never been
/// forgotten.
pub proof fn law_forgotten_value_is_fetched_again(
    m: Model,
    mid: Model,
    after: Model,
    key: Seq<char>,
    value: ExternalValue,
)
    requires
        m.forgets_external(key, mid),
        mid.sets_external(key, value, after),
    ensures
        mid.waiting().contains(key),
        !mid.externals@.contains_key(key),
        mid.dirty == m.dirty,
        mid.cells == m.cells,
        m.sets_external(key, value, after),
{
    assert(after.externals@ =~= m.externals@.insert(key, value));
    assert(after.forgotten@ =~= m.forgotten@.remove(key));
    assert(after.external_requests@ =~= m.external_requests@.remove(key));
    let marked = choose|marked: Seq<Key>|
        #![trigger mid.dirty@ + marked]
        after.dirty@ == mid.dirty@ + marked && marked.no_duplicates() && marked.to_set()
            == mid.users_of(key);
    assert(after.dirty@ == m.dirty@ + marked);
}

/// A value that has arrived is carried on: an incremental recalculation right after visits
/// every cell that reads its key.
pub proof fn law_arrived_value_is_carried_on(
    m: Model,
    mid: Model,
    after: Model,
    key: Seq<char>,
    value: ExternalValue,
    visited: Vec<Key>,
    reader: Key,
)
    requires
        m.sets_external(key, value, mid),
        mid.begins(after, (RecalcAction::EvaluateCells { visited })),
        m.users_of(key).contains(reader),
    ensures
        visited@.contains(reader),
{
    let marked = choose|marked: Seq<Key>|
        #![trigger m.dirty@ + marked]
        mid.dirty@ == m.dirty@ + marked && marked.no_duplicates() && marked.to_set()
            == m.users_of(key);
    assert(marked.to_set().contains(reader));
    let i = marked.index_of(reader);
    assert(mid.dirty@[m.dirty@.len() + i] == reader);
    assert(mid.dirty@.contains(reader));
    assert(mid.roots().contains(reader));
    mid.index@.lemma_root_reached(mid.roots(), reader);
    assert(visited@.to_set().contains(reader));
}

} // verus!
