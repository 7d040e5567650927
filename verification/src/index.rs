//! The dependency index: which formulas read which cells and ranges.
use std::collections::HashMap;

use vstd::prelude::*;
use vstd::std_specs::hash::*;

use crate::cell_map::{CellMap, CellSet};
use crate::key::Key;

verus! {

broadcast use group_hash_axioms;

/// What a formula reads: one cell, or the cells of a range given as
/// (sheet, first row, first column, last row, last column).
#[derive(Debug, Clone, Copy)]
pub enum CellOrRange {
    Cell(Key),
    Range((u32, i32, i32, i32, i32)),
}

/// A range a formula reads: the formula is recalculated when any cell inside changes.
#[derive(Debug, Clone, Copy)]
pub struct RangeDep {
    pub r1: i32,
    pub c1: i32,
    pub r2: i32,
    pub c2: i32,
    pub dependent: Key,
    /// The dependent's generation when this entry was made; older entries are stale.
    pub gen: u32,
}

impl RangeDep {
    /// Whether a cell, of the sheet the range is on, lies inside.
    pub open spec fn covers(self, k: Key) -> bool {
        self.r1 <= k.1 <= self.r2 && self.c1 <= k.2 <= self.c2
    }
}

pub struct DependencyIndex {
    /// precedent cell → the formula cells that read it directly
    pub cells: CellMap<CellSet>,
    /// per sheet, the ranges formulas read
    pub ranges: HashMap<u32, Vec<RangeDep>>,
    /// generation of each dependent's range entries
    pub gen: CellMap<u32>,
    /// range entries left behind by re-evaluated cells, compacted when they dominate
    pub stale: usize,
    /// Cells inside a dynamic array's spill area (anchors included): an edit that touches
    /// one needs the full two-phase evaluation.
    pub spill_areas: CellSet,
    /// True once built by a full evaluation and not invalidated since.
    pub ready: bool,
}

/// The index as mathematics.
#[verifier::ext_equal]
pub struct IndexView {
    pub readers: Map<Key, Set<Key>>,
    pub ranges: Map<u32, Seq<RangeDep>>,
    pub gen: Map<Key, u32>,
    pub stale: nat,
    pub spill_areas: Set<Key>,
    pub ready: bool,
}

impl View for DependencyIndex {
    type V = IndexView;

    open spec fn view(&self) -> IndexView {
        IndexView {
            readers: self.cells@.map_values(|set: CellSet| set@),
            ranges: self.ranges@.map_values(|list: Vec<RangeDep>| list@),
            gen: self.gen@,
            stale: self.stale as nat,
            spill_areas: self.spill_areas@,
            ready: self.ready,
        }
    }
}

/// How many of the reads are ranges.
pub open spec fn range_count(reads: Seq<CellOrRange>) -> nat {
    reads.filter(|p: CellOrRange| p is Range).len()
}

/// Whether a read is a range on a sheet.
pub open spec fn range_on(p: CellOrRange, sheet: u32) -> bool {
    p is Range && p->Range_0.0 == sheet
}

/// The index entry for a range that `k` reads.
pub open spec fn dep_of(p: CellOrRange, k: Key, gen: u32) -> RangeDep {
    let (_, r1, c1, r2, c2) = p->Range_0;
    RangeDep { r1, c1, r2, c2, dependent: k, gen }
}

/// The index entries for the ranges that `k` reads on a sheet, in the order of the reads.
pub open spec fn deps_on(reads: Seq<CellOrRange>, sheet: u32, k: Key, gen: u32) -> Seq<RangeDep> {
    reads.filter(|p: CellOrRange| range_on(p, sheet)).map_values(
        |p: CellOrRange| dep_of(p, k, gen),
    )
}

/// What each formula reads, once `k` reads something else.
pub open spec fn reading(
    reads: spec_fn(Key) -> Seq<CellOrRange>,
    k: Key,
    now: Seq<CellOrRange>,
) -> spec_fn(Key) -> Seq<CellOrRange> {
    |d: Key|
        if d == k {
            now
        } else {
            reads(d)
        }
}

/// What each formula reads, once those of a list read something else.
pub open spec fn reading_all(
    reads: spec_fn(Key) -> Seq<CellOrRange>,
    ks: Seq<Key>,
    now: spec_fn(Key) -> Seq<CellOrRange>,
) -> spec_fn(Key) -> Seq<CellOrRange> {
    |d: Key|
        if ks.contains(d) {
            now(d)
        } else {
            reads(d)
        }
}

impl IndexView {
    /// The index of a workbook without formulas, not yet trusted.
    pub open spec fn empty() -> IndexView {
        IndexView {
            readers: Map::empty(),
            ranges: Map::empty(),
            gen: Map::empty(),
            stale: 0,
            spill_areas: Set::empty(),
            ready: false,
        }
    }

    /// The formulas indexed as reading a cell directly.
    pub open spec fn readers_of(self, c: Key) -> Set<Key> {
        if self.readers.contains_key(c) {
            self.readers[c]
        } else {
            Set::empty()
        }
    }

    /// The range entries of a sheet, stale ones included.
    pub open spec fn ranges_on(self, sheet: u32) -> Seq<RangeDep> {
        if self.ranges.contains_key(sheet) {
            self.ranges[sheet]
        } else {
            Seq::empty()
        }
    }

    /// How often a formula has been forgotten.
    pub open spec fn generation(self, k: Key) -> u32 {
        if self.gen.contains_key(k) {
            self.gen[k]
        } else {
            0
        }
    }

    /// Whether a range entry is not stale.
    pub open spec fn live(self, rd: RangeDep) -> bool {
        self.generation(rd.dependent) == rd.gen
    }

    /// Whether the index says that a change of `k` may change `d`.
    pub open spec fn depends(self, d: Key, k: Key) -> bool {
        ||| self.readers_of(k).contains(d)
        ||| exists|i: int|
            #![trigger self.ranges_on(k.0)[i]]
            0 <= i < self.ranges_on(k.0).len() && self.ranges_on(k.0)[i].covers(k) && self.live(
                self.ranges_on(k.0)[i],
            ) && self.ranges_on(k.0)[i].dependent == d
    }

    /// Whether each cell of a list depends on the one before it.
    pub open spec fn chain(self, p: Seq<Key>) -> bool {
        forall|i: int| 0 <= i < p.len() - 1 ==> self.depends(p[i + 1], #[trigger] p[i])
    }

    /// Whether a list of cells leads from one of the roots to `k`.
    pub open spec fn leads(self, roots: Set<Key>, p: Seq<Key>, k: Key) -> bool {
        p.len() > 0 && roots.contains(p[0]) && p.last() == k && self.chain(p)
    }

    /// The roots and everything that depends on them, directly or not.
    pub open spec fn reached(self, roots: Set<Key>) -> Set<Key> {
        Set::new(|k: Key| exists|p: Seq<Key>| self.leads(roots, p, k))
    }

    /// The index once it also holds what `k` reads.
    pub open spec fn with_reads(self, k: Key, reads: Seq<CellOrRange>) -> IndexView {
        IndexView {
            readers: Map::new(
                |c: Key| self.readers.contains_key(c) || reads.contains(CellOrRange::Cell(c)),
                |c: Key|
                    if reads.contains(CellOrRange::Cell(c)) {
                        self.readers_of(c).insert(k)
                    } else {
                        self.readers[c]
                    },
            ),
            ranges: Map::new(
                |s: u32|
                    self.ranges.contains_key(s) || exists|i: int|
                        0 <= i < reads.len() && range_on(#[trigger] reads[i], s),
                |s: u32| self.ranges_on(s) + deps_on(reads, s, k, self.generation(k)),
            ),
            ..self
        }
    }

    /// The index once what the cells of `gone` read has been forgotten: they are no readers
    /// any more, and their range entries are stale.
    pub open spec fn without(self, gone: Set<Key>, reads: spec_fn(Key) -> Seq<CellOrRange>) -> IndexView {
        IndexView {
            readers: Map::new(
                |c: Key| self.readers.contains_key(c),
                |c: Key|
                    self.readers[c].filter(
                        |d: Key| !(gone.contains(d) && reads(d).contains(CellOrRange::Cell(c))),
                    ),
            ),
            gen: Map::new(
                |k: Key| self.gen.contains_key(k) || gone.contains(k),
                |k: Key|
                    if gone.contains(k) {
                        (self.generation(k) + 1) as u32
                    } else {
                        self.gen[k]
                    },
            ),
            stale: self.stale + crate::sums::sum_over(|k: Key| range_count(reads(k)), gone),
            ..self
        }
    }

    /// How many range entries there are.
    pub open spec fn entry_count(self) -> nat {
        crate::sums::sum_over(|s: u32| self.ranges[s].len(), self.ranges.dom())
    }

    /// Whether stale entries dominate.
    pub open spec fn compaction_due(self) -> bool {
        self.stale >= 1024 && self.stale * 2 >= self.entry_count()
    }

    /// The index without its stale entries.
    pub open spec fn compacted(self) -> IndexView {
        IndexView {
            ranges: self.ranges.map_values(
                |list: Seq<RangeDep>| list.filter(|rd: RangeDep| self.live(rd)),
            ),
            stale: 0,
            ..self
        }
    }
}

impl Default for DependencyIndex {
    fn default() -> (index: Self)
        ensures
            index@ == IndexView::empty(),
    {
        let index = DependencyIndex {
            cells: CellMap::new(),
            ranges: HashMap::new(),
            gen: CellMap::new(),
            stale: 0,
            spill_areas: CellSet::new(),
            ready: false,
        };
        assert(index@ =~= IndexView::empty());
        index
    }
}

/// What one more read adds to the entries of each sheet.
pub(crate) proof fn lemma_deps_push(reads: Seq<CellOrRange>, p: CellOrRange, sheet: u32, k: Key, gen: u32)
    ensures
        deps_on(reads.push(p), sheet, k, gen) == if range_on(p, sheet) {
            deps_on(reads, sheet, k, gen).push(dep_of(p, k, gen))
        } else {
            deps_on(reads, sheet, k, gen)
        },
{
    reveal(Seq::filter);
    let more = reads.push(p);
    assert(more.drop_last() =~= reads);
    assert(more.last() == p);
    if range_on(p, sheet) {
        assert(deps_on(more, sheet, k, gen) =~= deps_on(reads, sheet, k, gen).push(
            dep_of(p, k, gen),
        ));
    }
}

/// What one more read adds to the count of ranges.
pub(crate) proof fn lemma_count_push(reads: Seq<CellOrRange>, p: CellOrRange)
    ensures
        range_count(reads.push(p)) == range_count(reads) + (if p is Range {
            1nat
        } else {
            0nat
        }),
{
    reveal(Seq::filter);
    let more = reads.push(p);
    assert(more.drop_last() =~= reads);
    assert(more.last() == p);
}

proof fn lemma_push_contains(seen: Seq<CellOrRange>, p: CellOrRange, q: CellOrRange)
    ensures
        seen.push(p).contains(q) <==> (p == q || seen.contains(q)),
{
    let more = seen.push(p);
    assert(more[seen.len() as int] == p);
    if seen.contains(q) {
        let i = seen.index_of(q);
        assert(more[i] == q);
    }
}

proof fn lemma_push_range(seen: Seq<CellOrRange>, p: CellOrRange, s: u32)
    ensures
        (exists|j: int| 0 <= j < seen.len() + 1 && range_on(#[trigger] seen.push(p)[j], s)) <==> (
        range_on(p, s) || exists|j: int| 0 <= j < seen.len() && range_on(#[trigger] seen[j], s)),
{
    let more = seen.push(p);
    assert(more[seen.len() as int] == p);
    if exists|j: int| 0 <= j < seen.len() && range_on(#[trigger] seen[j], s) {
        let j = choose|j: int| 0 <= j < seen.len() && range_on(#[trigger] seen[j], s);
        assert(more[j] == seen[j]);
    }
}

impl IndexView {
    /// The index once it also holds one read of `k`.
    spec fn with_read(self, k: Key, gen: u32, p: CellOrRange) -> IndexView {
        match p {
            CellOrRange::Cell(c) => IndexView {
                readers: self.readers.insert(c, self.readers_of(c).insert(k)),
                ..self
            },
            CellOrRange::Range(r) => IndexView {
                ranges: self.ranges.insert(r.0, self.ranges_on(r.0).push(dep_of(p, k, gen))),
                ..self
            },
        }
    }

    /// Reads can be indexed one after the other.
    proof fn lemma_with_one_more(self, k: Key, seen: Seq<CellOrRange>, p: CellOrRange)
        ensures
            self.with_reads(k, seen.push(p)) == self.with_reads(k, seen).with_read(
                k,
                self.generation(k),
                p,
            ),
    {
        let gen = self.generation(k);
        let more = seen.push(p);
        let now = self.with_reads(k, seen);
        let next = now.with_read(k, gen, p);
        let goal = self.with_reads(k, more);
        assert forall|c: Key| #[trigger]
            goal.readers.contains_key(c) == next.readers.contains_key(c) && (
            goal.readers.contains_key(c) ==> goal.readers[c] =~= next.readers[c]) by {
            lemma_push_contains(seen, p, CellOrRange::Cell(c));
        }
        assert(goal.readers =~= next.readers);
        assert forall|s: u32| #[trigger]
            goal.ranges.contains_key(s) == next.ranges.contains_key(s) && (
            goal.ranges.contains_key(s) ==> goal.ranges[s] =~= next.ranges[s]) by {
            lemma_push_range(seen, p, s);
            lemma_deps_push(seen, p, s, k, gen);
            lemma_no_deps(seen, s, k, gen);
        }
        assert(goal.ranges =~= next.ranges);
    }
}

/// A formula that reads no range of a sheet has no entries there.
pub(crate) proof fn lemma_no_deps(reads: Seq<CellOrRange>, sheet: u32, k: Key, gen: u32)
    ensures
        (forall|i: int| 0 <= i < reads.len() ==> !range_on(#[trigger] reads[i], sheet)) ==> deps_on(
            reads,
            sheet,
            k,
            gen,
        ).len() == 0,
    decreases reads.len(),
{
    reveal(Seq::filter);
    if reads.len() > 0 {
        let rest = reads.drop_last();
        lemma_no_deps(rest, sheet, k, gen);
        if forall|i: int| 0 <= i < reads.len() ==> !range_on(#[trigger] reads[i], sheet) {
            assert forall|i: int| 0 <= i < rest.len() implies !range_on(
                #[trigger] rest[i],
                sheet,
            ) by {
                assert(rest[i] == reads[i]);
            }
            assert(!range_on(reads.last(), sheet));
        }
    }
}

/// How many of the reads are ranges.
pub fn count_ranges(reads: &Vec<CellOrRange>) -> (n: usize)
    ensures
        n == range_count(reads@),
{
    let mut n: usize = 0;
    proof {
        reveal(Seq::filter);
        assert(reads@.take(0) =~= Seq::empty());
    }
    for i in 0..reads.len()
        invariant
            n == range_count(reads@.take(i as int)),
            n <= i,
    {
        proof {
            assert(reads@.take(i + 1) =~= reads@.take(i as int).push(reads@[i as int]));
            lemma_count_push(reads@.take(i as int), reads@[i as int]);
        }
        if let CellOrRange::Range(_) = reads[i] {
            n = n + 1;
        }
    }
    assert(reads@.take(reads@.len() as int) =~= reads@);
    n
}

impl DependencyIndex {
    /// The generation of a formula's range entries.
    pub fn generation(&self, k: Key) -> (gen: u32)
        ensures
            gen == self@.generation(k),
    {
        match self.gen.get(k) {
            Some(gen) => *gen,
            None => 0,
        }
    }

    /// Indexes what `k` reads.
    pub fn add_reads(&mut self, k: Key, reads: &Vec<CellOrRange>)
        ensures
            final(self)@ == old(self)@.with_reads(k, reads@),
    {
        let gen: u32 = self.generation(k);
        let ghost before = self@;
        proof {
            reveal(Seq::filter);
            assert(reads@.take(0) =~= Seq::empty());
            assert(self@ =~= before.with_reads(k, reads@.take(0)));
        }
        for i in 0..reads.len()
            invariant
                gen == before.generation(k),
                self@ == before.with_reads(k, reads@.take(i as int)),
        {
            let ghost seen = reads@.take(i as int);
            let ghost now = self@;
            let p = reads[i];
            proof {
                assert(reads@.take(i + 1) =~= seen.push(p));
                before.lemma_with_one_more(k, seen, p);
            }
            match p {
                CellOrRange::Cell(c) => {
                    let mut set = match self.cells.remove(c) {
                        Some(set) => set,
                        None => CellSet::new(),
                    };
                    set.insert(k);
                    self.cells.insert(c, set);
                    assert(self@ =~= now.with_read(k, gen, p));
                },
                CellOrRange::Range((sheet, r1, c1, r2, c2)) => {
                    let mut list = match self.ranges.remove(&sheet) {
                        Some(list) => list,
                        None => Vec::new(),
                    };
                    list.push(RangeDep { r1, c1, r2, c2, dependent: k, gen });
                    self.ranges.insert(sheet, list);
                    assert(self@ =~= now.with_read(k, gen, p));
                },
            }
        }
        assert(reads@.take(reads@.len() as int) =~= reads@);
    }

    /// Forgets what `k` read: it is no reader any more, and its range entries go stale.
    pub fn drop_reads(&mut self, k: Key, reads: &Vec<CellOrRange>)
        requires
            old(self)@.generation(k) < u32::MAX,
            old(self).stale + range_count(reads@) <= usize::MAX,
        ensures
            final(self)@ == old(self)@.without(set![k], |d: Key| reads@),
    {
        let ghost before = self@;
        let ranges: usize = count_ranges(reads);
        assert(self@ =~= before.minus_reader(k, reads@.take(0)));
        for i in 0..reads.len()
            invariant
                self@ == before.minus_reader(k, reads@.take(i as int)),
        {
            let ghost seen = reads@.take(i as int);
            let ghost now = self@;
            let p = reads[i];
            proof {
                assert(reads@.take(i + 1) =~= seen.push(p));
                assert forall|c: Key|
                    #![trigger seen.push(p).contains(CellOrRange::Cell(c))]
                    seen.push(p).contains(CellOrRange::Cell(c)) <==> (p == CellOrRange::Cell(c)
                        || seen.contains(CellOrRange::Cell(c))) by {
                    lemma_push_contains(seen, p, CellOrRange::Cell(c));
                }
            }
            match p {
                CellOrRange::Cell(c) => {
                    match self.cells.remove(c) {
                        Some(set) => {
                            let mut set = set;
                            set.remove(k);
                            self.cells.insert(c, set);
                            assert(self@ =~= IndexView {
                                readers: now.readers.insert(c, now.readers[c].remove(k)),
                                ..now
                            });
                        },
                        None => {
                            assert(self@ =~= now);
                        },
                    }
                },
                CellOrRange::Range(_) => {},
            }
            assert(self@ =~= before.minus_reader(k, reads@.take(i + 1))) by {
                let goal = before.minus_reader(k, seen.push(p));
                assert(self@.readers.dom() =~= goal.readers.dom());
                assert forall|c: Key| #[trigger] goal.readers.contains_key(c) implies self@.readers[c]
                    =~= goal.readers[c] by {}
                assert(self@.readers =~= goal.readers);
            }
        }
        assert(reads@.take(reads@.len() as int) =~= reads@);
        let ghost cut = self@;
        self.stale = self.stale + ranges;
        let gen: u32 = self.generation(k);
        self.gen.insert(k, gen + 1);
        proof {
            let goal = before.without(set![k], |d: Key| reads@);
            assert(self@.readers =~= cut.readers);
            assert(cut.readers.dom() =~= goal.readers.dom());
            assert forall|c: Key| #[trigger] goal.readers.contains_key(c) implies cut.readers[c]
                =~= goal.readers[c] by {
                assert(cut.readers.contains_key(c));
                assert(before.readers.contains_key(c));
            }
            assert(cut.readers =~= goal.readers);
            assert(self@.gen =~= goal.gen);
            let f = |d: Key| range_count((|d: Key| reads@)(d));
            crate::sums::lemma_sum_insert(f, Set::<Key>::empty(), k);
            assert(self@ =~= goal);
        }
    }

    /// How many range entries there are.
    fn count_entries(&self) -> (total: u128)
        ensures
            total == self@.entry_count(),
    {
        let sheets = self.sheets();
        let mut total: u128 = 0;
        let ghost f = |s: u32| self@.ranges[s].len();
        for i in 0..sheets.len()
            invariant
                sheets@.no_duplicates(),
                sheets@.to_set() == self@.ranges.dom(),
                f == (|s: u32| self@.ranges[s].len()),
                total == crate::sums::sum_over(f, sheets@.take(i as int).to_set()),
                total <= i * 0xffff_ffff_ffff_ffff,
        {
            let s: u32 = sheets[i];
            proof {
                let seen = sheets@.take(i as int);
                assert(sheets@.take(i + 1) =~= seen.push(s));
                seen.lemma_push_to_set_commute(s);
                assert(!seen.contains(s));
                vstd::seq_lib::seq_to_set_is_finite(seen);
                crate::sums::lemma_sum_insert(f, seen.to_set(), s);
                assert(sheets@.to_set().contains(s)) by {
                    assert(sheets@[i as int] == s);
                }
            }
            match self.ranges.get(&s) {
                Some(list) => {
                    assert(total + list.len() <= (i + 1) * 0xffff_ffff_ffff_ffff);
                    assert((i + 1) * 0xffff_ffff_ffff_ffff <= u128::MAX) by (nonlinear_arith)
                        requires
                            i + 1 <= 0xffff_ffff_ffff_ffff,
                    ;
                    total = total + list.len() as u128;
                },
                None => {},
            }
        }
        assert(sheets@.take(sheets@.len() as int) =~= sheets@);
        total
    }

    /// The entries of a list that are not stale, in order.
    fn keep_live(&self, list: &Vec<RangeDep>) -> (kept: Vec<RangeDep>)
        ensures
            kept@ == list@.filter(|rd: RangeDep| self@.live(rd)),
    {
        let mut kept: Vec<RangeDep> = Vec::new();
        let ghost live = |rd: RangeDep| self@.live(rd);
        proof {
            reveal(Seq::filter);
            assert(list@.take(0) =~= Seq::empty());
        }
        for i in 0..list.len()
            invariant
                live == (|rd: RangeDep| self@.live(rd)),
                kept@ == list@.take(i as int).filter(live),
        {
            let rd = list[i];
            proof {
                reveal(Seq::filter);
                assert(list@.take(i + 1).drop_last() =~= list@.take(i as int));
                assert(list@.take(i + 1).last() == rd);
            }
            if self.generation(rd.dependent) == rd.gen {
                kept.push(rd);
            }
        }
        assert(list@.take(list@.len() as int) =~= list@);
        kept
    }

    /// Drops the stale range entries once they dominate.
    pub fn compact(&mut self)
        ensures
            final(self)@ == if old(self)@.compaction_due() {
                old(self)@.compacted()
            } else {
                old(self)@
            },
    {
        let total: u128 = self.count_entries();
        if self.stale < 1024 || (self.stale as u128) * 2 < total {
            return;
        }
        let ghost before = self@;
        let sheets = self.sheets();
        for i in 0..sheets.len()
            invariant
                sheets@.no_duplicates(),
                sheets@.to_set() == before.ranges.dom(),
                self@ == (IndexView { ranges: self@.ranges, ..before }),
                self@.ranges.dom() == before.ranges.dom(),
                forall|j: int| 0 <= j < i ==> self@.ranges[#[trigger] sheets@[j]]
                    == before.compacted().ranges[sheets@[j]],
                forall|j: int| i <= j < sheets@.len() ==> self@.ranges[#[trigger] sheets@[j]]
                    == before.ranges[sheets@[j]],
        {
            let s: u32 = sheets[i];
            let ghost now = self@;
            proof {
                assert(sheets@[i as int] == s);
                assert(sheets@.to_set().contains(s));
            }
            match self.ranges.remove(&s) {
                Some(list) => {
                    let ghost mid = self@;
                    let kept = self.keep_live(&list);
                    proof {
                        assert(mid.gen == before.gen);
                        assert((|rd: RangeDep| mid.live(rd)) =~= (|rd: RangeDep| before.live(rd)));
                    }
                    self.ranges.insert(s, kept);
                    assert(self@.ranges =~= now.ranges.insert(s, kept@));
                },
                None => {},
            }
        }
        self.stale = 0;
        proof {
            let goal = before.compacted();
            assert(self@.ranges.dom() =~= goal.ranges.dom());
            assert forall|s: u32| #[trigger] goal.ranges.contains_key(s) implies self@.ranges[s]
                == goal.ranges[s] by {
                assert(sheets@.to_set().contains(s));
                let j = sheets@.index_of(s);
                assert(sheets@[j] == s);
            }
            assert(self@ =~= goal);
        }
    }

    /// The sheets that have range entries, once each.
    fn sheets(&self) -> (sheets: Vec<u32>)
        ensures
            sheets@.no_duplicates(),
            sheets@.to_set() == self@.ranges.dom(),
    {
        let mut sheets: Vec<u32> = Vec::new();
        for s in it: self.ranges.keys()
            invariant
                sheets@.len() == it.index(),
                sheets@ == it.seq().unref().take(it.index() as int),
                it.seq() == vstd::std_specs::iter::IteratorSpec::remaining(
                    &spec_keys_iter(&self.ranges),
                ),
        {
            sheets.push(*s);
        }
        proof {
            let all = vstd::std_specs::iter::IteratorSpec::remaining(&spec_keys_iter(&self.ranges));
            assert(sheets@ =~= all.unref());
            assert(self@.ranges.dom() =~= self.ranges@.dom());
        }
        sheets
    }
}

impl IndexView {
    /// The index with `k` no reader of the cells among some reads.
    spec fn minus_reader(self, k: Key, reads: Seq<CellOrRange>) -> IndexView {
        IndexView {
            readers: Map::new(
                |c: Key| self.readers.contains_key(c),
                |c: Key|
                    if reads.contains(CellOrRange::Cell(c)) {
                        self.readers[c].remove(k)
                    } else {
                        self.readers[c]
                    },
            ),
            ..self
        }
    }
}

impl IndexView {
    /// Forgetting nothing changes nothing.
    pub proof fn lemma_without_none(self, reads: spec_fn(Key) -> Seq<CellOrRange>)
        ensures
            self.without(Set::empty(), reads) == self,
    {
        let goal = self.without(Set::empty(), reads);
        assert forall|c: Key| #[trigger] self.readers.contains_key(c) implies self.readers[c]
            =~= goal.readers[c] by {}
        assert(self.readers =~= goal.readers);
        assert(self.gen =~= goal.gen);
        assert(self =~= goal);
    }

    /// Cells can be forgotten one after the other.
    pub proof fn lemma_without_one_more(
        self,
        gone: Set<Key>,
        k: Key,
        reads: spec_fn(Key) -> Seq<CellOrRange>,
        later: spec_fn(Key) -> Seq<CellOrRange>,
    )
        requires
            !gone.contains(k),
            later(k) == reads(k),
        ensures
            self.without(gone, reads).without(set![k], later) == self.without(
                gone.insert(k),
                reads,
            ),
    {
        let now = self.without(gone, reads);
        let next = now.without(set![k], later);
        let goal = self.without(gone.insert(k), reads);
        assert forall|c: Key| #[trigger] goal.readers.contains_key(c) implies next.readers[c]
            =~= goal.readers[c] by {
            assert(now.readers.contains_key(c));
        }
        assert(next.readers =~= goal.readers);
        assert(next.gen =~= goal.gen);
        let f = |d: Key| range_count(reads(d));
        let g = |d: Key| range_count(later(d));
        crate::key::lemma_keys_finite(gone);
        crate::sums::lemma_sum_insert(f, gone, k);
        crate::sums::lemma_sum_insert(g, Set::<Key>::empty(), k);
        assert(next =~= goal);
    }

    /// A formula that reads nothing adds nothing.
    pub proof fn lemma_with_no_reads(self, k: Key)
        ensures
            self.with_reads(k, Seq::empty()) == self,
    {
        reveal(Seq::filter);
        let goal = self.with_reads(k, Seq::empty());
        assert(self.readers =~= goal.readers);
        assert forall|s: u32| #[trigger] goal.ranges.contains_key(s) implies self.ranges[s]
            =~= goal.ranges[s] by {
            lemma_no_deps(Seq::empty(), s, k, self.generation(k));
        }
        assert(self.ranges =~= goal.ranges);
    }

    /// The index once it also holds what each cell of a list reads.
    pub open spec fn with_all(self, ks: Seq<Key>, reads: spec_fn(Key) -> Seq<CellOrRange>) -> IndexView
        decreases ks.len(),
    {
        if ks.len() == 0 {
            self
        } else {
            self.with_all(ks.drop_last(), reads).with_reads(ks.last(), reads(ks.last()))
        }
    }

    /// Indexing leaves everything but readers and ranges as it was.
    pub proof fn lemma_with_all_leaves(self, ks: Seq<Key>, reads: spec_fn(Key) -> Seq<CellOrRange>)
        ensures
            self.with_all(ks, reads) == (IndexView {
                readers: self.with_all(ks, reads).readers,
                ranges: self.with_all(ks, reads).ranges,
                ..self
            }),
        decreases ks.len(),
    {
        if ks.len() > 0 {
            self.lemma_with_all_leaves(ks.drop_last(), reads);
        }
    }

    /// What is kept when one formula is indexed, of which the index holds nothing yet, is
    /// kept when a list of them is.
    pub proof fn lemma_with_all_keeps(
        self,
        kept: spec_fn(IndexView, spec_fn(Key) -> Seq<CellOrRange>) -> bool,
        ks: Seq<Key>,
        reads: spec_fn(Key) -> Seq<CellOrRange>,
        now: spec_fn(Key) -> Seq<CellOrRange>,
    )
        requires
            kept(self, reads),
            ks.no_duplicates(),
            forall|k: Key| #[trigger] ks.contains(k) ==> reads(k) == Seq::<CellOrRange>::empty(),
            forall|v: IndexView, r: spec_fn(Key) -> Seq<CellOrRange>, k: Key|
                #![trigger kept(v, r), v.with_reads(k, now(k))]
                kept(v, r) && r(k) == Seq::<CellOrRange>::empty() ==> kept(
                    v.with_reads(k, now(k)),
                    reading(r, k, now(k)),
                ),
        ensures
            kept(self.with_all(ks, now), reading_all(reads, ks, now)),
        decreases ks.len(),
    {
        if ks.len() == 0 {
            assert(reading_all(reads, ks, now) =~= reads);
        } else {
            let rest = ks.drop_last();
            let k = ks.last();
            assert(ks[ks.len() - 1] == k);
            assert forall|d: Key| #[trigger] ks.contains(d) <==> d == k || rest.contains(d) by {
                if rest.contains(d) {
                    let i = rest.index_of(d);
                    assert(ks[i] == d);
                }
                if ks.contains(d) && d != k {
                    let i = ks.index_of(d);
                    assert(rest[i] == d);
                }
            }
            assert forall|d: Key| #[trigger] rest.contains(d) implies reads(d) == Seq::<
                CellOrRange,
            >::empty() by {
                assert(ks.contains(d));
            }
            self.lemma_with_all_keeps(kept, rest, reads, now);
            let before = reading_all(reads, rest, now);
            assert(ks.contains(k));
            assert(before(k) == Seq::<CellOrRange>::empty()) by {
                if rest.contains(k) {
                    let i = rest.index_of(k);
                    assert(ks[i] == ks[ks.len() - 1]);
                }
            }
            let v = self.with_all(rest, now);
            assert(kept(v.with_reads(k, now(k)), reading(before, k, now(k))));
            assert(reading(before, k, now(k)) =~= reading_all(reads, ks, now));
        }
    }
}

} // verus!
