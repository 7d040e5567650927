//! How stale range entries are counted.
use vstd::prelude::*;

use crate::incremental::RecalcAction;
use crate::index::{CellOrRange, IndexView, RangeDep};
use crate::key::Key;
use crate::model::Model;

verus! {

/// Conditions that agree on the members of a list pick the same ones.
proof fn lemma_filter_same<T>(list: Seq<T>, p: spec_fn(T) -> bool, q: spec_fn(T) -> bool)
    requires
        forall|i: int| 0 <= i < list.len() ==> p(#[trigger] list[i]) == q(list[i]),
    ensures
        list.filter(p) == list.filter(q),
    decreases list.len(),
{
    reveal(Seq::filter);
    if list.len() > 0 {
        let rest = list.drop_last();
        assert forall|i: int| 0 <= i < rest.len() implies p(#[trigger] rest[i]) == q(rest[i]) by {
            assert(rest[i] == list[i]);
        }
        lemma_filter_same(rest, p, q);
        assert(p(list[list.len() - 1]) == q(list[list.len() - 1]));
    }
}

/// Two conditions that exclude each other pick as many members as either of them.
proof fn lemma_filter_split<T>(
    list: Seq<T>,
    p: spec_fn(T) -> bool,
    q: spec_fn(T) -> bool,
    r: spec_fn(T) -> bool,
)
    requires
        forall|i: int|
            0 <= i < list.len() ==> p(#[trigger] list[i]) == (q(list[i]) || r(list[i])) && !(
            q(list[i]) && r(list[i])),
    ensures
        list.filter(p).len() == list.filter(q).len() + list.filter(r).len(),
    decreases list.len(),
{
    reveal(Seq::filter);
    if list.len() > 0 {
        let rest = list.drop_last();
        let last = list[list.len() - 1];
        assert forall|i: int| 0 <= i < rest.len() implies p(#[trigger] rest[i]) == (q(rest[i]) || r(
            rest[i],
        )) && !(q(rest[i]) && r(rest[i])) by {
            assert(rest[i] == list[i]);
        }
        lemma_filter_split(rest, p, q, r);
        assert(p(last) == (q(last) || r(last)) && !(q(last) && r(last)));
    }
}

/// A condition that holds of every member of a list picks all of them.
proof fn lemma_filter_all<T>(list: Seq<T>, p: spec_fn(T) -> bool)
    requires
        forall|i: int| 0 <= i < list.len() ==> p(#[trigger] list[i]),
    ensures
        list.filter(p) == list,
    decreases list.len(),
{
    reveal(Seq::filter);
    if list.len() > 0 {
        let rest = list.drop_last();
        assert forall|i: int| 0 <= i < rest.len() implies p(#[trigger] rest[i]) by {
            assert(rest[i] == list[i]);
        }
        lemma_filter_all(rest, p);
        assert(p(list[list.len() - 1]));
        assert(list.filter(p) =~= list);
    }
}

/// A condition that holds of no member of a list picks none.
proof fn lemma_filter_none<T>(list: Seq<T>, p: spec_fn(T) -> bool)
    requires
        forall|i: int| 0 <= i < list.len() ==> !p(#[trigger] list[i]),
    ensures
        list.filter(p).len() == 0,
    decreases list.len(),
{
    reveal(Seq::filter);
    if list.len() > 0 {
        let rest = list.drop_last();
        assert forall|i: int| 0 <= i < rest.len() implies !p(#[trigger] rest[i]) by {
            assert(rest[i] == list[i]);
        }
        lemma_filter_none(rest, p);
        assert(!p(list[list.len() - 1]));
    }
}

/// Picking twice is picking what meets both conditions.
proof fn lemma_filter_twice<T>(
    list: Seq<T>,
    p: spec_fn(T) -> bool,
    q: spec_fn(T) -> bool,
    both: spec_fn(T) -> bool,
)
    requires
        forall|x: T| #[trigger] both(x) == (p(x) && q(x)),
    ensures
        list.filter(p).filter(q) == list.filter(both),
    decreases list.len(),
{
    reveal(Seq::filter);
    if list.len() > 0 {
        let last = list[list.len() - 1];
        let rest = list.drop_last();
        lemma_filter_twice(rest, p, q, both);
        assert(both(last) == (p(last) && q(last)));
        if p(last) {
            let picked = list.filter(p);
            assert(picked.drop_last() =~= rest.filter(p));
            assert(picked.last() == last);
        }
    }
}

impl IndexView {
    /// How many range entries, of all sheets, meet a condition.
    pub open spec fn entries_with(self, p: spec_fn(RangeDep) -> bool) -> nat {
        crate::sums::sum_over(|s: u32| self.ranges_on(s).filter(p).len(), Set::full())
    }

    /// How many range entries are stale.
    pub open spec fn stale_entries(self) -> nat {
        self.entries_with(|rd: RangeDep| !self.live(rd))
    }

    /// How many range entries of a formula are not stale.
    pub open spec fn live_entries(self, d: Key) -> nat {
        self.entries_with(|rd: RangeDep| rd.dependent == d && self.live(rd))
    }

    /// Whether the count of stale entries is right, and each formula has as many other
    /// entries as it reads ranges.
    pub open spec fn counted(self, reads: spec_fn(Key) -> Seq<CellOrRange>) -> bool {
        &&& self.stale == self.stale_entries()
        &&& forall|d: Key| #[trigger]
            self.live_entries(d) == crate::index::range_count(reads(d))
    }
}

/// Indexes with as many entries on each sheet have as many in all.
proof fn lemma_entries_same(
    a: IndexView,
    p: spec_fn(RangeDep) -> bool,
    b: IndexView,
    q: spec_fn(RangeDep) -> bool,
)
    requires
        forall|s: u32|
            (#[trigger] a.ranges_on(s)).filter(p).len() == b.ranges_on(s).filter(q).len(),
    ensures
        a.entries_with(p) == b.entries_with(q),
{
    crate::key::lemma_sheets_finite(Set::full());
    let f = |s: u32| a.ranges_on(s).filter(p).len();
    let g = |s: u32| b.ranges_on(s).filter(q).len();
    assert forall|s: u32| #[trigger] f(s) == g(s) by {
        assert(a.ranges_on(s).filter(p).len() == b.ranges_on(s).filter(q).len());
    }
    crate::sums::lemma_sum_same(f, g, Set::full());
}

/// The entries made for a formula are as many as the ranges it reads.
pub(crate) proof fn lemma_deps_total(reads: Seq<CellOrRange>, k: Key, gen: u32)
    ensures
        crate::sums::sum_over(
            |s: u32| crate::index::deps_on(reads, s, k, gen).len(),
            Set::full(),
        ) == crate::index::range_count(reads),
    decreases reads.len(),
{
    crate::key::lemma_sheets_finite(Set::full());
    let f = |s: u32| crate::index::deps_on(reads, s, k, gen).len();
    if reads.len() == 0 {
        reveal(Seq::filter);
        crate::sums::lemma_sum_support(f, Set::empty(), Set::full());
    } else {
        let rest = reads.drop_last();
        let p = reads[reads.len() - 1];
        let g = |s: u32| crate::index::deps_on(rest, s, k, gen).len();
        lemma_deps_total(rest, k, gen);
        assert(reads =~= rest.push(p));
        crate::index::lemma_count_push(rest, p);
        assert forall|s: u32| #[trigger]
            f(s) == g(s) + (if crate::index::range_on(p, s) {
                1nat
            } else {
                0nat
            }) by {
            crate::index::lemma_deps_push(rest, p, s, k, gen);
        }
        if p is Range {
            let s = p->Range_0.0;
            let others = Set::<u32>::full().remove(s);
            crate::sums::lemma_sum_remove(f, Set::full(), s);
            crate::sums::lemma_sum_remove(g, Set::full(), s);
            assert forall|t: u32| others.contains(t) implies #[trigger] f(t) == g(t) by {
                assert(!crate::index::range_on(p, t));
            }
            crate::sums::lemma_sum_same(f, g, others);
        } else {
            crate::sums::lemma_sum_same(f, g, Set::full());
        }
    }
}

/// Indexing what a formula reads, when the index holds nothing of it yet, keeps the count
/// right.
pub proof fn law_indexing_keeps_count(
    v: IndexView,
    reads: spec_fn(Key) -> Seq<CellOrRange>,
    k: Key,
    now: Seq<CellOrRange>,
)
    requires
        v.counted(reads),
        reads(k) == Seq::<CellOrRange>::empty(),
    ensures
        v.with_reads(k, now).counted(crate::index::reading(reads, k, now)),
{
    let next = v.with_reads(k, now);
    let gen = v.generation(k);
    let reads2 = crate::index::reading(reads, k, now);
    assert forall|rd: RangeDep| #[trigger] next.live(rd) == v.live(rd) by {}
    let old_stale = |rd: RangeDep| !v.live(rd);
    let new_stale = |rd: RangeDep| !next.live(rd);
    assert(old_stale =~= new_stale);
    assert forall|s: u32|
        (#[trigger] next.ranges_on(s)).filter(new_stale).len() == v.ranges_on(s).filter(
            old_stale,
        ).len() by {
        crate::laws::lemma_with_ranges_on(v, k, now, s);
        crate::laws::lemma_deps_members(now, s, k, gen);
        let deps = crate::index::deps_on(now, s, k, gen);
        Seq::filter_distributes_over_add(v.ranges_on(s), deps, new_stale);
        assert forall|i: int| 0 <= i < deps.len() implies !new_stale(#[trigger] deps[i]) by {
            assert(deps[i].dependent == k && deps[i].gen == gen);
        }
        lemma_filter_none(deps, new_stale);
    }
    lemma_entries_same(next, new_stale, v, old_stale);
    assert forall|d: Key| #[trigger]
        next.live_entries(d) == crate::index::range_count(reads2(d)) by {
        let was = |rd: RangeDep| rd.dependent == d && v.live(rd);
        let mine_now = |rd: RangeDep| rd.dependent == d && next.live(rd);
        assert(was =~= mine_now);
        assert(v.live_entries(d) == crate::index::range_count(reads(d)));
        let f = |s: u32| next.ranges_on(s).filter(mine_now).len();
        let g = |s: u32| v.ranges_on(s).filter(was).len();
        let h = |s: u32| crate::index::deps_on(now, s, k, gen).len();
        assert forall|s: u32| #[trigger]
            f(s) == g(s) + (if d == k {
                h(s)
            } else {
                0nat
            }) by {
            crate::laws::lemma_with_ranges_on(v, k, now, s);
            crate::laws::lemma_deps_members(now, s, k, gen);
            let deps = crate::index::deps_on(now, s, k, gen);
            Seq::filter_distributes_over_add(v.ranges_on(s), deps, mine_now);
            if d == k {
                assert forall|i: int| 0 <= i < deps.len() implies mine_now(#[trigger] deps[i]) by {
                    assert(deps[i].dependent == k && deps[i].gen == gen);
                }
                lemma_filter_all(deps, mine_now);
            } else {
                assert forall|i: int| 0 <= i < deps.len() implies !mine_now(#[trigger] deps[i]) by {
                    assert(deps[i].dependent == k);
                }
                lemma_filter_none(deps, mine_now);
            }
        }
        crate::key::lemma_sheets_finite(Set::full());
        if d == k {
            crate::sums::lemma_sum_split(f, g, h, Set::full());
            lemma_deps_total(now, k, gen);
            reveal(Seq::filter);
        } else {
            crate::sums::lemma_sum_same(f, g, Set::full());
        }
    }
}

/// Indexing what a list of formulas reads, when the index holds nothing of them yet, keeps
/// the count right.
pub proof fn law_indexing_all_keeps_count(
    v: IndexView,
    ks: Seq<Key>,
    reads: spec_fn(Key) -> Seq<CellOrRange>,
    now: spec_fn(Key) -> Seq<CellOrRange>,
)
    requires
        v.counted(reads),
        ks.no_duplicates(),
        forall|k: Key| #[trigger] ks.contains(k) ==> reads(k) == Seq::<CellOrRange>::empty(),
    ensures
        v.with_all(ks, now).counted(crate::index::reading_all(reads, ks, now)),
{
    let kept = |w: IndexView, r: spec_fn(Key) -> Seq<CellOrRange>| w.counted(r);
    assert forall|w: IndexView, r: spec_fn(Key) -> Seq<CellOrRange>, k: Key|
        #![trigger kept(w, r), w.with_reads(k, now(k))]
        kept(w, r) && r(k) == Seq::<CellOrRange>::empty() implies kept(
        w.with_reads(k, now(k)),
        crate::index::reading(r, k, now(k)),
    ) by {
        law_indexing_keeps_count(w, r, k, now(k));
    }
    v.lemma_with_all_keeps(kept, ks, reads, now);
}

/// Forgetting what one cell read keeps the count right.
proof fn lemma_forgetting_one(
    v: IndexView,
    reads: spec_fn(Key) -> Seq<CellOrRange>,
    k: Key,
)
    requires
        v.faithful(reads),
        v.counted(reads),
        v.generation(k) < u32::MAX,
    ensures
        v.without(set![k], reads).counted(
            |d: Key|
                if d == k {
                    Seq::empty()
                } else {
                    reads(d)
                },
        ),
{
    let next = v.without(set![k], reads);
    let reads2 = |d: Key|
        if d == k {
            Seq::empty()
        } else {
            reads(d)
        };
    assert forall|s: u32, i: int| 0 <= i < v.ranges_on(s).len() implies next.live(
        #[trigger] v.ranges_on(s)[i],
    ) == (v.live(v.ranges_on(s)[i]) && v.ranges_on(s)[i].dependent != k) by {
        assert(v.entry_true(s, v.ranges_on(s)[i], reads));
    }
    let old_stale = |rd: RangeDep| !v.live(rd);
    let new_stale = |rd: RangeDep| !next.live(rd);
    let mine = |rd: RangeDep| rd.dependent == k && v.live(rd);
    let f = |s: u32| next.ranges_on(s).filter(new_stale).len();
    let g = |s: u32| v.ranges_on(s).filter(old_stale).len();
    let h = |s: u32| v.ranges_on(s).filter(mine).len();
    assert forall|s: u32| #[trigger] f(s) == g(s) + h(s) by {
        assert(next.ranges_on(s) == v.ranges_on(s));
        lemma_filter_split(v.ranges_on(s), new_stale, old_stale, mine);
    }
    crate::key::lemma_sheets_finite(Set::full());
    crate::sums::lemma_sum_split(f, g, h, Set::full());
    let r = |d: Key| crate::index::range_count(reads(d));
    crate::sums::lemma_sum_insert(r, Set::<Key>::empty(), k);
    assert(Set::<Key>::empty().insert(k) =~= set![k]);
    assert(v.live_entries(k) == crate::index::range_count(reads(k)));
    assert(next.stale == next.stale_entries());
    assert forall|d: Key| #[trigger]
        next.live_entries(d) == crate::index::range_count(reads2(d)) by {
        let was = |rd: RangeDep| rd.dependent == d && v.live(rd);
        let mine_now = |rd: RangeDep| rd.dependent == d && next.live(rd);
        if d == k {
            let e = |s: u32| next.ranges_on(s).filter(mine_now).len();
            assert forall|s: u32| #[trigger] e(s) == 0 by {
                assert(next.ranges_on(s) == v.ranges_on(s));
                lemma_filter_none(v.ranges_on(s), mine_now);
            }
            crate::sums::lemma_sum_support(e, Set::empty(), Set::full());
            reveal(Seq::filter);
        } else {
            assert forall|s: u32|
                (#[trigger] next.ranges_on(s)).filter(mine_now).len() == v.ranges_on(s).filter(
                    was,
                ).len() by {
                assert(next.ranges_on(s) == v.ranges_on(s));
                lemma_filter_same(v.ranges_on(s), mine_now, was);
            }
            lemma_entries_same(next, mine_now, v, was);
            assert(v.live_entries(d) == crate::index::range_count(reads(d)));
        }
    }
}

/// Forgetting what some cells read keeps the count right: each range they read leaves one
/// stale entry.
pub proof fn law_forgetting_keeps_count(
    v: IndexView,
    reads: spec_fn(Key) -> Seq<CellOrRange>,
    gone: Set<Key>,
)
    requires
        v.faithful(reads),
        v.counted(reads),
        forall|k: Key| #[trigger] gone.contains(k) ==> v.generation(k) < u32::MAX,
    ensures
        v.without(gone, reads).counted(
            |d: Key|
                if gone.contains(d) {
                    Seq::empty()
                } else {
                    reads(d)
                },
        ),
    decreases gone.len(),
{
    let reads2 = |d: Key|
        if gone.contains(d) {
            Seq::empty()
        } else {
            reads(d)
        };
    crate::key::lemma_keys_finite(gone);
    if gone.len() == 0 {
        assert(gone =~= Set::empty());
        v.lemma_without_none(reads);
        assert(reads2 =~= reads);
    } else {
        let k = gone.choose();
        assert(gone.contains(k));
        let less = gone.remove(k);
        law_forgetting_keeps_count(v, reads, less);
        crate::laws::law_forgetting_keeps_faithful(v, reads, less);
        let reads1 = |d: Key|
            if less.contains(d) {
                Seq::empty()
            } else {
                reads(d)
            };
        let now = v.without(less, reads);
        lemma_forgetting_one(now, reads1, k);
        v.lemma_without_one_more(less, k, reads, reads1);
        assert(less.insert(k) =~= gone);
        let reads3 = |d: Key|
            if d == k {
                Seq::empty()
            } else {
                reads1(d)
            };
        assert(reads3 =~= reads2);
    }
}

/// Compaction comes once stale entries are many and at least half of all; it drops as many
/// entries as were stale, and keeps the count right.
pub proof fn law_compaction_drops_the_stale(
    v: IndexView,
    reads: spec_fn(Key) -> Seq<CellOrRange>,
)
    requires
        v.counted(reads),
    ensures
        v.compaction_due() <==> v.stale_entries() >= 1024 && v.stale_entries() * 2
            >= v.entry_count(),
        v.compacted().counted(reads),
        v.compacted().entry_count() + v.stale == v.entry_count(),
{
    let next = v.compacted();
    let live = |rd: RangeDep| v.live(rd);
    let old_stale = |rd: RangeDep| !v.live(rd);
    let new_stale = |rd: RangeDep| !next.live(rd);
    assert(old_stale =~= new_stale);
    crate::key::lemma_sheets_finite(Set::full());
    let e = |s: u32| next.ranges_on(s).filter(new_stale).len();
    assert forall|s: u32| #[trigger] e(s) == 0 by {
        crate::laws::lemma_compacted_ranges_on(v, s);
        let never = |rd: RangeDep| v.live(rd) && !v.live(rd);
        lemma_filter_twice(v.ranges_on(s), live, new_stale, never);
        lemma_filter_none(v.ranges_on(s), never);
    }
    crate::sums::lemma_sum_support(e, Set::empty(), Set::full());
    assert forall|d: Key| #[trigger]
        next.live_entries(d) == crate::index::range_count(reads(d)) by {
        let was = |rd: RangeDep| rd.dependent == d && v.live(rd);
        let mine_now = |rd: RangeDep| rd.dependent == d && next.live(rd);
        assert(was =~= mine_now);
        assert forall|s: u32|
            (#[trigger] next.ranges_on(s)).filter(mine_now).len() == v.ranges_on(s).filter(
                was,
            ).len() by {
            crate::laws::lemma_compacted_ranges_on(v, s);
            lemma_filter_twice(v.ranges_on(s), live, mine_now, was);
        }
        lemma_entries_same(next, mine_now, v, was);
        assert(v.live_entries(d) == crate::index::range_count(reads(d)));
    }
    let sheets = v.ranges.dom();
    crate::key::lemma_sheets_finite(sheets);
    assert(next.ranges.dom() =~= sheets);
    let all = |s: u32| v.ranges[s].len();
    let kept = |s: u32| next.ranges[s].len();
    let dropped = |s: u32| v.ranges_on(s).filter(old_stale).len();
    assert forall|s: u32| sheets.contains(s) implies #[trigger] all(s) == kept(s) + dropped(s) by {
        crate::laws::lemma_compacted_ranges_on(v, s);
        let any = |rd: RangeDep| true;
        lemma_filter_all(v.ranges_on(s), any);
        lemma_filter_split(v.ranges_on(s), any, live, old_stale);
    }
    crate::sums::lemma_sum_split(all, kept, dropped, sheets);
    assert forall|s: u32| !sheets.contains(s) implies #[trigger] dropped(s) == 0 by {
        lemma_filter_none(v.ranges_on(s), old_stale);
    }
    crate::sums::lemma_sum_support(dropped, sheets, Set::full());
}

impl Model {
    /// Whether the index counts its stale entries right.
    pub open spec fn stale_counted(self) -> bool {
        self.index@.counted(|k: Key| self.reads(k))
    }
}

/// The index that a full evaluation builds counts its stale entries right: there are none.
pub proof fn law_built_index_has_nothing_stale(m: Model, after: Model)
    requires
        m.indexes_support(after.index@),
        after.support == m.support,
    ensures
        after.stale_counted(),
        after.index@.stale_entries() == 0,
{
    let index = after.index@;
    let ks = choose|ks: Seq<Key>|
        ks.no_duplicates() && ks.to_set() == m.support@.dom() && index
            == #[trigger] m.index_in_order(ks);
    let none = |k: Key| Seq::<CellOrRange>::empty();
    let now = |k: Key| m.reads(k);
    let start = IndexView::empty();
    lemma_empty_counted(none);
    law_indexing_all_keeps_count(start, ks, none, now);
    let got = crate::index::reading_all(none, ks, now);
    assert forall|d: Key| #[trigger] got(d) == now(d) by {
        assert(ks.to_set().contains(d) <==> m.support@.contains_key(d));
    }
    assert(got =~= now);
    start.lemma_with_all_leaves(ks, now);
    lemma_same_entries_counted(start.with_all(ks, now), index, now);
    assert((|k: Key| after.reads(k)) =~= now);
}

/// An index without entries is counted right.
proof fn lemma_empty_counted(none: spec_fn(Key) -> Seq<CellOrRange>)
    requires
        forall|k: Key| #[trigger] none(k) == Seq::<CellOrRange>::empty(),
    ensures
        IndexView::empty().counted(none),
{
    let v = IndexView::empty();
    crate::key::lemma_sheets_finite(Set::full());
    assert forall|p: spec_fn(RangeDep) -> bool| #[trigger] v.entries_with(p) == 0 by {
        let f = |s: u32| v.ranges_on(s).filter(p).len();
        assert forall|s: u32| #[trigger] f(s) == 0 by {
            lemma_filter_none(v.ranges_on(s), p);
        }
        crate::sums::lemma_sum_support(f, Set::empty(), Set::full());
    }
    reveal(Seq::filter);
}

/// An index with the same entries is counted as right.
proof fn lemma_same_entries_counted(
    a: IndexView,
    b: IndexView,
    reads: spec_fn(Key) -> Seq<CellOrRange>,
)
    requires
        a.counted(reads),
        b.stale == a.stale,
        b.ranges == a.ranges,
        b.gen == a.gen,
    ensures
        b.counted(reads),
{
    assert((|rd: RangeDep| !a.live(rd)) =~= (|rd: RangeDep| !b.live(rd)));
    lemma_entries_same(b, |rd: RangeDep| !b.live(rd), a, |rd: RangeDep| !a.live(rd));
    assert forall|d: Key| #[trigger]
        b.live_entries(d) == crate::index::range_count(reads(d)) by {
        let p = |rd: RangeDep| rd.dependent == d && a.live(rd);
        let q = |rd: RangeDep| rd.dependent == d && b.live(rd);
        assert(p =~= q);
        lemma_entries_same(b, q, a, p);
        assert(a.live_entries(d) == crate::index::range_count(reads(d)));
    }
}

/// An incremental recalculation keeps the count of stale entries right, whatever the visited
/// cells read now, as long as evaluating them records reads for no other cell.
pub proof fn law_recalculation_counts_stale_entries(
    m: Model,
    mid: Model,
    evaluated: Model,
    after: Model,
    visited: Vec<Key>,
    cells: usize,
)
    requires
        m.index_faithful(),
        m.stale_counted(),
        m.can_forget(m.touched()),
        m.begins(mid, (RecalcAction::EvaluateCells { visited })),
        evaluated.index@ == mid.index@,
        forall|k: Key| !visited@.contains(k) ==> #[trigger] evaluated.reads(k) == mid.reads(k),
        evaluated.goes_on(
            visited@,
            after,
            (RecalcAction::EvaluateConditionalFormatting { cells }),
        ),
    ensures
        mid.stale_counted(),
        after.stale_counted(),
{
    let gone = m.touched();
    let reads = |d: Key| m.reads(d);
    law_forgetting_keeps_count(m.index@, reads, gone);
    let taken = Model { dirty: mid.dirty, ..m };
    assert((|d: Key| taken.reads(d)) =~= reads);
    let left = |d: Key|
        if gone.contains(d) {
            Seq::empty()
        } else {
            reads(d)
        };
    let before = |d: Key| mid.reads(d);
    assert forall|d: Key| #[trigger] before(d) == left(d) by {
        assert(mid.support@.contains_key(d) <==> m.support@.contains_key(d) && !gone.contains(d));
    }
    assert(before =~= left);
    let now = |d: Key| evaluated.reads(d);
    assert forall|k: Key| #[trigger] visited@.contains(k) implies before(k) == Seq::<
        CellOrRange,
    >::empty() by {
        assert(visited@.to_set().contains(k));
    }
    law_indexing_all_keeps_count(mid.index@, visited@, before, now);
    let got = crate::index::reading_all(before, visited@, now);
    let last = |d: Key| after.reads(d);
    assert forall|d: Key| #[trigger] got(d) == last(d) by {
        assert(evaluated.reads(d) == after.reads(d));
        if !visited@.contains(d) {
            assert(evaluated.reads(d) == mid.reads(d));
        }
    }
    assert(got =~= last);
    law_compaction_drops_the_stale(evaluated.index@.with_all(visited@, now), last);
}

} // verus!
