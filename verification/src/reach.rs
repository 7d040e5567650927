//! Following the dependency index from changed cells to everything they can change.
use vstd::prelude::*;
use vstd::std_specs::hash::*;

use crate::cell_map::CellSet;
use crate::index::DependencyIndex;
use crate::key::Key;

verus! {

broadcast use group_hash_axioms;

impl crate::index::IndexView {
    /// A root is reached.
    pub proof fn lemma_root_reached(self, roots: Set<Key>, k: Key)
        requires
            roots.contains(k),
        ensures
            self.reached(roots).contains(k),
    {
        let p = seq![k];
        assert(self.leads(roots, p, k));
    }

    /// What depends on a reached cell is reached.
    pub proof fn lemma_dependent_reached(self, roots: Set<Key>, k: Key, d: Key)
        requires
            self.reached(roots).contains(k),
            self.depends(d, k),
        ensures
            self.reached(roots).contains(d),
    {
        let p = choose|p: Seq<Key>| self.leads(roots, p, k);
        let q = p.push(d);
        assert forall|i: int| 0 <= i < q.len() - 1 implies self.depends(q[i + 1], #[trigger] q[i]) by {
            if i < p.len() - 1 {
                assert(self.depends(p[i + 1], p[i]));
            }
        }
        assert(q[0] == p[0]);
        assert(self.leads(roots, q, d));
    }

    /// A set that holds the roots, and what depends on its members, holds everything reached.
    pub proof fn lemma_reached_least(self, roots: Set<Key>, s: Set<Key>)
        requires
            roots.subset_of(s),
            forall|k: Key, d: Key| s.contains(k) && #[trigger] self.depends(d, k) ==> s.contains(d),
        ensures
            self.reached(roots).subset_of(s),
    {
        assert forall|k: Key| self.reached(roots).contains(k) implies s.contains(k) by {
            let p = choose|p: Seq<Key>| self.leads(roots, p, k);
            self.lemma_chain_inside(roots, s, p, p.len() - 1);
        }
    }

    proof fn lemma_chain_inside(self, roots: Set<Key>, s: Set<Key>, p: Seq<Key>, i: int)
        requires
            roots.subset_of(s),
            forall|k: Key, d: Key| s.contains(k) && #[trigger] self.depends(d, k) ==> s.contains(d),
            p.len() > 0,
            roots.contains(p[0]),
            self.chain(p),
            0 <= i < p.len(),
        ensures
            s.contains(p[i]),
        decreases i,
    {
        if i > 0 {
            self.lemma_chain_inside(roots, s, p, i - 1);
            assert(self.depends(p[i - 1 + 1], p[i - 1]));
        }
    }
}

/// Whether a cell is in a list or in a set.
spec fn pending(visited: Set<Key>, queue: Seq<Key>, k: Key) -> bool {
    visited.contains(k) || queue.contains(k)
}

/// A longer list holds what the shorter one did, and the new cell.
proof fn lemma_push_holds(queue: Seq<Key>, x: Key)
    ensures
        forall|k: Key| #[trigger] queue.push(x).contains(k) <==> k == x || queue.contains(k),
{
    assert(queue.push(x)[queue.len() as int] == x);
    assert forall|k: Key| queue.contains(k) implies #[trigger] queue.push(x).contains(k) by {
        let i = queue.index_of(k);
        assert(queue.push(x)[i] == k);
    }
}

impl DependencyIndex {
    /// Appends the cells that depend on `k` directly.
    fn push_dependents(&self, k: Key, queue: &mut Vec<Key>)
        ensures
            forall|d: Key| #[trigger]
                final(queue)@.contains(d) <==> old(queue)@.contains(d) || self@.depends(d, k),
    {
        let ghost queue0 = queue@;
        match self.cells.get(k) {
            Some(readers) => {
                let list = readers.to_vec();
                for i in 0..list.len()
                    invariant
                        forall|d: Key| #[trigger]
                            queue@.contains(d) <==> queue0.contains(d) || list@.take(
                                i as int,
                            ).contains(d),
                {
                    proof {
                        lemma_push_holds(queue@, list@[i as int]);
                        assert(list@.take(i + 1) =~= list@.take(i as int).push(list@[i as int]));
                        lemma_push_holds(list@.take(i as int), list@[i as int]);
                    }
                    queue.push(list[i]);
                }
                proof {
                    assert(list@.take(list@.len() as int) =~= list@);
                    assert forall|d: Key| list@.contains(d) <==> self@.readers_of(k).contains(d) by {
                        assert(list@.to_set().contains(d) <==> readers@.contains(d));
                    }
                }
            },
            None => {},
        }
        let ghost queue1 = queue@;
        assert forall|d: Key| #[trigger]
            queue1.contains(d) <==> queue0.contains(d) || self@.readers_of(k).contains(d) by {}
        match self.ranges.get(&k.0) {
            Some(list) => {
                assert(self@.ranges_on(k.0) == list@);
                for i in 0..list.len()
                    invariant
                        forall|d: Key| #[trigger]
                            queue@.contains(d) <==> queue1.contains(d) || exists|j: int|
                                0 <= j < i && self.entry_hits(#[trigger] list@[j], k)
                                    && list@[j].dependent == d,
                {
                    let rd = list[i];
                    let hit = rd.r1 <= k.1 && k.1 <= rd.r2 && rd.c1 <= k.2 && k.2 <= rd.c2
                        && self.generation(rd.dependent) == rd.gen;
                    assert(hit == self.entry_hits(rd, k));
                    if hit {
                        proof {
                            lemma_push_holds(queue@, rd.dependent);
                        }
                        queue.push(rd.dependent);
                    }
                }
                assert forall|d: Key| #[trigger] queue@.contains(d) <==> queue0.contains(d)
                    || self@.depends(d, k) by {
                    if exists|j: int|
                        0 <= j < list@.len() && self.entry_hits(#[trigger] list@[j], k)
                            && list@[j].dependent == d {
                        let j = choose|j: int|
                            0 <= j < list@.len() && self.entry_hits(#[trigger] list@[j], k)
                                && list@[j].dependent == d;
                        assert(self@.ranges_on(k.0)[j].covers(k));
                    }
                }
            },
            None => {},
        }
    }

    /// Whether a range entry makes its dependent depend on `k`.
    spec fn entry_hits(&self, rd: crate::index::RangeDep, k: Key) -> bool {
        rd.covers(k) && self@.live(rd)
    }

    /// The cells of `roots` and every cell that depends on one of them, directly or not,
    /// once each.
    pub fn reach(&self, roots: Vec<Key>) -> (order: Vec<Key>)
        ensures
            order@.no_duplicates(),
            order@.to_set() == self@.reached(roots@.to_set()),
    {
        let ghost start = roots@.to_set();
        let mut queue: Vec<Key> = roots;
        let mut visited = CellSet::new();
        let mut order: Vec<Key> = Vec::new();
        proof {
            assert(order@.to_set() =~= visited@);
            assert forall|k: Key| queue@.contains(k) implies self@.reached(start).contains(k) by {
                self@.lemma_root_reached(start, k);
            }
            assert forall|k: Key| start.contains(k) implies pending(visited@, queue@, k) by {}
        }
        while queue.len() > 0
            invariant
                order@.no_duplicates(),
                order@.to_set() == visited@,
                forall|k: Key| #[trigger] start.contains(k) ==> pending(visited@, queue@, k),
                forall|k: Key| #[trigger] queue@.contains(k) ==> self@.reached(start).contains(k),
                forall|k: Key| #[trigger] visited@.contains(k) ==> self@.reached(start).contains(k),
                forall|k: Key, d: Key|
                    visited@.contains(k) && #[trigger] self@.depends(d, k) ==> pending(
                        visited@,
                        queue@,
                        d,
                    ),
            decreases Set::<Key>::full().difference(visited@).len(), queue@.len(),
        {
            let ghost queue0 = queue@;
            let ghost visited0 = visited@;
            let k: Key = queue[queue.len() - 1];
            queue.pop();
            proof {
                assert(queue0 =~= queue@.push(k));
                lemma_push_holds(queue@, k);
                assert(queue0.contains(k));
                crate::key::lemma_keys_finite(Set::full().difference(visited0));
            }
            if visited.insert(k) {
                proof {
                    assert(Set::<Key>::full().difference(visited@) =~= Set::full().difference(
                        visited0,
                    ).remove(k));
                    assert(Set::<Key>::full().difference(visited0).contains(k));
                    order@.lemma_push_to_set_commute(k);
                    assert(!order@.to_set().contains(k));
                }
                order.push(k);
                let ghost queue1 = queue@;
                self.push_dependents(k, &mut queue);
                proof {
                    assert forall|d: Key| #[trigger] queue@.contains(d) implies self@.reached(
                        start,
                    ).contains(d) by {
                        if !queue1.contains(d) {
                            self@.lemma_dependent_reached(start, k, d);
                        } else {
                            assert(queue0.contains(d));
                        }
                    }
                    assert forall|j: Key, d: Key|
                        visited@.contains(j) && #[trigger] self@.depends(d, j) implies pending(
                        visited@,
                        queue@,
                        d,
                    ) by {
                        if j != k {
                            assert(pending(visited0, queue0, d));
                            if queue0.contains(d) && d != k {
                                assert(queue1.contains(d));
                            }
                        }
                    }
                    assert forall|j: Key| #[trigger] start.contains(j) implies pending(
                        visited@,
                        queue@,
                        j,
                    ) by {
                        assert(pending(visited0, queue0, j));
                        if queue0.contains(j) && j != k {
                            assert(queue1.contains(j));
                        }
                    }
                }
            } else {
                proof {
                    assert(visited@ =~= visited0);
                    assert forall|j: Key, d: Key|
                        visited@.contains(j) && #[trigger] self@.depends(d, j) implies pending(
                        visited@,
                        queue@,
                        d,
                    ) by {
                        assert(pending(visited0, queue0, d));
                    }
                    assert forall|j: Key| #[trigger] start.contains(j) implies pending(
                        visited@,
                        queue@,
                        j,
                    ) by {
                        assert(pending(visited0, queue0, j));
                    }
                    assert forall|d: Key| #[trigger] queue@.contains(d) implies self@.reached(
                        start,
                    ).contains(d) by {
                        assert(queue0.contains(d));
                    }
                }
            }
        }
        proof {
            assert forall|k: Key| !queue@.contains(k) by {}
            assert forall|k: Key, d: Key|
                visited@.contains(k) && #[trigger] self@.depends(d, k) implies visited@.contains(
                d,
            ) by {
                assert(pending(visited@, queue@, d));
            }
            assert forall|k: Key| start.contains(k) implies visited@.contains(k) by {
                assert(pending(visited@, queue@, k));
            }
            self@.lemma_reached_least(start, visited@);
            assert(order@.to_set() =~= self@.reached(start));
        }
        order
    }
}

} // verus!
