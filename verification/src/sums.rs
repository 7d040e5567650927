//! Sums over finite sets.
use vstd::prelude::*;

verus! {

/// The sum of `f` over the members of `s`.
pub open spec fn sum_over<K>(f: spec_fn(K) -> nat, s: Set<K>) -> nat
    decreases s.len(),
    when s.finite()
{
    if s.len() == 0 {
        0
    } else {
        let k = s.choose();
        f(k) + sum_over(f, s.remove(k))
    }
}

/// Whichever member is taken out first, the sum is the same.
pub proof fn lemma_sum_remove<K>(f: spec_fn(K) -> nat, s: Set<K>, k: K)
    requires
        s.finite(),
        s.contains(k),
    ensures
        sum_over(f, s) == f(k) + sum_over(f, s.remove(k)),
    decreases s.len(),
{
    let c = s.choose();
    assert(s.contains(c));
    if c != k {
        lemma_sum_remove(f, s.remove(c), k);
        lemma_sum_remove(f, s.remove(k), c);
        assert(s.remove(c).remove(k) =~= s.remove(k).remove(c));
    }
}

/// A new member adds its own share.
pub proof fn lemma_sum_insert<K>(f: spec_fn(K) -> nat, s: Set<K>, k: K)
    requires
        s.finite(),
        !s.contains(k),
    ensures
        sum_over(f, s.insert(k)) == f(k) + sum_over(f, s),
{
    lemma_sum_remove(f, s.insert(k), k);
    assert(s.insert(k).remove(k) =~= s);
}

/// A smaller set has no larger a sum.
pub proof fn lemma_sum_subset<K>(f: spec_fn(K) -> nat, a: Set<K>, b: Set<K>)
    requires
        b.finite(),
        a.subset_of(b),
    ensures
        a.finite(),
        sum_over(f, a) <= sum_over(f, b),
    decreases b.len(),
{
    vstd::set_lib::lemma_set_subset_finite(b, a);
    if b.len() > 0 {
        let k = b.choose();
        assert(b.contains(k));
        lemma_sum_remove(f, b, k);
        if a.contains(k) {
            lemma_sum_remove(f, a, k);
            lemma_sum_subset(f, a.remove(k), b.remove(k));
        } else {
            lemma_sum_subset(f, a, b.remove(k));
        }
    } else {
        assert(a =~= b);
    }
}

/// Terms that are equal one by one have equal sums.
pub proof fn lemma_sum_same<K>(f: spec_fn(K) -> nat, g: spec_fn(K) -> nat, s: Set<K>)
    requires
        s.finite(),
        forall|k: K| s.contains(k) ==> #[trigger] f(k) == g(k),
    ensures
        sum_over(f, s) == sum_over(g, s),
    decreases s.len(),
{
    if s.len() > 0 {
        let k = s.choose();
        assert(s.contains(k));
        lemma_sum_same(f, g, s.remove(k));
    }
}

/// The sum of sums, term by term.
pub proof fn lemma_sum_split<K>(
    f: spec_fn(K) -> nat,
    g: spec_fn(K) -> nat,
    h: spec_fn(K) -> nat,
    s: Set<K>,
)
    requires
        s.finite(),
        forall|k: K| s.contains(k) ==> #[trigger] f(k) == g(k) + h(k),
    ensures
        sum_over(f, s) == sum_over(g, s) + sum_over(h, s),
    decreases s.len(),
{
    if s.len() > 0 {
        let k = s.choose();
        assert(s.contains(k));
        lemma_sum_split(f, g, h, s.remove(k));
    }
}

/// Members that add nothing can be left out.
pub proof fn lemma_sum_support<K>(f: spec_fn(K) -> nat, a: Set<K>, b: Set<K>)
    requires
        b.finite(),
        a.subset_of(b),
        forall|k: K| b.contains(k) && !a.contains(k) ==> #[trigger] f(k) == 0,
    ensures
        sum_over(f, a) == sum_over(f, b),
    decreases b.len(),
{
    if a =~= b {
    } else {
        let k = choose|k: K| b.contains(k) && !a.contains(k);
        lemma_sum_remove(f, b, k);
        lemma_sum_support(f, a, b.remove(k));
    }
}

} // verus!
