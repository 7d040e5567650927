//! Maps and sets keyed by cell address.
use std::collections::{HashMap, HashSet};

use vstd::prelude::*;
use vstd::set_lib::*;
use vstd::std_specs::hash::*;

use crate::key::{decode, encode, Key};

verus! {

broadcast use group_hash_axioms;

/// Distinct keys have distinct codes.
proof fn lemma_codes_distinct()
    ensures
        forall|a: Key, b: Key|
            #![trigger crate::key::code_of(a), crate::key::code_of(b)]
            crate::key::code_of(a) == crate::key::code_of(b) ==> a == b,
        forall|k: Key| (#[trigger] crate::key::code_of(k)) < crate::key::code_bound(),
{
    assert forall|a: Key, b: Key|
        #![trigger crate::key::code_of(a), crate::key::code_of(b)]
        crate::key::code_of(a) == crate::key::code_of(b) implies a == b by {
        crate::key::lemma_key_of_code(a);
        crate::key::lemma_key_of_code(b);
    }
    assert forall|k: Key| (#[trigger] crate::key::code_of(k)) < crate::key::code_bound() by {
        crate::key::lemma_key_of_code(k);
    }
}

/// Codes in range are as many as the keys they stand for.
proof fn lemma_same_size(codes: Set<u128>, keys: Set<Key>)
    requires
        forall|c: u128| #[trigger] codes.contains(c) ==> c < crate::key::code_bound(),
        forall|k: Key| #[trigger] keys.contains(k) <==> codes.contains(crate::key::code_of(k)),
    ensures
        keys.finite(),
        keys.len() == codes.len(),
{
    lemma_codes_distinct();
    crate::key::lemma_keys_finite(keys);
    let f = |k: Key| crate::key::code_of(k);
    assert(keys.map(f) =~= codes) by {
        assert forall|c: u128| codes.contains(c) implies keys.map(f).contains(c) by {
            crate::key::lemma_code_of_key(c);
            let k = crate::key::key_of(c);
            assert(keys.contains(k) && f(k) == c);
        }
    }
    lemma_map_size(keys, codes, f);
}

/// The keys of a list of codes without repetition, in the same order.
fn decode_all(codes: Vec<u128>) -> (keys: Vec<Key>)
    requires
        codes@.no_duplicates(),
        forall|i: int| 0 <= i < codes@.len() ==> #[trigger] codes@[i] < crate::key::code_bound(),
    ensures
        keys@.no_duplicates(),
        forall|k: Key| #[trigger]
            keys@.to_set().contains(k) <==> codes@.contains(crate::key::code_of(k)),
        keys@.len() == codes@.len(),
{
    let mut keys: Vec<Key> = Vec::new();
    for i in 0..codes.len()
        invariant
            keys@.len() == i,
            forall|j: int| 0 <= j < codes@.len() ==> #[trigger] codes@[j] < crate::key::code_bound(),
            forall|j: int| 0 <= j < i ==> #[trigger] keys@[j] == crate::key::key_of(codes@[j]),
    {
        keys.push(decode(codes[i]));
    }
    proof {
        lemma_codes_distinct();
        assert forall|j: int| 0 <= j < keys@.len() implies crate::key::code_of(#[trigger] keys@[j])
            == codes@[j] by {
            crate::key::lemma_code_of_key(codes@[j]);
        }
        assert forall|k: Key| #[trigger]
            keys@.to_set().contains(k) <==> codes@.contains(crate::key::code_of(k)) by {
            if keys@.contains(k) {
                let j = choose|j: int| 0 <= j < keys@.len() && keys@[j] == k;
                assert(codes@[j] == crate::key::code_of(k));
            }
            if codes@.contains(crate::key::code_of(k)) {
                let j = choose|j: int|
                    0 <= j < codes@.len() && codes@[j] == crate::key::code_of(k);
                assert(crate::key::code_of(keys@[j]) == crate::key::code_of(k));
                assert(keys@[j] == k);
            }
        }
    }
    keys
}

/// A map from cell addresses, stored under one integer per address.
#[verifier::reject_recursive_types(V)]
pub struct CellMap<V> {
    entries: HashMap<u128, V>,
}

impl<V> View for CellMap<V> {
    type V = Map<Key, V>;

    closed spec fn view(&self) -> Map<Key, V> {
        Map::new(
            |k: Key| self.entries@.contains_key(crate::key::code_of(k)),
            |k: Key| self.entries@[crate::key::code_of(k)],
        )
    }
}

impl<V> CellMap<V> {
    /// Every code stored is the code of some key.
    #[verifier::type_invariant]
    spec fn codes_in_range(self) -> bool {
        forall|c: u128| #[trigger] self.entries@.contains_key(c) ==> c < crate::key::code_bound()
    }

    /// An empty map.
    pub fn new() -> (map: Self)
        ensures
            map@ == Map::<Key, V>::empty(),
    {
        let map = CellMap { entries: HashMap::new() };
        assert(map@ =~= Map::<Key, V>::empty());
        map
    }

    /// How many addresses have a value.
    pub fn len(&self) -> (n: usize)
        ensures
            n == self@.len(),
            self@.dom().finite(),
    {
        proof {
            use_type_invariant(self);
            lemma_same_size(self.entries@.dom(), self@.dom());
        }
        self.entries.len()
    }

    /// Whether `k` has a value.
    pub fn contains_key(&self, k: Key) -> (found: bool)
        ensures
            found == self@.contains_key(k),
    {
        self.entries.contains_key(&encode(k))
    }

    /// The value of `k`, if it has one.
    pub fn get(&self, k: Key) -> (value: Option<&V>)
        ensures
            match value {
                Some(v) => self@.contains_key(k) && *v == self@[k],
                None => !self@.contains_key(k),
            },
    {
        self.entries.get(&encode(k))
    }

    /// Stores `value` for `k`, in place of any earlier value.
    pub fn insert(&mut self, k: Key, value: V)
        ensures
            final(self)@ == old(self)@.insert(k, value),
    {
        proof {
            use_type_invariant(&*self);
            lemma_codes_distinct();
        }
        let mut entries = HashMap::new();
        std::mem::swap(&mut entries, &mut self.entries);
        entries.insert(encode(k), value);
        self.entries = entries;
        assert(self@ =~= old(self)@.insert(k, value));
    }

    /// Takes out the value of `k`, if it has one.
    pub fn remove(&mut self, k: Key) -> (value: Option<V>)
        ensures
            final(self)@ == old(self)@.remove(k),
            value == old(self)@.get(k),
    {
        proof {
            use_type_invariant(&*self);
            lemma_codes_distinct();
        }
        let mut entries = HashMap::new();
        std::mem::swap(&mut entries, &mut self.entries);
        let value = entries.remove(&encode(k));
        self.entries = entries;
        assert(self@ =~= old(self)@.remove(k));
        value
    }

    /// Every address that has a value, once each, in no particular order.
    pub fn keys(&self) -> (keys: Vec<Key>)
        ensures
            keys@.no_duplicates(),
            keys@.to_set() == self@.dom(),
    {
        proof {
            use_type_invariant(self);
        }
        let mut codes: Vec<u128> = Vec::new();
        for c in it: self.entries.keys()
            invariant
                codes@.len() == it.index(),
                codes@ == it.seq().unref().take(it.index() as int),
                it.seq() == vstd::std_specs::iter::IteratorSpec::remaining(
                    &spec_keys_iter(&self.entries),
                ),
        {
            codes.push(*c);
        }
        proof {
            let all = vstd::std_specs::iter::IteratorSpec::remaining(&spec_keys_iter(&self.entries));
            assert(codes@ =~= all.unref());
            assert forall|c: u128| codes@.contains(c) <==> self.entries@.contains_key(c) by {
                assert(codes@.to_set().contains(c) <==> self.entries@.dom().contains(c));
            }
        }
        assert forall|i: int| 0 <= i < codes@.len() implies #[trigger] codes@[i]
            < crate::key::code_bound() by {
            assert(codes@.contains(codes@[i]));
        }
        let keys = decode_all(codes);
        assert(keys@.to_set() =~= self@.dom());
        keys
    }
}

/// A set of cell addresses, stored as one integer per address.
pub struct CellSet {
    entries: HashSet<u128>,
}

impl View for CellSet {
    type V = Set<Key>;

    closed spec fn view(&self) -> Set<Key> {
        Set::new(|k: Key| self.entries@.contains(crate::key::code_of(k)))
    }
}

impl CellSet {
    /// Every code stored is the code of some key.
    #[verifier::type_invariant]
    spec fn codes_in_range(self) -> bool {
        forall|c: u128| #[trigger] self.entries@.contains(c) ==> c < crate::key::code_bound()
    }

    /// An empty set.
    pub fn new() -> (set: Self)
        ensures
            set@ == Set::<Key>::empty(),
    {
        let set = CellSet { entries: HashSet::new() };
        assert(set@ =~= Set::<Key>::empty());
        set
    }

    /// How many addresses are in the set.
    pub fn len(&self) -> (n: usize)
        ensures
            n == self@.len(),
            self@.finite(),
    {
        proof {
            use_type_invariant(self);
            lemma_same_size(self.entries@, self@);
        }
        self.entries.len()
    }

    /// Whether `k` is in the set.
    pub fn contains(&self, k: Key) -> (found: bool)
        ensures
            found == self@.contains(k),
    {
        self.entries.contains(&encode(k))
    }

    /// Adds `k`; true when it was not there before.
    pub fn insert(&mut self, k: Key) -> (added: bool)
        ensures
            final(self)@ == old(self)@.insert(k),
            added == !old(self)@.contains(k),
    {
        proof {
            use_type_invariant(&*self);
            lemma_codes_distinct();
        }
        let mut entries = HashSet::new();
        std::mem::swap(&mut entries, &mut self.entries);
        let added = entries.insert(encode(k));
        self.entries = entries;
        assert(self@ =~= old(self)@.insert(k));
        added
    }

    /// Takes `k` out; true when it was there before.
    pub fn remove(&mut self, k: Key) -> (removed: bool)
        ensures
            final(self)@ == old(self)@.remove(k),
            removed == old(self)@.contains(k),
    {
        proof {
            use_type_invariant(&*self);
            lemma_codes_distinct();
        }
        let mut entries = HashSet::new();
        std::mem::swap(&mut entries, &mut self.entries);
        let removed = entries.remove(&encode(k));
        self.entries = entries;
        assert(self@ =~= old(self)@.remove(k));
        removed
    }

    /// Every address in the set, once each, in no particular order.
    pub fn to_vec(&self) -> (keys: Vec<Key>)
        ensures
            keys@.no_duplicates(),
            keys@.to_set() == self@,
            keys@.len() == self@.len(),
    {
        proof {
            use_type_invariant(self);
            lemma_same_size(self.entries@, self@);
        }
        let mut codes: Vec<u128> = Vec::new();
        for c in it: self.entries.iter()
            invariant
                codes@.len() == it.index(),
                codes@ == it.seq().unref().take(it.index() as int),
                it.seq() == vstd::std_specs::iter::IteratorSpec::remaining(
                    &spec_hash_keys_iter(&self.entries),
                ),
        {
            codes.push(*c);
        }
        proof {
            let all = vstd::std_specs::iter::IteratorSpec::remaining(
                &spec_hash_keys_iter(&self.entries),
            );
            assert(codes@ =~= all.unref());
            assert forall|c: u128| codes@.contains(c) <==> self.entries@.contains(c) by {
                assert(codes@.to_set().contains(c) <==> self.entries@.contains(c));
            }
        }
        assert forall|i: int| 0 <= i < codes@.len() implies #[trigger] codes@[i]
            < crate::key::code_bound() by {
            assert(codes@.contains(codes@[i]));
        }
        let keys = decode_all(codes);
        assert(keys@.to_set() =~= self@);
        keys
    }
}

} // verus!
