//! Text in order: comparing strings, and maps and sets kept sorted by their key.
use vstd::prelude::*;

verus! {

/// Whether `a` comes before `b`: the first character in which they differ decides, and a
/// proper prefix comes first.
pub open spec fn text_before(a: Seq<char>, b: Seq<char>) -> bool
    decreases a.len(),
{
    if b.len() == 0 {
        false
    } else if a.len() == 0 {
        true
    } else {
        a[0] < b[0] || (a[0] == b[0] && text_before(a.drop_first(), b.drop_first()))
    }
}

/// Whether the keys of a list are in strictly increasing order.
pub open spec fn increasing(keys: Seq<Seq<char>>) -> bool {
    forall|i: int, j: int| 0 <= i < j < keys.len() ==> #[trigger] text_before(keys[i], keys[j])
}

/// Whether a list of keys holds, in increasing order, the members of a set.
pub open spec fn lists(keys: Seq<String>, members: Set<Seq<char>>) -> bool {
    let views = keys.map_values(|key: String| key@);
    increasing(views) && views.to_set() == members
}

/// No text comes before itself.
pub proof fn lemma_before_irreflexive(a: Seq<char>)
    ensures
        !text_before(a, a),
    decreases a.len(),
{
    if a.len() > 0 {
        lemma_before_irreflexive(a.drop_first());
    }
}

/// What comes before what comes before `c` comes before `c`.
pub proof fn lemma_before_transitive(a: Seq<char>, b: Seq<char>, c: Seq<char>)
    requires
        text_before(a, b),
        text_before(b, c),
    ensures
        text_before(a, c),
    decreases a.len(),
{
    if a.len() > 0 {
        if a[0] == b[0] && b[0] == c[0] {
            lemma_before_transitive(a.drop_first(), b.drop_first(), c.drop_first());
        }
    }
}

/// Where one text stands relative to another.
#[derive(Debug, Clone, Copy, PartialEq, Eq, Structural)]
pub enum Side {
    Before,
    Same,
    After,
}

/// Compares two texts.
pub fn side_of(a: &str, b: &str) -> (side: Side)
    ensures
        side == Side::Before <==> text_before(a@, b@),
        side == Side::Same <==> a@ == b@,
        side == Side::After <==> text_before(b@, a@),
{
    let mut left = a.chars();
    let mut right = b.chars();
    let ghost mut i: int = 0;
    proof {
        assert(a@.skip(0) =~= a@);
        assert(b@.skip(0) =~= b@);
    }
    loop
        invariant
            0 <= i <= a@.len(),
            i <= b@.len(),
            vstd::std_specs::iter::IteratorSpec::remaining(&left) == a@.skip(i),
            vstd::std_specs::iter::IteratorSpec::remaining(&right) == b@.skip(i),
            a@.take(i) == b@.take(i),
            text_before(a@, b@) <==> text_before(a@.skip(i), b@.skip(i)),
            text_before(b@, a@) <==> text_before(b@.skip(i), a@.skip(i)),
        decreases a@.len() - i,
    {
        let l = left.next();
        let r = right.next();
        proof {
            lemma_before_irreflexive(a@);
            lemma_before_irreflexive(b@);
            assert(i < a@.len() ==> a@.skip(i).drop_first() =~= a@.skip(i + 1));
            assert(i < b@.len() ==> b@.skip(i).drop_first() =~= b@.skip(i + 1));
            assert(i == a@.len() ==> a@.take(i) =~= a@);
            assert(i == b@.len() ==> b@.take(i) =~= b@);
        }
        match (l, r) {
            (None, None) => {
                return Side::Same;
            },
            (None, Some(_)) => {
                return Side::Before;
            },
            (Some(_), None) => {
                return Side::After;
            },
            (Some(x), Some(y)) => {
                if x < y {
                    return Side::Before;
                }
                if y < x {
                    return Side::After;
                }
                proof {
                    assert(a@.take(i + 1) =~= a@.take(i).push(x));
                    assert(b@.take(i + 1) =~= b@.take(i).push(y));
                    i = i + 1;
                }
            },
        }
    }
}

/// Keys in increasing order are distinct.
pub(crate) proof fn lemma_increasing_distinct(keys: Seq<Seq<char>>)
    requires
        increasing(keys),
    ensures
        keys.no_duplicates(),
{
    assert forall|i: int, j: int| 0 <= i < j < keys.len() implies keys[i] != keys[j] by {
        assert(text_before(keys[i], keys[j]));
        lemma_before_irreflexive(keys[i]);
    }
}

/// A key put where it belongs keeps the order.
proof fn lemma_increasing_insert(keys: Seq<Seq<char>>, at: int, key: Seq<char>)
    requires
        increasing(keys),
        0 <= at <= keys.len(),
        forall|j: int| 0 <= j < at ==> text_before(#[trigger] keys[j], key),
        forall|j: int| at <= j < keys.len() ==> text_before(key, #[trigger] keys[j]),
    ensures
        increasing(keys.insert(at, key)),
{
    let grown = keys.insert(at, key);
    assert forall|i: int, j: int| 0 <= i < j < grown.len() implies #[trigger] text_before(
        grown[i],
        grown[j],
    ) by {
        if j < at {
            assert(text_before(keys[i], keys[j]));
        } else if i < at && j > at {
            assert(text_before(keys[i], keys[j - 1]));
        } else if i > at {
            assert(text_before(keys[i - 1], keys[j - 1]));
        }
    }
}

/// A map from text, kept sorted by key.
#[verifier::reject_recursive_types(V)]
pub struct TextMap<V> {
    entries: Vec<(String, V)>,
}

impl<V> View for TextMap<V> {
    type V = Map<Seq<char>, V>;

    closed spec fn view(&self) -> Map<Seq<char>, V> {
        Map::new(
            |k: Seq<char>| self.key_list().contains(k),
            |k: Seq<char>| self.entries@[self.key_list().index_of(k)].1,
        )
    }
}

impl<V> TextMap<V> {
    /// The keys in order.
    pub closed spec fn key_list(self) -> Seq<Seq<char>> {
        Seq::new(self.entries@.len(), |i: int| self.entries@[i].0@)
    }

    #[verifier::type_invariant]
    spec fn sorted(self) -> bool {
        increasing(self.key_list())
    }

    /// What the map holds at a position of its list.
    proof fn lemma_at(self, i: int)
        requires
            self.sorted(),
            0 <= i < self.entries@.len(),
        ensures
            self@.contains_key(self.entries@[i].0@),
            self@[self.entries@[i].0@] == self.entries@[i].1,
    {
        lemma_increasing_distinct(self.key_list());
        let k = self.key_list()[i];
        assert(self.key_list().contains(k));
        let j = self.key_list().index_of(k);
        assert(self.key_list()[j] == k);
    }

    /// The position at which `key` stands, or would stand.
    fn position(&self, key: &str) -> (at: usize)
        ensures
            self.sorted(),
            at <= self.entries@.len(),
            forall|j: int| 0 <= j < at ==> text_before(#[trigger] self.entries@[j].0@, key@),
            forall|j: int| at <= j < self.entries@.len() ==> {
                ||| text_before(key@, #[trigger] self.entries@[j].0@)
                ||| j == at && self.entries@[j].0@ == key@
            },
    {
        proof {
            use_type_invariant(self);
        }
        let mut low: usize = 0;
        let mut high: usize = self.entries.len();
        while low < high
            invariant
                self.sorted(),
                low <= high <= self.entries@.len(),
                forall|j: int| 0 <= j < low ==> text_before(#[trigger] self.entries@[j].0@, key@),
                forall|j: int| high <= j < self.entries@.len() ==> text_before(
                    key@,
                    #[trigger] self.entries@[j].0@,
                ),
            decreases high - low,
        {
            let mid: usize = low + (high - low) / 2;
            proof {
                let keys = self.key_list();
                assert forall|j: int| 0 <= j < mid implies text_before(
                    #[trigger] self.entries@[j].0@,
                    self.entries@[mid as int].0@,
                ) by {
                    assert(text_before(keys[j], keys[mid as int]));
                }
                assert forall|j: int| mid < j < self.entries@.len() implies text_before(
                    self.entries@[mid as int].0@,
                    #[trigger] self.entries@[j].0@,
                ) by {
                    assert(text_before(keys[mid as int], keys[j]));
                }
            }
            match side_of(self.entries[mid].0.as_str(), key) {
                Side::Same => {
                    return mid;
                },
                Side::Before => {
                    proof {
                        assert forall|j: int| 0 <= j < mid implies text_before(
                            #[trigger] self.entries@[j].0@,
                            key@,
                        ) by {
                            lemma_before_transitive(
                                self.entries@[j].0@,
                                self.entries@[mid as int].0@,
                                key@,
                            );
                        }
                    }
                    low = mid + 1;
                },
                Side::After => {
                    proof {
                        assert forall|j: int| mid < j < self.entries@.len() implies text_before(
                            key@,
                            #[trigger] self.entries@[j].0@,
                        ) by {
                            lemma_before_transitive(
                                key@,
                                self.entries@[mid as int].0@,
                                self.entries@[j].0@,
                            );
                        }
                    }
                    high = mid;
                },
            }
        }
        low
    }

    /// Whether the entry at `at`, as `position` gives it, has the key `key`.
    fn holds(&self, at: usize, key: &str) -> (found: bool)
        ensures
            found == (at < self.entries@.len() && self.entries@[at as int].0@ == key@),
    {
        at < self.entries.len() && matches!(side_of(self.entries[at].0.as_str(), key), Side::Same)
    }

    /// A key that stands nowhere near its position is not in the map.
    proof fn lemma_absent(self, at: int, key: Seq<char>)
        requires
            0 <= at <= self.entries@.len(),
            forall|j: int| 0 <= j < at ==> text_before(#[trigger] self.entries@[j].0@, key),
            forall|j: int| at <= j < self.entries@.len() ==> text_before(
                key,
                #[trigger] self.entries@[j].0@,
            ),
        ensures
            !self@.contains_key(key),
    {
        lemma_before_irreflexive(key);
        if self.key_list().contains(key) {
            let j = choose|j: int|
                0 <= j < self.key_list().len() && self.key_list()[j] == key;
            assert(self.entries@[j].0@ == key);
        }
    }

    /// An empty map.
    pub fn new() -> (map: Self)
        ensures
            map@ == Map::<Seq<char>, V>::empty(),
    {
        let map = TextMap { entries: Vec::new() };
        assert(map@ =~= Map::<Seq<char>, V>::empty());
        map
    }

    /// How many keys there are; `key_at` and `value_at` give each of them in order.
    pub fn len(&self) -> (n: usize)
        ensures
            n == self.key_list().len(),
            increasing(self.key_list()),
            self.key_list().to_set() == self@.dom(),
    {
        proof {
            use_type_invariant(self);
            assert(self.key_list().to_set() =~= self@.dom());
        }
        self.entries.len()
    }

    /// The key at a position of the list.
    pub fn key_at(&self, i: usize) -> (key: &String)
        requires
            i < self.key_list().len(),
        ensures
            key@ == self.key_list()[i as int],
    {
        &self.entries[i].0
    }

    /// The value at a position of the list.
    pub fn value_at(&self, i: usize) -> (value: &V)
        requires
            i < self.key_list().len(),
        ensures
            *value == self@[self.key_list()[i as int]],
    {
        proof {
            use_type_invariant(self);
            self.lemma_at(i as int);
        }
        &self.entries[i].1
    }

    /// The value of `key`, if it has one.
    pub fn get(&self, key: &str) -> (value: Option<&V>)
        ensures
            match value {
                Some(v) => self@.contains_key(key@) && *v == self@[key@],
                None => !self@.contains_key(key@),
            },
    {
        let at: usize = self.position(key);
        if self.holds(at, key) {
            proof {
                self.lemma_at(at as int);
            }
            Some(&self.entries[at].1)
        } else {
            proof {
                self.lemma_absent(at as int, key@);
            }
            None
        }
    }

    /// Whether `key` has a value.
    pub fn contains_key(&self, key: &str) -> (found: bool)
        ensures
            found == self@.contains_key(key@),
    {
        self.get(key).is_some()
    }

    /// Stores `value` for `key`, in place of any earlier value.
    pub fn insert(&mut self, key: &str, value: V)
        ensures
            final(self)@ == old(self)@.insert(key@, value),
    {
        let at: usize = self.position(key);
        let found = self.holds(at, key);
        let ghost before = *self;
        let mut entries: Vec<(String, V)> = Vec::new();
        std::mem::swap(&mut entries, &mut self.entries);
        if found {
            entries[at].1 = value;
            let ghost after = TextMap { entries };
            assert(after.key_list() =~= before.key_list());
            self.entries = entries;
            assert(self@ =~= before@.insert(key@, value)) by {
                self.lemma_same_entries(before, at as int, value);
            }
        } else {
            proof {
                before.lemma_absent(at as int, key@);
                assert forall|j: int| 0 <= j < at implies text_before(
                    #[trigger] before.key_list()[j],
                    key@,
                ) by {
                    assert(text_before(before.entries@[j].0@, key@));
                }
                assert forall|j: int| at <= j < before.key_list().len() implies text_before(
                    key@,
                    #[trigger] before.key_list()[j],
                ) by {
                    assert(text_before(key@, before.entries@[j].0@));
                }
                lemma_increasing_insert(before.key_list(), at as int, key@);
            }
            entries.insert(at, (key.to_owned(), value));
            let ghost after = TextMap { entries };
            assert(after.key_list() =~= before.key_list().insert(at as int, key@));
            self.entries = entries;
            assert(self@ =~= before@.insert(key@, value)) by {
                self.lemma_at(at as int);
                assert forall|k: Seq<char>| self@.contains_key(k) <==> before@.insert(
                    key@,
                    value,
                ).contains_key(k) by {
                    self.lemma_grown_keys(before, at as int, k);
                }
                assert forall|k: Seq<char>| self@.contains_key(k) && k != key@ implies self@[k]
                    == before@[k] by {
                    self.lemma_grown_keys(before, at as int, k);
                    let j = before.key_list().index_of(k);
                    assert(before.key_list()[j] == k);
                    before.lemma_at(j);
                    let i = if j < at {
                        j
                    } else {
                        j + 1
                    };
                    self.lemma_at(i);
                }
            }
        }
    }

    /// Which keys there are once one has been put in at a position.
    proof fn lemma_grown_keys(self, before: Self, at: int, k: Seq<char>)
        requires
            0 <= at <= before.entries@.len(),
            self.entries@.len() == before.entries@.len() + 1,
            self.key_list() == before.key_list().insert(at, self.entries@[at].0@),
        ensures
            self@.contains_key(k) <==> k == self.entries@[at].0@ || before@.contains_key(k),
    {
        let keys = self.key_list();
        let old_keys = before.key_list();
        if keys.contains(k) {
            let i = choose|i: int| 0 <= i < keys.len() && keys[i] == k;
            if i < at {
                assert(old_keys[i] == k);
            } else if i > at {
                assert(old_keys[i - 1] == k);
            }
        }
        if k == self.entries@[at].0@ {
            assert(keys[at] == k);
        }
        if old_keys.contains(k) {
            let j = choose|j: int| 0 <= j < old_keys.len() && old_keys[j] == k;
            if j < at {
                assert(keys[j] == k);
            } else {
                assert(keys[j + 1] == k);
            }
        }
    }

    /// What changes when one value is replaced.
    proof fn lemma_same_entries(self, before: Self, at: int, value: V)
        requires
            before.sorted(),
            0 <= at < before.entries@.len(),
            self.entries@.len() == before.entries@.len(),
            self.key_list() == before.key_list(),
            self.entries@[at].1 == value,
            forall|i: int|
                0 <= i < before.entries@.len() && i != at ==> (#[trigger] self.entries@[i]).1
                    == before.entries@[i].1,
        ensures
            self@ == before@.insert(before.entries@[at].0@, value),
    {
        let key = before.key_list()[at];
        assert forall|k: Seq<char>| #[trigger] self@.contains_key(k) implies self@[k] == before@.insert(
            key,
            value,
        )[k] by {
            let i = self.key_list().index_of(k);
            assert(self.key_list()[i] == k);
            self.lemma_at(i);
            before.lemma_at(i);
            assert(before.entries@[i].0@ == k);
            if k == key {
                lemma_increasing_distinct(before.key_list());
                assert(i == at);
            }
        }
        before.lemma_at(at);
        assert(self@ =~= before@.insert(key, value));
    }

    /// Takes out the value of `key`, if it has one.
    pub fn remove(&mut self, key: &str) -> (value: Option<V>)
        ensures
            final(self)@ == old(self)@.remove(key@),
            value == old(self)@.get(key@),
    {
        let at: usize = self.position(key);
        if self.holds(at, key) {
            let ghost before = *self;
            let mut entries: Vec<(String, V)> = Vec::new();
            std::mem::swap(&mut entries, &mut self.entries);
            let (_, value) = entries.remove(at);
            let ghost after = TextMap { entries };
            proof {
                before.lemma_at(at as int);
                assert(before.key_list() =~= after.key_list().insert(at as int, key@));
                let keys = before.key_list();
                assert forall|i: int, j: int|
                    0 <= i < j < after.key_list().len() implies #[trigger] text_before(
                    after.key_list()[i],
                    after.key_list()[j],
                ) by {
                    let i0 = if i < at {
                        i
                    } else {
                        i + 1
                    };
                    let j0 = if j < at {
                        j
                    } else {
                        j + 1
                    };
                    assert(text_before(keys[i0], keys[j0]));
                }
                lemma_increasing_distinct(keys);
            }
            self.entries = entries;
            assert(self@ =~= before@.remove(key@)) by {
                assert(!self.key_list().contains(key@)) by {
                    if self.key_list().contains(key@) {
                        let i = self.key_list().index_of(key@);
                        assert(self.key_list()[i] == key@);
                        let i0 = if i < at {
                            i
                        } else {
                            i + 1
                        };
                        assert(before.key_list()[i0] == before.key_list()[at as int]);
                    }
                }
                assert forall|k: Seq<char>| self@.contains_key(k) <==> before@.remove(
                    key@,
                ).contains_key(k) by {
                    before.lemma_grown_keys(*self, at as int, k);
                }
                assert forall|k: Seq<char>| self@.contains_key(k) implies self@[k]
                    == before@[k] by {
                    let i = self.key_list().index_of(k);
                    assert(self.key_list()[i] == k);
                    self.lemma_at(i);
                    let i0 = if i < at {
                        i
                    } else {
                        i + 1
                    };
                    before.lemma_at(i0);
                }
            }
            Some(value)
        } else {
            proof {
                self.lemma_absent(at as int, key@);
                assert(self@ =~= self@.remove(key@));
            }
            None
        }
    }

    /// Exchanges the value at a position of the list with `value`.
    pub fn swap_at(&mut self, i: usize, value: &mut V)
        requires
            i < old(self).key_list().len(),
        ensures
            final(self).key_list() == old(self).key_list(),
            final(self)@ == old(self)@.insert(old(self).key_list()[i as int], *old(value)),
            *final(value) == old(self)@[old(self).key_list()[i as int]],
    {
        proof {
            use_type_invariant(&*self);
            self.lemma_at(i as int);
        }
        let ghost before = *self;
        let ghost given = *value;
        let mut entries: Vec<(String, V)> = Vec::new();
        std::mem::swap(&mut entries, &mut self.entries);
        std::mem::swap(&mut entries[i].1, value);
        let ghost after = TextMap { entries };
        assert(after.key_list() =~= before.key_list());
        self.entries = entries;
        proof {
            self.lemma_same_entries(before, i as int, given);
        }
    }

    /// Takes every key out.
    pub fn clear(&mut self)
        ensures
            final(self)@ == Map::<Seq<char>, V>::empty(),
    {
        self.entries = Vec::new();
        assert(self@ =~= Map::<Seq<char>, V>::empty());
    }
}

/// A set of texts, kept sorted.
pub struct TextSet {
    entries: TextMap<()>,
}

impl View for TextSet {
    type V = Set<Seq<char>>;

    closed spec fn view(&self) -> Set<Seq<char>> {
        self.entries@.dom()
    }
}

impl TextSet {
    /// The members in order.
    pub closed spec fn key_list(self) -> Seq<Seq<char>> {
        self.entries.key_list()
    }

    /// An empty set.
    pub fn new() -> (set: Self)
        ensures
            set@ == Set::<Seq<char>>::empty(),
    {
        let set = TextSet { entries: TextMap::new() };
        assert(set@ =~= Set::<Seq<char>>::empty());
        set
    }

    /// How many members there are; `key_at` gives each of them in order.
    pub fn len(&self) -> (n: usize)
        ensures
            n == self.key_list().len(),
            increasing(self.key_list()),
            self.key_list().to_set() == self@,
    {
        self.entries.len()
    }

    /// The member at a position of the list.
    pub fn key_at(&self, i: usize) -> (key: &String)
        requires
            i < self.key_list().len(),
        ensures
            key@ == self.key_list()[i as int],
    {
        self.entries.key_at(i)
    }

    /// Whether `key` is in the set.
    pub fn contains(&self, key: &str) -> (found: bool)
        ensures
            found == self@.contains(key@),
    {
        self.entries.contains_key(key)
    }

    /// Every member, in order.
    pub fn to_vec(&self) -> (keys: Vec<String>)
        ensures
            lists(keys@, self@),
    {
        let mut keys: Vec<String> = Vec::new();
        let n: usize = self.len();
        for i in 0..n
            invariant
                n == self.key_list().len(),
                keys@.len() == i,
                forall|j: int| 0 <= j < i ==> (#[trigger] keys@[j])@ == self.key_list()[j],
        {
            keys.push(self.key_at(i).clone());
        }
        assert(keys@.map_values(|key: String| key@) =~= self.key_list());
        keys
    }

    /// Adds `key`.
    pub fn insert(&mut self, key: &str)
        ensures
            final(self)@ == old(self)@.insert(key@),
    {
        self.entries.insert(key, ());
        assert(self@ =~= old(self)@.insert(key@));
    }

    /// Takes `key` out.
    pub fn remove(&mut self, key: &str)
        ensures
            final(self)@ == old(self)@.remove(key@),
    {
        self.entries.remove(key);
        assert(self@ =~= old(self)@.remove(key@));
    }
}

} // verus!
