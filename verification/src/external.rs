//! `API(connection, variable…, field)`: a value that lives outside the workbook.
//!
//! The function itself does no I/O. It builds a key from its arguments, records that the
//! cell reads that key, and returns the value the application put in the cache for it —
//! or `#N/A` ("waiting for the API") while nothing has arrived yet. The application asks for
//! the keys still waiting, fetches them, and calls `set_external`, which marks every cell
//! reading that key dirty so the next incremental evaluation carries the value on. A value
//! that is to be fetched again is shown until the new one arrives.
use vstd::prelude::*;
use vstd::string::*;

use crate::cell_map::CellSet;
use crate::key::{CellReferenceIndex, Key};
use crate::model::Model;
use crate::text::{side_of, Side, TextSet};

verus! {

/// What an external key resolved to.
#[derive(Debug)]
pub enum ExternalValue {
    /// A floating-point number, given by its bits.
    Number(u64),
    Text(String),
    Boolean(bool),
    /// The fetch failed; the message shows as `#N/A` with this text.
    Failed(String),
}

impl Clone for ExternalValue {
    fn clone(&self) -> (copy: Self)
        ensures
            copy == *self,
    {
        match self {
            ExternalValue::Number(n) => ExternalValue::Number(*n),
            ExternalValue::Text(t) => ExternalValue::Text(t.clone()),
            ExternalValue::Boolean(b) => ExternalValue::Boolean(*b),
            ExternalValue::Failed(m) => ExternalValue::Failed(m.clone()),
        }
    }
}

/// Whether a floating-point number, given by its bits, is not a number: without its sign,
/// it is above infinity.
pub open spec fn is_nan(bits: u64) -> bool {
    bits % 0x8000_0000_0000_0000 > 0x7ff0_0000_0000_0000
}

/// Whether two floating-point numbers, given by their bits, are equal: both are numbers, and
/// they are the same or both zero, of either sign.
pub open spec fn equal_numbers(a: u64, b: u64) -> bool {
    &&& !is_nan(a) && !is_nan(b)
    &&& a == b || a % 0x8000_0000_0000_0000 == 0 && b % 0x8000_0000_0000_0000 == 0
}

/// Compares two floating-point numbers given by their bits.
fn numbers_equal(a: u64, b: u64) -> (equal: bool)
    ensures
        equal == equal_numbers(a, b),
{
    let x: u64 = a % 0x8000_0000_0000_0000;
    let y: u64 = b % 0x8000_0000_0000_0000;
    x <= 0x7ff0_0000_0000_0000 && y <= 0x7ff0_0000_0000_0000 && (a == b || x == 0 && y == 0)
}

/// Compares two texts for equality.
fn texts_equal(a: &String, b: &String) -> (equal: bool)
    ensures
        equal == (a@ == b@),
{
    matches!(side_of(a.as_str(), b.as_str()), Side::Same)
}

impl PartialEq for ExternalValue {
    /// Numbers are compared as floating-point numbers.
    fn eq(&self, other: &Self) -> (equal: bool) {
        match (self, other) {
            (ExternalValue::Number(a), ExternalValue::Number(b)) => numbers_equal(*a, *b),
            (ExternalValue::Text(a), ExternalValue::Text(b)) => texts_equal(a, b),
            (ExternalValue::Boolean(a), ExternalValue::Boolean(b)) => *a == *b,
            (ExternalValue::Failed(a), ExternalValue::Failed(b)) => texts_equal(a, b),
            _ => false,
        }
    }
}

impl vstd::std_specs::cmp::PartialEqSpecImpl for ExternalValue {
    open spec fn obeys_eq_spec() -> bool {
        true
    }

    open spec fn eq_spec(&self, other: &Self) -> bool {
        match (*self, *other) {
            (ExternalValue::Number(a), ExternalValue::Number(b)) => equal_numbers(a, b),
            (ExternalValue::Text(a), ExternalValue::Text(b)) => a@ == b@,
            (ExternalValue::Boolean(a), ExternalValue::Boolean(b)) => a == b,
            (ExternalValue::Failed(a), ExternalValue::Failed(b)) => a@ == b@,
            _ => false,
        }
    }
}

/// The errors a formula can show.
#[derive(Debug, Clone, Copy, PartialEq, Eq, Structural)]
pub enum Error {
    REF,
    NAME,
    VALUE,
    DIV,
    NA,
    NUM,
    ERROR,
    NIMPL,
    SPILL,
    CALC,
    CIRC,
    NULL,
}

/// What a call returns.
#[derive(Debug)]
pub enum CalcResult {
    /// A floating-point number, given by its bits.
    Number(u64),
    String(String),
    Boolean(bool),
    Error { error: Error, origin: CellReferenceIndex, message: String },
    /// The function was called with a number of arguments it does not take.
    ArgsNumberError { origin: CellReferenceIndex },
}

impl PartialEq for CalcResult {
    /// Numbers are compared as floating-point numbers.
    fn eq(&self, other: &Self) -> (equal: bool) {
        match (self, other) {
            (CalcResult::Number(a), CalcResult::Number(b)) => numbers_equal(*a, *b),
            (CalcResult::String(a), CalcResult::String(b)) => texts_equal(a, b),
            (CalcResult::Boolean(a), CalcResult::Boolean(b)) => *a == *b,
            (
                CalcResult::Error { error: e1, origin: o1, message: m1 },
                CalcResult::Error { error: e2, origin: o2, message: m2 },
            ) => *e1 == *e2 && *o1 == *o2 && texts_equal(m1, m2),
            (
                CalcResult::ArgsNumberError { origin: o1 },
                CalcResult::ArgsNumberError { origin: o2 },
            ) => *o1 == *o2,
            _ => false,
        }
    }
}

impl vstd::std_specs::cmp::PartialEqSpecImpl for CalcResult {
    open spec fn obeys_eq_spec() -> bool {
        true
    }

    open spec fn eq_spec(&self, other: &Self) -> bool {
        match (*self, *other) {
            (CalcResult::Number(a), CalcResult::Number(b)) => equal_numbers(a, b),
            (CalcResult::String(a), CalcResult::String(b)) => a@ == b@,
            (CalcResult::Boolean(a), CalcResult::Boolean(b)) => a == b,
            (
                CalcResult::Error { error: e1, origin: o1, message: m1 },
                CalcResult::Error { error: e2, origin: o2, message: m2 },
            ) => e1 == e2 && o1 == o2 && m1@ == m2@,
            (
                CalcResult::ArgsNumberError { origin: o1 },
                CalcResult::ArgsNumberError { origin: o2 },
            ) => o1 == o2,
            _ => false,
        }
    }
}

/// The arguments of an `API` call joined into one key; `\u{1}` never appears in a formula.
pub const EXTERNAL_KEY_SEP: char = '\u{1}';

/// The arguments of an `API` call as one key.
pub open spec fn joined(parts: Seq<Seq<char>>) -> Seq<char>
    decreases parts.len(),
{
    if parts.len() == 0 {
        Seq::empty()
    } else if parts.len() == 1 {
        parts[0]
    } else {
        joined(parts.drop_last()).push(EXTERNAL_KEY_SEP) + parts.last()
    }
}

/// Whether `connection` is the first part of a key: what stands before the first separator.
pub open spec fn first_part(key: Seq<char>, connection: Seq<char>) -> bool {
    &&& connection.len() <= key.len()
    &&& key.take(connection.len() as int) == connection
    &&& !connection.contains(EXTERNAL_KEY_SEP)
    &&& connection.len() < key.len() ==> key[connection.len() as int] == EXTERNAL_KEY_SEP
}

/// The texts among the evaluated arguments of a call.
pub open spec fn texts(args: Seq<Result<String, CalcResult>>) -> Seq<Seq<char>> {
    args.map_values(|arg: Result<String, CalcResult>| arg->Ok_0@)
}

/// What a call returns for a value that has arrived.
pub open spec fn result_of(value: ExternalValue, origin: CellReferenceIndex) -> CalcResult {
    match value {
        ExternalValue::Number(n) => CalcResult::Number(n),
        ExternalValue::Text(t) => CalcResult::String(t),
        ExternalValue::Boolean(b) => CalcResult::Boolean(b),
        ExternalValue::Failed(m) => CalcResult::Error { error: Error::NA, origin, message: m },
    }
}

/// Whether another argument of a call is to be evaluated, once some of them have been: none
/// is after the last, nor after one that is an error.
pub fn wants_argument(args: &Vec<Result<String, CalcResult>>, total: usize) -> (more: bool)
    ensures
        more == (args@.len() < total && forall|i: int|
            0 <= i < args@.len() ==> #[trigger] args@[i] is Ok),
{
    for i in 0..args.len()
        invariant
            forall|j: int| 0 <= j < i ==> #[trigger] args@[j] is Ok,
    {
        if args[i].is_err() {
            return false;
        }
    }
    args.len() < total
}

/// Whether a key starts with a connection.
pub fn has_connection(key: &str, connection: &str) -> (found: bool)
    ensures
        found == first_part(key@, connection@),
{
    let mut left = key.chars();
    let mut right = connection.chars();
    let ghost mut i: int = 0;
    proof {
        assert(key@.skip(0) =~= key@);
        assert(connection@.skip(0) =~= connection@);
        assert(key@.take(0) =~= connection@.take(0));
    }
    loop
        invariant
            0 <= i <= key@.len(),
            i <= connection@.len(),
            vstd::std_specs::iter::IteratorSpec::remaining(&left) == key@.skip(i),
            vstd::std_specs::iter::IteratorSpec::remaining(&right) == connection@.skip(i),
            key@.take(i) == connection@.take(i),
            forall|j: int| 0 <= j < i ==> connection@[j] != EXTERNAL_KEY_SEP,
        decreases key@.len() - i,
    {
        let l = left.next();
        let r = right.next();
        proof {
            assert(i < key@.len() ==> key@.skip(i).drop_first() =~= key@.skip(i + 1));
            assert(i < connection@.len() ==> connection@.skip(i).drop_first()
                =~= connection@.skip(i + 1));
            assert(connection@.take(connection@.len() as int) =~= connection@);
        }
        match (l, r) {
            (None, None) => {
                return true;
            },
            (Some(x), None) => {
                return x == EXTERNAL_KEY_SEP;
            },
            (None, Some(_)) => {
                return false;
            },
            (Some(x), Some(y)) => {
                if x != y || x == EXTERNAL_KEY_SEP {
                    proof {
                        assert(connection@.contains(connection@[i]));
                        if first_part(key@, connection@) {
                            assert(key@[i] == key@.take(connection@.len() as int)[i]);
                        }
                    }
                    return false;
                }
                proof {
                    assert(key@.take(i + 1) =~= key@.take(i).push(x));
                    assert(connection@.take(i + 1) =~= connection@.take(i).push(y));
                    i = i + 1;
                }
            },
        }
    }
}

/// What one more key adds to the beginning of a list.
proof fn lemma_take_contains(keys: Seq<Seq<char>>, i: int)
    requires
        0 <= i < keys.len(),
    ensures
        forall|k: Seq<char>| #[trigger]
            keys.take(i + 1).contains(k) <==> k == keys[i] || keys.take(i).contains(k),
{
    let now = keys.take(i);
    let next = keys.take(i + 1);
    assert(next[i] == keys[i]);
    assert forall|k: Seq<char>| now.contains(k) implies #[trigger] next.contains(k) by {
        let j = now.index_of(k);
        assert(next[j] == k);
    }
    assert forall|k: Seq<char>| #[trigger] next.contains(k) && k != keys[i] implies now.contains(
        k,
    ) by {
        let j = next.index_of(k);
        assert(now[j] == k);
    }
}

impl Model {
    /// The key of a call: its arguments joined. The first argument that is an error is
    /// returned as it is.
    fn join_args(args: Vec<Result<String, CalcResult>>) -> (key: Result<String, CalcResult>)
        requires
            args@.len() > 0,
        ensures
            match key {
                Ok(key) => (forall|i: int| 0 <= i < args@.len() ==> #[trigger] args@[i] is Ok)
                    && key@ == joined(texts(args@)),
                Err(e) => exists|i: int|
                    0 <= i < args@.len() && args@[i] == Err::<String, CalcResult>(e) && (forall|
                        j: int,
                    |
                        0 <= j < i ==> #[trigger] args@[j] is Ok),
            },
    {
        let ghost all = args@;
        let mut key = String::new();
        let mut first = true;
        for arg in it: args
            invariant
                it.seq() == all,
                first == (it.index() == 0),
                forall|j: int| 0 <= j < it.index() ==> #[trigger] all[j] is Ok,
                key@ == joined(texts(all.take(it.index() as int))),
        {
            let ghost i = it.index() as int;
            match arg {
                Ok(text) => {
                    proof {
                        let now = texts(all.take(i));
                        let next = texts(all.take(i + 1));
                        assert(next.drop_last() =~= now);
                        assert(next.last() == text@);
                        reveal_strlit("\u{1}");
                        assert("\u{1}"@ =~= seq![EXTERNAL_KEY_SEP]);
                    }
                    if !first {
                        key.append("\u{1}");
                    }
                    key.append(text.as_str());
                    first = false;
                    assert(key@ =~= joined(texts(all.take(i + 1))));
                },
                Err(e) => {
                    assert(all[i] == Err::<String, CalcResult>(e));
                    return Err(e);
                },
            }
        }
        assert(all.take(all.len() as int) =~= all);
        Ok(key)
    }

    /// The cells that read an outside key.
    pub open spec fn users_of(self, key: Seq<char>) -> Set<Key> {
        if self.users().contains_key(key) {
            self.users()[key]
        } else {
            Set::empty()
        }
    }

    /// The outside keys asked for that have no value yet.
    pub open spec fn waiting(self) -> Set<Seq<char>> {
        self.external_requests@.difference(self.externals@.dom())
    }

    /// The value a key shows: the cached one, or else the one that is fetched again.
    pub open spec fn shown(self, key: Seq<char>) -> Option<ExternalValue> {
        if self.externals@.contains_key(key) {
            Some(self.externals@[key])
        } else if self.forgotten@.contains_key(key) {
            Some(self.forgotten@[key])
        } else {
            None
        }
    }

    /// How a call in `cell` that reads `key` is answered: the cell becomes a reader of the
    /// key, and gets the value it shows; a key without a cached value is asked for.
    pub open spec fn answers(
        self,
        key: Seq<char>,
        cell: CellReferenceIndex,
        after: Model,
        result: CalcResult,
    ) -> bool {
        &&& after == Model {
            external_users: after.external_users,
            external_requests: after.external_requests,
            ..self
        }
        &&& after.users() == self.users().insert(key, self.users_of(key).insert(cell.as_key()))
        &&& after.external_requests@ == if self.externals@.contains_key(key) {
            self.external_requests@
        } else {
            self.external_requests@.insert(key)
        }
        &&& match self.shown(key) {
            Some(value) => result == result_of(value, cell),
            None => {
                &&& result matches CalcResult::Error { error, origin, message }
                &&& error == Error::NA
                &&& origin == cell
                &&& message@ == "waiting for the API"@
            },
        }
    }

    /// Whether `after` is this model once a value has arrived: it is cached in place of any
    /// earlier one, no longer asked for, and the readers of its key are dirty.
    pub open spec fn sets_external(self, key: Seq<char>, value: ExternalValue, after: Model) -> bool {
        &&& after == Model {
            externals: after.externals,
            forgotten: after.forgotten,
            external_requests: after.external_requests,
            dirty: after.dirty,
            ..self
        }
        &&& after.externals@ == self.externals@.insert(key, value)
        &&& after.forgotten@ == self.forgotten@.remove(key)
        &&& after.external_requests@ == self.external_requests@.remove(key)
        &&& exists|marked: Seq<Key>|
            #![trigger self.dirty@ + marked]
            after.dirty@ == self.dirty@ + marked && marked.no_duplicates() && marked.to_set()
                == self.users_of(key)
    }

    /// Whether `after` is this model once a value is to be fetched again: it is asked for,
    /// and what was cached is kept apart.
    pub open spec fn forgets_external(self, key: Seq<char>, after: Model) -> bool {
        &&& after == Model {
            externals: after.externals,
            forgotten: after.forgotten,
            external_requests: after.external_requests,
            ..self
        }
        &&& after.externals@ == self.externals@.remove(key)
        &&& after.forgotten@ == if self.externals@.contains_key(key) {
            self.forgotten@.insert(key, self.externals@[key])
        } else {
            self.forgotten@
        }
        &&& after.external_requests@ == self.external_requests@.insert(key)
    }

    /// The value of an `API` call in `cell`, given its evaluated arguments up to the first
    /// that is an error, as `wants_argument` asks for them.
    pub fn fn_api(
        &mut self,
        args: Vec<Result<String, CalcResult>>,
        cell: CellReferenceIndex,
    ) -> (result: CalcResult)
        ensures
            args@.len() == 0 ==> *final(self) == *old(self) && result
                == (CalcResult::ArgsNumberError { origin: cell }),
            forall|i: int|
                0 <= i < args@.len() && (#[trigger] args@[i]) is Err && (forall|j: int|
                    0 <= j < i ==> #[trigger] args@[j] is Ok) ==> *final(self) == *old(self)
                    && args@[i] == Err::<String, CalcResult>(result),
            args@.len() > 0 && (forall|i: int| 0 <= i < args@.len() ==> #[trigger] args@[i] is Ok)
                ==> old(self).answers(joined(texts(args@)), cell, *final(self), result),
    {
        if args.len() == 0 {
            return CalcResult::ArgsNumberError { origin: cell };
        }
        let key: String = match Self::join_args(args) {
            Ok(key) => key,
            Err(e) => {
                return e;
            },
        };
        let ghost before = *self;
        let mut users = match self.external_users.remove(key.as_str()) {
            Some(users) => users,
            None => CellSet::new(),
        };
        users.insert(cell.key());
        self.external_users.insert(key.as_str(), users);
        assert(self.users() =~= before.users().insert(
            key@,
            before.users_of(key@).insert(cell.as_key()),
        ));
        let cached = self.externals.get(key.as_str());
        let shown = match cached {
            Some(value) => Some(value),
            None => {
                self.external_requests.insert(key.as_str());
                self.forgotten.get(key.as_str())
            },
        };
        match shown {
            Some(ExternalValue::Number(n)) => CalcResult::Number(*n),
            Some(ExternalValue::Text(t)) => CalcResult::String(t.clone()),
            Some(ExternalValue::Boolean(b)) => CalcResult::Boolean(*b),
            Some(ExternalValue::Failed(m)) => CalcResult::Error {
                error: Error::NA,
                origin: cell,
                message: m.clone(),
            },
            None => CalcResult::Error {
                error: Error::NA,
                origin: cell,
                message: "waiting for the API".to_string(),
            },
        }
    }

    /// Keys asked for by `API` calls that have no value yet.
    pub fn external_requests(&self) -> (keys: Vec<String>)
        ensures
            crate::text::lists(keys@, self.waiting()),
    {
        let mut waiting = TextSet::new();
        let n: usize = self.external_requests.len();
        let ghost all = self.external_requests.key_list();
        for i in 0..n
            invariant
                n == all.len(),
                all == self.external_requests.key_list(),
                forall|k: Seq<char>| #[trigger]
                    waiting@.contains(k) <==> all.take(i as int).contains(k)
                        && !self.externals@.contains_key(k),
        {
            proof {
                lemma_take_contains(all, i as int);
            }
            let key = self.external_requests.key_at(i);
            if !self.externals.contains_key(key.as_str()) {
                waiting.insert(key.as_str());
            }
        }
        proof {
            assert(all.take(n as int) =~= all);
            assert(waiting@ =~= all.to_set().difference(self.externals@.dom()));
        }
        waiting.to_vec()
    }

    /// Puts a value in the cache and marks every cell reading it dirty; `evaluate_dirty`
    /// then carries it on. Returns how many cells read the key.
    pub fn set_external(&mut self, key: &str, value: ExternalValue) -> (count: usize)
        ensures
            old(self).sets_external(key@, value, *final(self)),
            count == old(self).users_of(key@).len(),
    {
        let ghost before = *self;
        self.externals.insert(key, value);
        self.forgotten.remove(key);
        self.external_requests.remove(key);
        let users: Vec<Key> = match self.external_users.get(key) {
            Some(users) => users.to_vec(),
            None => Vec::new(),
        };
        proof {
            assert(users@.to_set() =~= before.users_of(key@));
            users@.unique_seq_to_set();
        }
        for i in 0..users.len()
            invariant
                *self == (Model {
                    externals: self.externals,
                    forgotten: self.forgotten,
                    external_requests: self.external_requests,
                    dirty: self.dirty,
                    ..before
                }),
                self.externals@ == before.externals@.insert(key@, value),
                self.forgotten@ == before.forgotten@.remove(key@),
                self.external_requests@ == before.external_requests@.remove(key@),
                self.dirty@ == before.dirty@ + users@.take(i as int),
        {
            let (sheet, row, column) = users[i];
            self.mark_dirty(sheet, row, column);
            assert(self.dirty@ =~= before.dirty@ + users@.take(i + 1));
        }
        assert(users@.take(users@.len() as int) =~= users@);
        users.len()
    }

    /// Forgets a cached value (the application will fetch it again); the cells reading it
    /// keep showing the old value until the new one arrives.
    pub fn forget_external(&mut self, key: &str)
        ensures
            old(self).forgets_external(key@, *final(self)),
    {
        if let Some(value) = self.externals.remove(key) {
            self.forgotten.insert(key, value);
        }
        self.external_requests.insert(key);
    }

    /// The cached value of a key.
    pub fn external_value(&self, key: &str) -> (value: Option<&ExternalValue>)
        ensures
            match value {
                Some(v) => self.externals@.contains_key(key@) && *v == self.externals@[key@],
                None => !self.externals@.contains_key(key@),
            },
    {
        self.externals.get(key)
    }

    /// Every cached key with its value, for the file.
    pub fn externals(&self) -> (entries: Vec<(String, ExternalValue)>)
        ensures
            crate::text::lists(
                entries@.map_values(|entry: (String, ExternalValue)| entry.0),
                self.externals@.dom(),
            ),
            forall|i: int|
                0 <= i < entries@.len() ==> (#[trigger] entries@[i]).1
                    == self.externals@[entries@[i].0@],
    {
        let mut entries: Vec<(String, ExternalValue)> = Vec::new();
        let n: usize = self.externals.len();
        let ghost all = self.externals.key_list();
        for i in 0..n
            invariant
                n == all.len(),
                all == self.externals.key_list(),
                entries@.len() == i,
                forall|j: int|
                    0 <= j < i ==> (#[trigger] entries@[j]).0@ == all[j] && entries@[j].1
                        == self.externals@[all[j]],
        {
            let key = self.externals.key_at(i).clone();
            let value = self.externals.value_at(i).clone();
            entries.push((key, value));
        }
        proof {
            let keys = entries@.map_values(|entry: (String, ExternalValue)| entry.0);
            assert(keys.map_values(|key: String| key@) =~= all);
        }
        entries
    }

    /// Every key whose first part (the connection) is `connection`.
    pub fn external_keys_of(&self, connection: &str) -> (keys: Vec<String>)
        ensures
            crate::text::lists(
                keys@,
                self.externals@.dom().union(self.external_requests@).filter(
                    |key: Seq<char>| first_part(key, connection@),
                ),
            ),
    {
        let mut found = TextSet::new();
        let n: usize = self.externals.len();
        let ghost cached = self.externals.key_list();
        for i in 0..n
            invariant
                n == cached.len(),
                cached == self.externals.key_list(),
                forall|k: Seq<char>| #[trigger]
                    found@.contains(k) <==> cached.take(i as int).contains(k) && first_part(
                        k,
                        connection@,
                    ),
        {
            proof {
                lemma_take_contains(cached, i as int);
            }
            let key = self.externals.key_at(i);
            if has_connection(key.as_str(), connection) {
                found.insert(key.as_str());
            }
        }
        assert(cached.take(n as int) =~= cached);
        let m: usize = self.external_requests.len();
        let ghost asked = self.external_requests.key_list();
        for i in 0..m
            invariant
                m == asked.len(),
                asked == self.external_requests.key_list(),
                forall|k: Seq<char>| #[trigger]
                    found@.contains(k) <==> (cached.contains(k) || asked.take(i as int).contains(k))
                        && first_part(k, connection@),
        {
            proof {
                lemma_take_contains(asked, i as int);
            }
            let key = self.external_requests.key_at(i);
            if has_connection(key.as_str(), connection) {
                found.insert(key.as_str());
            }
        }
        proof {
            assert(asked.take(m as int) =~= asked);
            assert(found@ =~= cached.to_set().union(asked.to_set()).filter(
                |key: Seq<char>| first_part(key, connection@),
            ));
        }
        found.to_vec()
    }

    /// The keys a cell reads through `API`, as of its last evaluation.
    pub fn cell_external_keys(&self, sheet: u32, row: i32, column: i32) -> (keys: Vec<String>)
        ensures
            crate::text::lists(
                keys@,
                self.users().dom().filter(
                    |key: Seq<char>| self.users()[key].contains((sheet, row, column)),
                ),
            ),
    {
        let at: Key = (sheet, row, column);
        let mut found = TextSet::new();
        let n: usize = self.external_users.len();
        let ghost all = self.external_users.key_list();
        for i in 0..n
            invariant
                n == all.len(),
                all == self.external_users.key_list(),
                all.to_set() == self.external_users@.dom(),
                forall|k: Seq<char>| #[trigger]
                    found@.contains(k) <==> all.take(i as int).contains(k)
                        && self.users()[k].contains(at),
        {
            proof {
                lemma_take_contains(all, i as int);
                assert(all.to_set().contains(all[i as int]));
            }
            if self.external_users.value_at(i).contains(at) {
                found.insert(self.external_users.key_at(i).as_str());
            }
        }
        proof {
            assert(all.take(n as int) =~= all);
            assert(found@ =~= self.users().dom().filter(
                |key: Seq<char>| self.users()[key].contains((sheet, row, column)),
            ));
        }
        found.to_vec()
    }

    /// Takes every cell out of the lists of readers of outside values.
    pub fn clear_external_users(&mut self)
        ensures
            *final(self) == (Model { external_users: final(self).external_users, ..*old(self) }),
            final(self).users() == Map::<Seq<char>, Set<Key>>::empty(),
    {
        self.external_users.clear();
        assert(self.users() =~= Map::<Seq<char>, Set<Key>>::empty());
    }

    /// Takes a cell out of the readers of every outside value.
    pub fn forget_external_user(&mut self, at: Key)
        ensures
            *final(self) == (Model { external_users: final(self).external_users, ..*old(self) }),
            final(self).users() == old(self).users().map_values(|users: Set<Key>| users.remove(at)),
    {
        let ghost before = self.users();
        let n: usize = self.external_users.len();
        let ghost keys = self.external_users.key_list();
        for i in 0..n
            invariant
                n == keys.len(),
                crate::text::increasing(keys),
                keys.to_set() == before.dom(),
                self.external_users.key_list() == keys,
                *self == (Model { external_users: self.external_users, ..*old(self) }),
                self.users().dom() == before.dom(),
                forall|j: int| 0 <= j < i ==> self.users()[#[trigger] keys[j]]
                    == before[keys[j]].remove(at),
                forall|j: int| i <= j < n ==> self.users()[#[trigger] keys[j]] == before[keys[j]],
        {
            let ghost now = self.users();
            let mut users = CellSet::new();
            self.external_users.swap_at(i, &mut users);
            users.remove(at);
            self.external_users.swap_at(i, &mut users);
            proof {
                crate::text::lemma_increasing_distinct(keys);
                assert(keys.to_set().contains(keys[i as int]));
                assert(self.users() =~= now.insert(keys[i as int], now[keys[i as int]].remove(at)));
            }
        }
        proof {
            let goal = before.map_values(|users: Set<Key>| users.remove(at));
            assert forall|k: Seq<char>| #[trigger] goal.contains_key(k) implies self.users()[k]
                == goal[k] by {
                assert(keys.to_set().contains(k));
                let j = keys.index_of(k);
                assert(keys[j] == k);
            }
            assert(self.users() =~= goal);
        }
    }
}

} // verus!
