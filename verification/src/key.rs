//! Cell addresses, and their encoding as one integer.
use vstd::prelude::*;
use vstd::set_lib::*;

verus! {

/// (sheet, row, column)
pub type Key = (u32, i32, i32);

/// A cell of the workbook, by name.
#[derive(Debug, Clone, Copy, PartialEq, Eq, Structural)]
pub struct CellReferenceIndex {
    pub sheet: u32,
    pub row: i32,
    pub column: i32,
}

impl CellReferenceIndex {
    /// The same address as a tuple.
    pub open spec fn as_key(self) -> Key {
        (self.sheet, self.row, self.column)
    }

    /// The same address as a tuple.
    pub fn key(&self) -> (k: Key)
        ensures
            k == self.as_key(),
    {
        (self.sheet, self.row, self.column)
    }
}

/// One more than the largest code a key can have.
pub(crate) open spec fn code_bound() -> int {
    0x1_0000_0000_0000_0000_0000_0000
}

/// The key as one integer: 32 bits of sheet, 32 of row, 32 of column, the signed ones
/// shifted so that the smallest is zero.
pub(crate) open spec fn code_of(k: Key) -> u128 {
    (k.0 * 0x1_0000_0000_0000_0000 + (k.1 + 0x8000_0000) * 0x1_0000_0000 + (k.2
        + 0x8000_0000)) as u128
}

/// The key with a given code.
pub(crate) open spec fn key_of(code: u128) -> Key {
    (
        (code / 0x1_0000_0000_0000_0000) as u32,
        ((code / 0x1_0000_0000) % 0x1_0000_0000 - 0x8000_0000) as i32,
        (code % 0x1_0000_0000 - 0x8000_0000) as i32,
    )
}

pub(crate) fn encode(k: Key) -> (code: u128)
    ensures
        code == code_of(k),
{
    let row: i64 = k.1 as i64 + 0x8000_0000;
    let column: i64 = k.2 as i64 + 0x8000_0000;
    k.0 as u128 * 0x1_0000_0000_0000_0000 + row as u128 * 0x1_0000_0000 + column as u128
}

pub(crate) fn decode(code: u128) -> (k: Key)
    requires
        code < code_bound(),
    ensures
        k == key_of(code),
{
    let row: i64 = ((code / 0x1_0000_0000) % 0x1_0000_0000) as i64;
    let column: i64 = (code % 0x1_0000_0000) as i64;
    (
        (code / 0x1_0000_0000_0000_0000) as u32,
        (row - 0x8000_0000) as i32,
        (column - 0x8000_0000) as i32,
    )
}

pub(crate) proof fn lemma_key_of_code(k: Key)
    ensures
        code_of(k) < code_bound(),
        key_of(code_of(k)) == k,
{
}

pub(crate) proof fn lemma_code_of_key(code: u128)
    requires
        code < code_bound(),
    ensures
        code_of(key_of(code)) == code,
{
}

/// There are finitely many addresses, so every set of them is finite.
pub proof fn lemma_keys_finite(s: Set<Key>)
    ensures
        s.finite(),
{
    let codes = set_int_range(0, code_bound());
    lemma_int_range(0, code_bound());
    let f = |c: int| key_of(c as u128);
    codes.lemma_map_finite(f);
    let all = codes.map(f);
    assert forall|k: Key| s.contains(k) implies all.contains(k) by {
        lemma_key_of_code(k);
        let c = code_of(k) as int;
        assert(codes.contains(c));
        assert(f(c) == k);
    }
    lemma_set_subset_finite(all, s);
}

/// There are finitely many sheets, so every set of them is finite.
pub proof fn lemma_sheets_finite(s: Set<u32>)
    ensures
        s.finite(),
{
    let numbers = set_int_range(0, 0x1_0000_0000);
    lemma_int_range(0, 0x1_0000_0000);
    let f = |n: int| n as u32;
    numbers.lemma_map_finite(f);
    let all = numbers.map(f);
    assert forall|k: u32| s.contains(k) implies all.contains(k) by {
        assert(numbers.contains(k as int));
        assert(f(k as int) == k);
    }
    lemma_set_subset_finite(all, s);
}

} // verus!
