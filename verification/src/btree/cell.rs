//! The cells of tree pages.
//!
//! ```text
//!   leaf     key length (2) | key | value
//!   branch   key length (2) | child (4) | key
//! ```
//!
//! Reading a cell that is too short for what it declares gives an empty
//! key, an empty value and child 0.

use vstd::prelude::*;
use vstd::slice::slice_subrange;

use crate::bytes::{
    get_le, lemma_le_round_trip, lemma_le_value_bytes, lemma_radix_values, le_bytes, le_value, put_bytes, put_le,
};

verus! {

/// The leaf cell for `key` and `value`.
pub open spec fn leaf_cell_of(key: Seq<u8>, value: Seq<u8>) -> Seq<u8> {
    le_bytes(key.len(), 2) + key + value
}

/// The key length that a cell declares.
pub open spec fn declared_len(cell: Seq<u8>) -> nat {
    le_value(cell.take(2))
}

/// The key in a leaf cell.
pub open spec fn leaf_key_of(cell: Seq<u8>) -> Seq<u8> {
    if cell.len() < 2 || cell.len() < 2 + declared_len(cell) {
        Seq::empty()
    } else {
        cell.subrange(2, 2 + declared_len(cell) as int)
    }
}

/// The value in a leaf cell.
pub open spec fn leaf_value_of(cell: Seq<u8>) -> Seq<u8> {
    if cell.len() < 2 || cell.len() < 2 + declared_len(cell) {
        Seq::empty()
    } else {
        cell.skip(2 + declared_len(cell) as int)
    }
}

/// The branch cell for `key` and `child`.
pub open spec fn branch_cell_of(key: Seq<u8>, child: u32) -> Seq<u8> {
    le_bytes(key.len(), 2) + le_bytes(child as nat, 4) + key
}

/// The separator in a branch cell.
pub open spec fn branch_key_of(cell: Seq<u8>) -> Seq<u8> {
    if cell.len() < 6 || cell.len() < 6 + declared_len(cell) {
        Seq::empty()
    } else {
        cell.subrange(6, 6 + declared_len(cell) as int)
    }
}

/// The child in a branch cell.
pub open spec fn branch_child_of(cell: Seq<u8>) -> u32 {
    if cell.len() < 6 {
        0
    } else {
        le_value(cell.subrange(2, 6)) as u32
    }
}

/// A leaf cell gives back the key and the value it was made of.
pub proof fn lemma_leaf_cell(key: Seq<u8>, value: Seq<u8>)
    requires
        key.len() < 0x1_0000,
    ensures
        leaf_cell_of(key, value).len() == 2 + key.len() + value.len(),
        leaf_key_of(leaf_cell_of(key, value)) == key,
        leaf_value_of(leaf_cell_of(key, value)) == value,
{
    lemma_radix_values();
    lemma_le_round_trip(key.len(), 2);
    let cell = leaf_cell_of(key, value);
    assert(cell.take(2) =~= le_bytes(key.len(), 2));
    assert(leaf_key_of(cell) =~= key);
    assert(leaf_value_of(cell) =~= value);
}

/// A branch cell gives back the separator and the child it was made of.
pub proof fn lemma_branch_cell(key: Seq<u8>, child: u32)
    requires
        key.len() < 0x1_0000,
    ensures
        branch_cell_of(key, child).len() == 6 + key.len(),
        branch_key_of(branch_cell_of(key, child)) == key,
        branch_child_of(branch_cell_of(key, child)) == child,
{
    lemma_radix_values();
    lemma_le_round_trip(key.len(), 2);
    lemma_le_round_trip(child as nat, 4);
    let cell = branch_cell_of(key, child);
    assert(cell.take(2) =~= le_bytes(key.len(), 2));
    assert(cell.subrange(2, 6) =~= le_bytes(child as nat, 4));
    assert(branch_key_of(cell) =~= key);
}

pub fn leaf_cell(key: &[u8], value: &[u8]) -> (cell: Vec<u8>)
    requires
        key@.len() < 0x1_0000,
    ensures
        cell@ == leaf_cell_of(key@, value@),
{
    let mut cell: Vec<u8> = Vec::new();
    put_le(&mut cell, key.len() as u64, 2);
    put_bytes(&mut cell, key);
    put_bytes(&mut cell, value);
    proof {
        assert(cell@ =~= leaf_cell_of(key@, value@));
    }
    cell
}

pub fn leaf_key(cell: &[u8]) -> (key: &[u8])
    ensures
        key@ == leaf_key_of(cell@),
{
    if cell.len() < 2 {
        let empty = slice_subrange(cell, 0, 0);
        proof {
            assert(empty@ =~= Seq::<u8>::empty());
        }
        return empty;
    }
    let len: usize = declared(cell);
    if cell.len() - 2 < len {
        let empty = slice_subrange(cell, 0, 0);
        proof {
            assert(empty@ =~= Seq::<u8>::empty());
        }
        return empty;
    }
    slice_subrange(cell, 2, 2 + len)
}

pub fn leaf_value(cell: &[u8]) -> (value: &[u8])
    ensures
        value@ == leaf_value_of(cell@),
{
    if cell.len() < 2 {
        let empty = slice_subrange(cell, 0, 0);
        proof {
            assert(empty@ =~= Seq::<u8>::empty());
        }
        return empty;
    }
    let len: usize = declared(cell);
    if cell.len() - 2 < len {
        let empty = slice_subrange(cell, 0, 0);
        proof {
            assert(empty@ =~= Seq::<u8>::empty());
        }
        return empty;
    }
    let value = slice_subrange(cell, 2 + len, cell.len());
    proof {
        assert(value@ =~= leaf_value_of(cell@));
    }
    value
}

pub fn branch_cell(key: &[u8], child: u32) -> (cell: Vec<u8>)
    requires
        key@.len() < 0x1_0000,
    ensures
        cell@ == branch_cell_of(key@, child),
{
    let mut cell: Vec<u8> = Vec::new();
    put_le(&mut cell, key.len() as u64, 2);
    put_le(&mut cell, child as u64, 4);
    put_bytes(&mut cell, key);
    proof {
        assert(cell@ =~= branch_cell_of(key@, child));
    }
    cell
}

pub fn branch_key(cell: &[u8]) -> (key: &[u8])
    ensures
        key@ == branch_key_of(cell@),
{
    if cell.len() < 6 {
        let empty = slice_subrange(cell, 0, 0);
        proof {
            assert(empty@ =~= Seq::<u8>::empty());
        }
        return empty;
    }
    let len: usize = declared(cell);
    if cell.len() - 6 < len {
        let empty = slice_subrange(cell, 0, 0);
        proof {
            assert(empty@ =~= Seq::<u8>::empty());
        }
        return empty;
    }
    slice_subrange(cell, 6, 6 + len)
}

pub fn branch_child(cell: &[u8]) -> (child: u32)
    ensures
        child == branch_child_of(cell@),
{
    if cell.len() < 6 {
        return 0;
    }
    let raw: u64 = get_le(cell, 2, 4);
    proof {
        lemma_radix_values();
        lemma_le_value_bytes(cell@.subrange(2, 6));
    }
    raw as u32
}

/// The key length that a cell declares.
fn declared(cell: &[u8]) -> (len: usize)
    requires
        cell@.len() >= 2,
    ensures
        len == declared_len(cell@),
        len < 0x1_0000,
{
    let raw: u64 = get_le(cell, 0, 2);
    proof {
        assert(cell@.take(2) =~= cell@.subrange(0, 2));
        lemma_radix_values();
        lemma_le_value_bytes(cell@.subrange(0, 2));
    }
    raw as usize
}

} // verus!
