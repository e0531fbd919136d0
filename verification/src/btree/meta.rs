//! The meta record of a tree: which pages the committed tree is in.
//!
//! ```text
//!   "FQBT" | generation (8) | root (4) | entries (8) | high water (4)
//!          | free count (2) | free count × (generation (8) | page (4))
//! ```

use vstd::prelude::*;

use crate::bytes::{get_le, le_bytes, le_value, lemma_le_round_trip, lemma_le_value_bytes, lemma_radix_values, put_le};

verus! {

/// Superseded pages that a meta record lists at most.
pub const MAX_FREE_ENTRIES: usize = 1024;

/// Bytes of a meta record before its list of free pages.
pub const META_FIXED_LEN: usize = 30;

/// A superseded page and the generation that stopped using it.
#[derive(Clone, Copy, PartialEq, Eq, Debug, Structural)]
pub struct FreeEntry {
    pub generation: u64,
    pub page: u32,
}

/// What a meta record says.
pub struct MetaState {
    pub generation: u64,
    pub root: u32,
    pub entries: u64,
    pub high_water: u32,
    pub free: Vec<FreeEntry>,
}

/// What a meta record says, as a value.
#[verifier::ext_equal]
pub struct MetaView {
    pub generation: u64,
    pub root: u32,
    pub entries: u64,
    pub high_water: u32,
    pub free: Seq<FreeEntry>,
}

impl View for MetaState {
    type V = MetaView;

    open spec fn view(&self) -> MetaView {
        MetaView {
            generation: self.generation,
            root: self.root,
            entries: self.entries,
            high_water: self.high_water,
            free: self.free@,
        }
    }
}

/// The bytes that meta records begin with: `FQBT`.
pub open spec fn meta_magic() -> Seq<u8> {
    seq![0x46u8, 0x51u8, 0x42u8, 0x54u8]
}

pub open spec fn entry_bytes(entry: FreeEntry) -> Seq<u8> {
    le_bytes(entry.generation as nat, 8) + le_bytes(entry.page as nat, 4)
}

pub open spec fn free_bytes(free: Seq<FreeEntry>) -> Seq<u8>
    decreases free.len(),
{
    if free.len() == 0 {
        Seq::empty()
    } else {
        free_bytes(free.drop_last()) + entry_bytes(free.last())
    }
}

/// The part of the free list that a record keeps.
pub open spec fn kept_free(free: Seq<FreeEntry>) -> Seq<FreeEntry> {
    if free.len() <= MAX_FREE_ENTRIES {
        free
    } else {
        free.take(MAX_FREE_ENTRIES as int)
    }
}

/// The record for `m`.
pub open spec fn meta_bytes(m: MetaView) -> Seq<u8> {
    meta_magic() + le_bytes(m.generation as nat, 8) + le_bytes(m.root as nat, 4) + le_bytes(
        m.entries as nat,
        8,
    ) + le_bytes(m.high_water as nat, 4) + le_bytes(kept_free(m.free).len(), 2) + free_bytes(
        kept_free(m.free),
    )
}

/// The entry at position `i` of a record's free list.
pub open spec fn free_at(bytes: Seq<u8>, i: int) -> FreeEntry {
    let at = META_FIXED_LEN + 12 * i;
    FreeEntry {
        generation: le_value(bytes.subrange(at, at + 8)) as u64,
        page: le_value(bytes.subrange(at + 8, at + 12)) as u32,
    }
}

/// What `bytes` say as a meta record, if they are one.
pub open spec fn meta_of(bytes: Seq<u8>) -> Option<MetaView> {
    if bytes.len() < META_FIXED_LEN || bytes.take(4) != meta_magic() {
        None
    } else {
        let count = le_value(bytes.subrange(28, 30));
        if bytes.len() < META_FIXED_LEN + 12 * count {
            None
        } else {
            Some(
                MetaView {
                    generation: le_value(bytes.subrange(4, 12)) as u64,
                    root: le_value(bytes.subrange(12, 16)) as u32,
                    entries: le_value(bytes.subrange(16, 24)) as u64,
                    high_water: le_value(bytes.subrange(24, 28)) as u32,
                    free: Seq::new(count, |i: int| free_at(bytes, i)),
                },
            )
        }
    }
}

proof fn lemma_entry_bytes(entry: FreeEntry)
    ensures
        entry_bytes(entry).len() == 12,
        le_value(entry_bytes(entry).take(8)) == entry.generation,
        le_value(entry_bytes(entry).skip(8)) == entry.page,
{
    lemma_radix_values();
    lemma_le_round_trip(entry.generation as nat, 8);
    lemma_le_round_trip(entry.page as nat, 4);
    assert(entry_bytes(entry).take(8) =~= le_bytes(entry.generation as nat, 8));
    assert(entry_bytes(entry).skip(8) =~= le_bytes(entry.page as nat, 4));
}

proof fn lemma_free_bytes(free: Seq<FreeEntry>)
    ensures
        free_bytes(free).len() == 12 * free.len(),
        forall|i: int|
            0 <= i < free.len() ==> free_bytes(free).subrange(12 * i, 12 * i + 12) == entry_bytes(
                #[trigger] free[i],
            ),
    decreases free.len(),
{
    if free.len() > 0 {
        let init = free.drop_last();
        lemma_free_bytes(init);
        lemma_entry_bytes(free.last());
        assert forall|i: int| 0 <= i < free.len() implies free_bytes(free).subrange(12 * i, 12 * i + 12)
            == entry_bytes(#[trigger] free[i]) by {
            let whole = free_bytes(free);
            if i < init.len() {
                assert(init[i] == free[i]);
                assert(whole.subrange(12 * i, 12 * i + 12) =~= free_bytes(init).subrange(
                    12 * i,
                    12 * i + 12,
                ));
            } else {
                assert(whole.subrange(12 * i, 12 * i + 12) =~= entry_bytes(free.last()));
            }
        }
    }
}

/// Reading the record written for `m` gives `m` back, with as much of its
/// free list as a record keeps.
pub proof fn lemma_meta_round_trip(m: MetaView)
    ensures
        meta_bytes(m).len() == META_FIXED_LEN + 12 * kept_free(m.free).len(),
        meta_of(meta_bytes(m)) == Some(MetaView { free: kept_free(m.free), ..m }),
{
    let free = kept_free(m.free);
    let bytes = meta_bytes(m);
    lemma_radix_values();
    lemma_le_round_trip(m.generation as nat, 8);
    lemma_le_round_trip(m.root as nat, 4);
    lemma_le_round_trip(m.entries as nat, 8);
    lemma_le_round_trip(m.high_water as nat, 4);
    lemma_le_round_trip(free.len(), 2);
    lemma_free_bytes(free);
    assert(bytes.take(4) =~= meta_magic());
    assert(bytes.subrange(4, 12) =~= le_bytes(m.generation as nat, 8));
    assert(bytes.subrange(12, 16) =~= le_bytes(m.root as nat, 4));
    assert(bytes.subrange(16, 24) =~= le_bytes(m.entries as nat, 8));
    assert(bytes.subrange(24, 28) =~= le_bytes(m.high_water as nat, 4));
    assert(bytes.subrange(28, 30) =~= le_bytes(free.len(), 2));
    assert forall|i: int| 0 <= i < free.len() implies free_at(bytes, i) == #[trigger] free[i] by {
        let at = META_FIXED_LEN + 12 * i;
        lemma_entry_bytes(free[i]);
        let part = free_bytes(free).subrange(12 * i, 12 * i + 12);
        assert(bytes.subrange(at, at + 8) =~= part.take(8));
        assert(bytes.subrange(at + 8, at + 12) =~= part.skip(8));
    }
    let back = Seq::new(free.len(), |i: int| free_at(bytes, i));
    assert(back =~= free);
}

impl MetaState {
    pub fn encode(&self) -> (out: Vec<u8>)
        ensures
            out@ == meta_bytes(self@),
    {
        let count: usize = if self.free.len() < MAX_FREE_ENTRIES {
            self.free.len()
        } else {
            MAX_FREE_ENTRIES
        };
        let mut out: Vec<u8> = vec![0x46u8, 0x51u8, 0x42u8, 0x54u8];
        proof {
            assert(out@ =~= meta_magic());
        }
        put_le(&mut out, self.generation, 8);
        put_le(&mut out, self.root as u64, 4);
        put_le(&mut out, self.entries, 8);
        put_le(&mut out, self.high_water as u64, 4);
        put_le(&mut out, count as u64, 2);
        let ghost head = out@;
        let ghost kept = kept_free(self.free@);
        let mut i: usize = 0;
        proof {
            assert(kept.len() == count);
            assert(out@ =~= head + free_bytes(kept.take(0)));
        }
        while i < count
            invariant
                kept == kept_free(self.free@),
                kept.len() == count,
                count <= self.free.len(),
                i <= count,
                out@ == head + free_bytes(kept.take(i as int)),
            decreases count - i,
        {
            let entry: FreeEntry = self.free[i];
            put_le(&mut out, entry.generation, 8);
            put_le(&mut out, entry.page as u64, 4);
            proof {
                let next = kept.take(i + 1);
                assert(next.drop_last() =~= kept.take(i as int));
                assert(next.last() == entry);
                assert(out@ =~= head + free_bytes(next));
            }
            i = i + 1;
        }
        proof {
            assert(kept.take(count as int) =~= kept);
            assert(out@ =~= meta_bytes(self@));
        }
        out
    }

    pub fn decode(bytes: &[u8]) -> (r: Option<MetaState>)
        ensures
            match r {
                Some(m) => meta_of(bytes@) == Some(m@),
                None => meta_of(bytes@) is None,
            },
    {
        if bytes.len() < META_FIXED_LEN {
            return None;
        }
        if bytes[0] != 0x46 || bytes[1] != 0x51 || bytes[2] != 0x42 || bytes[3] != 0x54 {
            proof {
                assert(bytes@.take(4)[0] == bytes@[0]);
                assert(bytes@.take(4)[1] == bytes@[1]);
                assert(bytes@.take(4)[2] == bytes@[2]);
                assert(bytes@.take(4)[3] == bytes@[3]);
            }
            return None;
        }
        proof {
            assert(bytes@.take(4) =~= meta_magic());
            lemma_radix_values();
            lemma_le_value_bytes(bytes@.subrange(4, 12));
            lemma_le_value_bytes(bytes@.subrange(12, 16));
            lemma_le_value_bytes(bytes@.subrange(16, 24));
            lemma_le_value_bytes(bytes@.subrange(24, 28));
            lemma_le_value_bytes(bytes@.subrange(28, 30));
        }
        let generation: u64 = get_le(bytes, 4, 8);
        let root: u32 = get_le(bytes, 12, 4) as u32;
        let entries: u64 = get_le(bytes, 16, 8);
        let high_water: u32 = get_le(bytes, 24, 4) as u32;
        let count: usize = get_le(bytes, 28, 2) as usize;
        if bytes.len() - META_FIXED_LEN < 12 * count {
            return None;
        }
        let mut free: Vec<FreeEntry> = Vec::with_capacity(count);
        let mut i: usize = 0;
        while i < count
            invariant
                count < 0x1_0000,
                META_FIXED_LEN + 12 * count <= bytes@.len(),
                i <= count,
                free@.len() == i,
                forall|j: int| 0 <= j < i ==> #[trigger] free@[j] == free_at(bytes@, j),
            decreases count - i,
        {
            let at: usize = META_FIXED_LEN + 12 * i;
            proof {
                lemma_radix_values();
                lemma_le_value_bytes(bytes@.subrange(at as int, at + 8));
                lemma_le_value_bytes(bytes@.subrange(at + 8, at + 12));
            }
            free.push(FreeEntry { generation: get_le(bytes, at, 8), page: get_le(bytes, at + 8, 4) as u32 });
            i = i + 1;
        }
        let m = MetaState { generation, root, entries, high_water, free };
        proof {
            assert(m@.free =~= Seq::new(count as nat, |i: int| free_at(bytes@, i)));
        }
        Some(m)
    }
}

} // verus!
