//! Record locations as bytes, the way indexes keep them.

use vstd::prelude::*;

use crate::bytes::{be_bytes, be_value, get_be, lemma_be_round_trip, lemma_be_value_bytes, lemma_radix_values, put_be};
use crate::types::RecordLocation;

verus! {

/// Bytes that a location takes.
pub const LOCATION_LEN: usize = 14;

/// A location's bytes.
pub open spec fn location_bytes(l: RecordLocation) -> Seq<u8> {
    be_bytes(l.segment as nat, 4) + be_bytes(l.page as nat, 4) + be_bytes(l.slot as nat, 2) + be_bytes(
        l.length as nat,
        4,
    )
}

/// The location that bytes stand for, if they stand for one.
pub open spec fn location_of(bytes: Seq<u8>) -> Option<RecordLocation> {
    if bytes.len() != LOCATION_LEN {
        None
    } else {
        Some(
            RecordLocation {
                segment: be_value(bytes.subrange(0, 4)) as u32,
                page: be_value(bytes.subrange(4, 8)) as u32,
                slot: be_value(bytes.subrange(8, 10)) as u16,
                length: be_value(bytes.subrange(10, 14)) as u32,
            },
        )
    }
}

/// A location that is written and read again is the same.
pub proof fn law_location_round_trip(l: RecordLocation)
    ensures
        location_bytes(l).len() == LOCATION_LEN,
        location_of(location_bytes(l)) == Some(l),
{
    lemma_radix_values();
    lemma_be_round_trip(l.segment as nat, 4);
    lemma_be_round_trip(l.page as nat, 4);
    lemma_be_round_trip(l.slot as nat, 2);
    lemma_be_round_trip(l.length as nat, 4);
    let b = location_bytes(l);
    assert(b.subrange(0, 4) =~= be_bytes(l.segment as nat, 4));
    assert(b.subrange(4, 8) =~= be_bytes(l.page as nat, 4));
    assert(b.subrange(8, 10) =~= be_bytes(l.slot as nat, 2));
    assert(b.subrange(10, 14) =~= be_bytes(l.length as nat, 4));
}

impl RecordLocation {
    pub fn encode(&self) -> (r: Vec<u8>)
        ensures
            r@ == location_bytes(*self),
    {
        let mut out: Vec<u8> = Vec::with_capacity(LOCATION_LEN);
        put_be(&mut out, self.segment as u64, 4);
        put_be(&mut out, self.page as u64, 4);
        put_be(&mut out, self.slot as u64, 2);
        put_be(&mut out, self.length as u64, 4);
        out
    }

    pub fn decode(bytes: &[u8]) -> (r: Option<RecordLocation>)
        ensures
            r == location_of(bytes@),
    {
        if bytes.len() != LOCATION_LEN {
            return None;
        }
        proof {
            lemma_radix_values();
            lemma_be_value_bytes(bytes@.subrange(0, 4));
            lemma_be_value_bytes(bytes@.subrange(4, 8));
            lemma_be_value_bytes(bytes@.subrange(8, 10));
            lemma_be_value_bytes(bytes@.subrange(10, 14));
        }
        Some(
            RecordLocation {
                segment: get_be(bytes, 0, 4) as u32,
                page: get_be(bytes, 4, 4) as u32,
                slot: get_be(bytes, 8, 2) as u16,
                length: get_be(bytes, 10, 4) as u32,
            },
        )
    }
}

} // verus!
