//! The keys of the indexes.
//!
//! A key begins with what it is looked up by, each part after its length,
//! and ends with what it leads to:
//!
//! ```text
//!   kind, owner   part(kind or owner) address
//!   history       part(address) version
//!   edges         part(from) part(kind) to, and the other way round
//!   data          encoded value, address
//!   text          three bytes of the text, address
//! ```

use vstd::prelude::*;

use crate::bytes::{
    be_bytes, be_value, bytes_eq, bytes_lt, compare, copy_range, get_be, has_prefix, lemma_be_round_trip,
    lemma_lt_total, lemma_lt_transitive, lemma_radix_values, put_be, put_bytes, Order,
};
use crate::json::{field, field_of, Json, JsonView, Shape, ShapeView};
use crate::order::{code_end, encode_order_value, find_code_end, lemma_code_end, lemma_code_split, order_code, ref_view};
use crate::text::{lemma_utf8_injective, text_of_bytes, utf8};
use crate::types::EdgeIdView;

verus! {

/// Longest encoding of a value that a data index takes.
pub const MAX_INDEX_VALUE_LEN: usize = 512;

/// Bytes in one piece of a text.
pub const GRAM_LEN: usize = 3;

// ---------------------------------------------------------------------
// Parts
// ---------------------------------------------------------------------

/// A part of a key: its length, then its bytes.
pub open spec fn component(s: Seq<u8>) -> Seq<u8> {
    be_bytes(s.len(), 4) + s
}

fn put_component(out: &mut Vec<u8>, s: &[u8])
    ensures
        final(out)@ == old(out)@ + component(s@),
{
    assert(s@.len() == s.len());
    put_be(out, s.len() as u64, 4);
    put_bytes(out, s);
    proof {
        assert(out@ =~= old(out)@ + component(s@));
    }
}

/// A part is as long as it says.
pub proof fn lemma_component(s: Seq<u8>)
    requires
        s.len() <= u32::MAX,
    ensures
        component(s).len() == 4 + s.len(),
        be_value(component(s).take(4)) == s.len(),
{
    lemma_radix_values();
    lemma_be_round_trip(s.len(), 4);
    assert(component(s).take(4) =~= be_bytes(s.len(), 4));
}

pub proof fn lemma_component_len(s: Seq<u8>)
    ensures
        component(s).len() == 4 + s.len(),
{
    lemma_be_len(s.len(), 4);
}

proof fn lemma_be_len(x: nat, n: nat)
    ensures
        be_bytes(x, n).len() == n,
    decreases n,
{
    if n > 0 {
        lemma_be_len(x / 256, (n - 1) as nat);
    }
}

/// Keys that begin with parts are equal just where the parts and what
/// follows them are.
pub proof fn lemma_component_split(a: Seq<u8>, x: Seq<u8>, b: Seq<u8>, y: Seq<u8>)
    requires
        component(a) + x == component(b) + y,
        a.len() <= u32::MAX,
        b.len() <= u32::MAX,
    ensures
        a == b,
        x == y,
{
    lemma_component(a);
    lemma_component(b);
    let key = component(a) + x;
    assert(component(a).take(4) =~= key.take(4));
    assert(component(b).take(4) =~= key.take(4));
    assert(a =~= key.subrange(4, 4 + a.len() as int));
    assert(b =~= key.subrange(4, 4 + a.len() as int));
    assert(x =~= key.skip(4 + a.len() as int));
    assert(y =~= key.skip(4 + a.len() as int));
}

/// A key made of one part begins with another just where they are the same.
pub proof fn lemma_component_prefix(a: Seq<u8>, x: Seq<u8>, b: Seq<u8>)
    requires
        a.len() <= u32::MAX,
        (component(a) + x).len() <= u32::MAX,
    ensures
        has_prefix(component(a) + x, component(b)) <==> a == b,
{
    let key = component(a) + x;
    lemma_component_len(b);
    if has_prefix(key, component(b)) {
        let y = key.skip(component(b).len() as int);
        assert(key =~= component(b) + y);
        lemma_component_split(a, x, b, y);
    }
    if a == b {
        assert(key.take(component(b).len() as int) =~= component(b));
    }
}

/// The part that a key begins with and where it ends, if it begins with
/// one.
pub open spec fn split_of(key: Seq<u8>) -> Option<(Seq<u8>, int)> {
    if key.len() < 4 || key.len() < 4 + be_value(key.take(4)) {
        None
    } else {
        let end = 4 + be_value(key.take(4));
        Some((key.subrange(4, end as int), end as int))
    }
}

pub proof fn lemma_split(s: Seq<u8>, rest: Seq<u8>)
    requires
        s.len() <= u32::MAX,
    ensures
        split_of(component(s) + rest) == Some((s, 4 + s.len() as int)),
{
    lemma_component(s);
    let key = component(s) + rest;
    assert(key.take(4) =~= component(s).take(4));
    assert(key.subrange(4, 4 + s.len() as int) =~= s);
}

/// The part that a key begins with, and where what follows it starts.
pub fn split_component(key: &[u8]) -> (r: Option<(Vec<u8>, usize)>)
    ensures
        match r {
            Some((part, end)) => split_of(key@) == Some((part@, end as int)) && end <= key@.len(),
            None => split_of(key@) is None,
        },
{
    assert(key@.len() == key.len());
    if key.len() < 4 {
        return None;
    }
    let len: u64 = get_be(key, 0, 4);
    proof {
        assert(key@.subrange(0, 4) =~= key@.take(4));
    }
    if (key.len() - 4) as u64 >= len {
        let end: usize = 4 + len as usize;
        Some((copy_range(key, 4, end), end))
    } else {
        None
    }
}

/// What follows `prefix` in a key, as text.
pub fn address_from_key(key: &[u8], prefix: &[u8]) -> (r: String)
    ensures
        forall|a: Seq<char>| key@ == prefix@ + #[trigger] utf8(a) ==> r@ == a,
{
    let from: usize = if prefix.len() < key.len() {
        prefix.len()
    } else {
        key.len()
    };
    let rest = copy_range(key, from, key.len());
    let r = text_of_bytes(&rest);
    proof {
        assert forall|a: Seq<char>| key@ == prefix@ + #[trigger] utf8(a) implies r@ == a by {
            assert(rest@ =~= utf8(a));
        }
    }
    r
}

// ---------------------------------------------------------------------
// Nodes by kind and owner
// ---------------------------------------------------------------------

/// What the keys of the nodes of one kind, or of one owner, begin with.
pub open spec fn part_prefix(part: Seq<char>) -> Seq<u8> {
    component(utf8(part))
}

/// The key of a node under its kind, or its owner.
pub open spec fn part_key(part: Seq<char>, address: Seq<char>) -> Seq<u8> {
    part_prefix(part) + utf8(address)
}

pub proof fn lemma_part_key(p: Seq<char>, a: Seq<char>, q: Seq<char>, b: Seq<char>)
    requires
        part_key(p, a).len() <= u32::MAX,
        part_key(q, b).len() <= u32::MAX,
    ensures
        part_key(p, a) == part_key(q, b) <==> p == q && a == b,
        has_prefix(part_key(p, a), part_prefix(q)) <==> p == q,
{
    lemma_component_len(utf8(p));
    lemma_component_len(utf8(q));
    lemma_utf8_injective(p, q);
    lemma_utf8_injective(a, b);
    if part_key(p, a) == part_key(q, b) {
        lemma_component_split(utf8(p), utf8(a), utf8(q), utf8(b));
    }
    lemma_component_prefix(utf8(p), utf8(a), utf8(q));
}

/// A node's key begins with a prefix just where that is its part, however
/// long the part asked for is.
pub proof fn lemma_part_prefix(p: Seq<char>, a: Seq<char>, q: Seq<char>)
    requires
        part_key(p, a).len() <= u32::MAX,
    ensures
        has_prefix(part_key(p, a), part_prefix(q)) <==> p == q,
{
    lemma_component_len(utf8(p));
    lemma_utf8_injective(p, q);
    lemma_component_prefix(utf8(p), utf8(a), utf8(q));
}

pub fn kind_prefix(kind: &str) -> (r: Vec<u8>)
    ensures
        r@ == part_prefix(kind@),
{
    let mut out: Vec<u8> = Vec::new();
    put_component(&mut out, kind.as_bytes());
    proof {
        assert(out@ =~= part_prefix(kind@));
    }
    out
}

pub fn kind_key(kind: &str, address: &str) -> (r: Vec<u8>)
    ensures
        r@ == part_key(kind@, address@),
{
    let mut out = kind_prefix(kind);
    put_bytes(&mut out, address.as_bytes());
    out
}

pub fn owner_prefix(owner: &str) -> (r: Vec<u8>)
    ensures
        r@ == part_prefix(owner@),
{
    kind_prefix(owner)
}

pub fn owner_key(owner: &str, address: &str) -> (r: Vec<u8>)
    ensures
        r@ == part_key(owner@, address@),
{
    kind_key(owner, address)
}

// ---------------------------------------------------------------------
// History
// ---------------------------------------------------------------------

/// The key of one state of a node.
pub open spec fn version_key(address: Seq<char>, version: u64) -> Seq<u8> {
    part_prefix(address) + be_bytes(version as nat, 8)
}

pub proof fn lemma_version_key(a: Seq<char>, v: u64, b: Seq<char>, w: u64)
    requires
        version_key(a, v).len() <= u32::MAX,
        version_key(b, w).len() <= u32::MAX,
    ensures
        version_key(a, v) == version_key(b, w) <==> a == b && v == w,
{
    lemma_component_len(utf8(a));
    lemma_component_len(utf8(b));
    lemma_radix_values();
    lemma_be_round_trip(v as nat, 8);
    lemma_be_round_trip(w as nat, 8);
    if version_key(a, v) == version_key(b, w) {
        lemma_component_split(utf8(a), be_bytes(v as nat, 8), utf8(b), be_bytes(w as nat, 8));
        lemma_utf8_injective(a, b);
    }
}

pub fn history_prefix(address: &str) -> (r: Vec<u8>)
    ensures
        r@ == part_prefix(address@),
{
    kind_prefix(address)
}

pub fn history_key(address: &str, version: u64) -> (r: Vec<u8>)
    ensures
        r@ == version_key(address@, version),
{
    let mut out = kind_prefix(address);
    put_be(&mut out, version, 8);
    out
}

// ---------------------------------------------------------------------
// Edges
// ---------------------------------------------------------------------

/// The key of an edge by the node it starts from.
pub open spec fn out_key(id: EdgeIdView) -> Seq<u8> {
    part_prefix(id.from) + (component(utf8(id.kind)) + utf8(id.to))
}

/// The key of an edge by the node it leads to.
pub open spec fn in_key(id: EdgeIdView) -> Seq<u8> {
    part_prefix(id.to) + (component(utf8(id.kind)) + utf8(id.from))
}

/// Edges have keys of their own.
pub proof fn lemma_edge_keys(a: EdgeIdView, b: EdgeIdView)
    requires
        out_key(a).len() <= u32::MAX,
        out_key(b).len() <= u32::MAX,
    ensures
        out_key(a) == out_key(b) <==> a == b,
        in_key(a) == in_key(b) <==> a == b,
        in_key(a).len() == out_key(a).len(),
{
    lemma_component_len(utf8(a.from));
    lemma_component_len(utf8(a.to));
    lemma_component_len(utf8(a.kind));
    lemma_component_len(utf8(b.from));
    lemma_component_len(utf8(b.to));
    lemma_component_len(utf8(b.kind));
    lemma_utf8_injective(a.from, b.from);
    lemma_utf8_injective(a.to, b.to);
    lemma_utf8_injective(a.kind, b.kind);
    let (ka, kb) = (component(utf8(a.kind)), component(utf8(b.kind)));
    if out_key(a) == out_key(b) {
        lemma_component_split(utf8(a.from), ka + utf8(a.to), utf8(b.from), kb + utf8(b.to));
        lemma_component_split(utf8(a.kind), utf8(a.to), utf8(b.kind), utf8(b.to));
    }
    if in_key(a) == in_key(b) {
        lemma_component_split(utf8(a.to), ka + utf8(a.from), utf8(b.to), kb + utf8(b.from));
        lemma_component_split(utf8(a.kind), utf8(a.from), utf8(b.kind), utf8(b.from));
    }
}

fn two_parts(first: &str, second: &str, last: &str) -> (r: Vec<u8>)
    ensures
        r@ == part_prefix(first@) + (component(utf8(second@)) + utf8(last@)),
{
    let mut out = kind_prefix(first);
    put_component(&mut out, second.as_bytes());
    put_bytes(&mut out, last.as_bytes());
    proof {
        assert(out@ =~= part_prefix(first@) + (component(utf8(second@)) + utf8(last@)));
    }
    out
}

pub fn edge_out_key(from: &str, kind: &str, to: &str) -> (r: Vec<u8>)
    ensures
        r@ == out_key(EdgeIdView { from: from@, to: to@, kind: kind@ }),
{
    two_parts(from, kind, to)
}

pub fn edge_in_key(to: &str, kind: &str, from: &str) -> (r: Vec<u8>)
    ensures
        r@ == in_key(EdgeIdView { from: from@, to: to@, kind: kind@ }),
{
    two_parts(to, kind, from)
}

pub fn edge_out_prefix(address: &str) -> (r: Vec<u8>)
    ensures
        r@ == part_prefix(address@),
{
    kind_prefix(address)
}

pub fn edge_in_prefix(address: &str) -> (r: Vec<u8>)
    ensures
        r@ == part_prefix(address@),
{
    kind_prefix(address)
}

// ---------------------------------------------------------------------
// Values
// ---------------------------------------------------------------------

/// The key of a node under a value.
pub open spec fn value_key(v: Option<JsonView>, address: Seq<char>) -> Seq<u8> {
    order_code(v) + utf8(address)
}

/// The same for the order from the far end, in which what has no value comes
/// last.
pub open spec fn down_key(v: Option<JsonView>, address: Seq<char>) -> Seq<u8> {
    if v is None {
        seq![0u8] + utf8(address)
    } else {
        value_key(v, address)
    }
}

pub fn ordering_key(value: Option<&Json>, address: &str, desc: bool) -> (r: Vec<u8>)
    ensures
        r@ == (if desc {
            down_key(ref_view(value), address@)
        } else {
            value_key(ref_view(value), address@)
        }),
{
    if desc && value.is_none() {
        let mut key: Vec<u8> = Vec::new();
        key.push(0u8);
        put_bytes(&mut key, address.as_bytes());
        proof {
            assert(key@ =~= seq![0u8] + utf8(address@));
        }
        key
    } else {
        data_key(value, address)
    }
}

pub fn data_key(value: Option<&Json>, address: &str) -> (r: Vec<u8>)
    ensures
        r@ == value_key(ref_view(value), address@),
{
    let mut out = encode_order_value(value);
    put_bytes(&mut out, address.as_bytes());
    out
}

/// The bytes of the address at the end of a data key; none if the key is no
/// such key.
pub fn address_from_data_key(key: &[u8]) -> (r: Option<Vec<u8>>)
    ensures
        match r {
            Some(raw) => code_end(key@) is Some && raw@ == key@.skip(code_end(key@)->0),
            None => code_end(key@) is None,
        },
        forall|v: Option<JsonView>, a: Seq<char>|
            key@ == #[trigger] value_key(v, a) ==> r is Some && r->0@ == utf8(a),
{
    let r = match find_code_end(key) {
        Some(end) => {
            let raw = copy_range(key, end, key.len());
            proof {
                assert(raw@ =~= key@.skip(end as int));
            }
            Some(raw)
        },
        None => None,
    };
    proof {
        assert forall|v: Option<JsonView>, a: Seq<char>| key@ == #[trigger] value_key(v, a) implies r is Some
            && r->0@ == utf8(a) by {
            lemma_code_end(v, utf8(a));
            assert(key@.skip(order_code(v).len() as int) =~= utf8(a));
        }
    }
    r
}

/// The address that a data key was made with comes back out of it.
pub proof fn law_address_survives_data_key(v: Option<JsonView>, a: Seq<char>)
    ensures
        code_end(value_key(v, a)) == Some(order_code(v).len() as int),
        value_key(v, a).skip(order_code(v).len() as int) == utf8(a),
{
    lemma_code_end(v, utf8(a));
    assert(value_key(v, a).skip(order_code(v).len() as int) =~= utf8(a));
}

pub proof fn lemma_value_key(v: Option<JsonView>, a: Seq<char>, w: Option<JsonView>, b: Seq<char>)
    ensures
        value_key(v, a) == value_key(w, b) <==> order_code(v) == order_code(w) && a == b,
{
    lemma_utf8_injective(a, b);
    if value_key(v, a) == value_key(w, b) {
        lemma_code_split(v, utf8(a), w, utf8(b));
    }
}

// ---------------------------------------------------------------------
// Pieces of texts
// ---------------------------------------------------------------------

/// A byte, with an upper case ASCII letter made lower case.
pub open spec fn folded(b: u8) -> u8 {
    if 0x41 <= b <= 0x5a {
        (b + 0x20) as u8
    } else {
        b
    }
}

/// The piece of a text at byte `i`, whatever the case of its letters.
pub open spec fn gram_at(text: Seq<u8>, i: int) -> Seq<u8> {
    Seq::new(GRAM_LEN as nat, |k: int| folded(text[i + k]))
}

fn fold(b: u8) -> (r: u8)
    ensures
        r == folded(b),
{
    if 0x41 <= b && b <= 0x5a {
        b + 0x20
    } else {
        b
    }
}

fn gram_from(text: &[u8], i: usize) -> (r: Vec<u8>)
    requires
        i + GRAM_LEN <= text@.len(),
    ensures
        r@ == gram_at(text@, i as int),
{
    let mut out: Vec<u8> = Vec::new();
    out.push(fold(text[i]));
    out.push(fold(text[i + 1]));
    out.push(fold(text[i + 2]));
    proof {
        assert(out@ =~= gram_at(text@, i as int));
    }
    out
}

/// The piece occurs in the text.
pub open spec fn has_gram(text: Seq<u8>, gram: Seq<u8>) -> bool {
    exists|i: int| 0 <= i && i + GRAM_LEN <= text.len() && gram == #[trigger] gram_at(text, i)
}

/// The key of a node under a piece of its text.
pub open spec fn gram_key(gram: Seq<u8>, address: Seq<char>) -> Seq<u8> {
    gram + utf8(address)
}

pub proof fn lemma_gram_key(g: Seq<u8>, a: Seq<char>, h: Seq<u8>, b: Seq<char>)
    requires
        g.len() == GRAM_LEN,
        h.len() == GRAM_LEN,
    ensures
        gram_key(g, a) == gram_key(h, b) <==> g == h && a == b,
        has_prefix(gram_key(g, a), h) <==> g == h,
{
    lemma_utf8_injective(a, b);
    let key = gram_key(g, a);
    assert(key.take(3) =~= g);
    if gram_key(g, a) == gram_key(h, b) {
        assert(gram_key(h, b).take(3) =~= h);
        assert(key.skip(3) =~= utf8(a));
        assert(gram_key(h, b).skip(3) =~= utf8(b));
    }
}

/// A text that contains another contains its pieces.
pub proof fn law_substring_has_its_grams(text: Seq<u8>, literal: Seq<u8>, at: int, gram: Seq<u8>)
    requires
        0 <= at,
        at + literal.len() <= text.len(),
        text.subrange(at, at + literal.len()) == literal,
        has_gram(literal, gram),
    ensures
        has_gram(text, gram),
{
    let i = choose|i: int| 0 <= i && i + GRAM_LEN <= literal.len() && gram == #[trigger] gram_at(literal, i);
    assert(gram_at(text, at + i) =~= gram_at(literal, i)) by {
        assert forall|k: int| 0 <= k < GRAM_LEN implies gram_at(text, at + i)[k] == gram_at(literal, i)[k] by {
            assert(text.subrange(at, at + literal.len())[i + k] == literal[i + k]);
        }
    }
}

/// Byte strings in order, none twice.
pub open spec fn strictly_sorted(list: Seq<Vec<u8>>) -> bool {
    forall|i: int, j: int| 0 <= i < j < list.len() ==> bytes_lt((#[trigger] list[i])@, (#[trigger] list[j])@)
}

/// The list holds these bytes.
pub open spec fn holds_bytes(list: Seq<Vec<u8>>, s: Seq<u8>) -> bool {
    exists|i: int| 0 <= i < list.len() && (#[trigger] list[i])@ == s
}

/// Whether a list holds these bytes.
pub fn has_bytes(list: &Vec<Vec<u8>>, item: &[u8]) -> (r: bool)
    ensures
        r == holds_bytes(list@, item@),
{
    let mut i: usize = 0;
    while i < list.len()
        invariant
            i <= list@.len(),
            forall|j: int| 0 <= j < i ==> (#[trigger] list@[j])@ != item@,
        decreases list.len() - i,
    {
        if bytes_eq(&list[i], item) {
            return true;
        }
        i = i + 1;
    }
    false
}

/// Puts bytes in a sorted list, unless they are there.
pub fn insert_sorted(list: &mut Vec<Vec<u8>>, item: Vec<u8>)
    requires
        strictly_sorted(old(list)@),
    ensures
        strictly_sorted(final(list)@),
        forall|s: Seq<u8>| #[trigger] holds_bytes(final(list)@, s) <==> holds_bytes(old(list)@, s) || s == item@,
        final(list)@.len() <= old(list)@.len() + 1,
        holds_bytes(old(list)@, item@) ==> final(list)@ == old(list)@,
        !holds_bytes(old(list)@, item@) ==> final(list)@.len() == old(list)@.len() + 1,
{
    let mut i: usize = 0;
    while i < list.len()
        invariant
            *list == *old(list),
            i <= list@.len(),
            strictly_sorted(list@),
            forall|j: int| 0 <= j < i ==> bytes_lt((#[trigger] list@[j])@, item@),
        decreases list.len() - i,
    {
        match compare(&list[i], &item) {
            Order::Less => {},
            Order::Equal => {
                proof {
                    assert(list@[i as int]@ == item@);
                    assert(holds_bytes(list@, item@));
                }
                return;
            },
            Order::Greater => {
                let ghost before = list@;
                let ghost added = item@;
                proof {
                    assert forall|j: int| 0 <= j < before.len() implies (#[trigger] before[j])@ != added by {
                        if j < i {
                            lemma_lt_total(before[j]@, added);
                        } else {
                            if j > i {
                                assert(bytes_lt(before[i as int]@, before[j]@));
                                lemma_lt_transitive(added, before[i as int]@, before[j]@);
                            }
                            lemma_lt_total(added, before[j]@);
                        }
                    }
                }
                list.insert(i, item);
                proof {
                    lemma_inserted(before, list@, i as int);
                }
                return;
            },
        }
        i = i + 1;
    }
    let ghost before = list@;
    let ghost added = item@;
    proof {
        assert forall|j: int| 0 <= j < before.len() implies (#[trigger] before[j])@ != added by {
            lemma_lt_total(before[j]@, added);
        }
    }
    list.push(item);
    proof {
        assert(list@ =~= before.insert(i as int, list@[i as int]));
        lemma_inserted(before, list@, i as int);
    }
}

proof fn lemma_inserted(before: Seq<Vec<u8>>, after: Seq<Vec<u8>>, i: int)
    requires
        0 <= i <= before.len(),
        after.len() == before.len() + 1,
        after == before.insert(i, after[i]),
        strictly_sorted(before),
        forall|j: int| 0 <= j < i ==> bytes_lt((#[trigger] before[j])@, after[i]@),
        i < before.len() ==> bytes_lt(after[i]@, before[i]@),
    ensures
        strictly_sorted(after),
        forall|s: Seq<u8>| #[trigger] holds_bytes(after, s) <==> holds_bytes(before, s) || s == after[i]@,
{
    assert forall|j: int, k: int| 0 <= j < k < after.len() implies bytes_lt(
        (#[trigger] after[j])@,
        (#[trigger] after[k])@,
    ) by {
        if k < i {
            assert(after[j] == before[j] && after[k] == before[k]);
        } else if k == i {
            assert(after[j] == before[j]);
        } else {
            assert(after[k] == before[k - 1]);
            if j < i {
                assert(after[j] == before[j]);
            } else if j == i {
                if k - 1 > i {
                    assert(bytes_lt(before[i]@, before[k - 1]@));
                    lemma_lt_transitive(after[i]@, before[i]@, before[k - 1]@);
                }
            } else {
                assert(after[j] == before[j - 1]);
            }
        }
    }
    assert forall|s: Seq<u8>| #[trigger] holds_bytes(after, s) <==> holds_bytes(before, s) || s == after[i]@ by {
        if holds_bytes(after, s) {
            let k = choose|k: int| 0 <= k < after.len() && (#[trigger] after[k])@ == s;
            if k < i {
                assert(before[k]@ == s);
            } else if k > i {
                assert(before[k - 1]@ == s);
            }
        }
        if holds_bytes(before, s) {
            let k = choose|k: int| 0 <= k < before.len() && (#[trigger] before[k])@ == s;
            if k < i {
                assert(after[k]@ == s);
            } else {
                assert(after[k + 1]@ == s);
            }
        }
        if s == after[i]@ {
            assert(after[i]@ == s);
        }
    }
}

/// Adds the pieces of a text to a sorted list of pieces.
pub fn add_grams(list: &mut Vec<Vec<u8>>, text: &str)
    requires
        strictly_sorted(old(list)@),
        forall|k: int| 0 <= k < old(list)@.len() ==> (#[trigger] old(list)@[k])@.len() == GRAM_LEN,
    ensures
        strictly_sorted(final(list)@),
        forall|k: int| 0 <= k < final(list)@.len() ==> (#[trigger] final(list)@[k])@.len() == GRAM_LEN,
        forall|g: Seq<u8>| #[trigger]
            holds_bytes(final(list)@, g) <==> holds_bytes(old(list)@, g) || has_gram(utf8(text@), g),
{
    let bytes = text.as_bytes();
    assert(bytes@.len() == bytes.len());
    let ghost view = utf8(text@);
    let mut i: usize = 0;
    while i < bytes.len() && bytes.len() - i >= GRAM_LEN
        invariant
            bytes@ == view,
            bytes@.len() == bytes.len(),
            i <= bytes@.len(),
            strictly_sorted(list@),
            forall|k: int| 0 <= k < list@.len() ==> (#[trigger] list@[k])@.len() == GRAM_LEN,
            forall|g: Seq<u8>| #[trigger]
                holds_bytes(list@, g) <==> holds_bytes(old(list)@, g) || (exists|k: int|
                    0 <= k < i && k + GRAM_LEN <= view.len() && g == #[trigger] gram_at(view, k)),
        ensures
            i + GRAM_LEN > view.len(),
        decreases bytes.len() - i,
    {
        let gram = gram_from(bytes, i);
        let ghost before = list@;
        let ghost added = gram@;
        insert_sorted(list, gram);
        proof {
            assert(added == gram_at(view, i as int));
            assert forall|k: int| 0 <= k < list@.len() implies (#[trigger] list@[k])@.len() == GRAM_LEN by {
                assert(holds_bytes(list@, list@[k]@));
                if holds_bytes(before, list@[k]@) {
                    let m = choose|m: int| 0 <= m < before.len() && (#[trigger] before[m])@ == list@[k]@;
                }
            }
            assert forall|g: Seq<u8>| #[trigger] holds_bytes(list@, g) <==> holds_bytes(old(list)@, g) || (exists|k: int|
                0 <= k < i + 1 && k + GRAM_LEN <= view.len() && g == #[trigger] gram_at(view, k)) by {
                assert(holds_bytes(list@, g) <==> holds_bytes(before, g) || g == added);
                if exists|k: int| 0 <= k < i + 1 && k + GRAM_LEN <= view.len() && g == #[trigger] gram_at(view, k) {
                    let k = choose|k: int|
                        0 <= k < i + 1 && k + GRAM_LEN <= view.len() && g == #[trigger] gram_at(view, k);
                    if k < i {
                        assert(holds_bytes(before, g));
                    }
                }
                if g == added {
                    assert(g == gram_at(view, i as int));
                }
            }
        }
        i = i + 1;
    }
    proof {
        assert forall|g: Seq<u8>| #[trigger] holds_bytes(list@, g) <==> holds_bytes(old(list)@, g) || has_gram(
            view,
            g,
        ) by {
            if has_gram(view, g) {
                let k = choose|k: int| 0 <= k && k + GRAM_LEN <= view.len() && g == #[trigger] gram_at(view, k);
                assert(k < i);
            }
        }
    }
}

/// The pieces of a text, in order, each once.
pub fn grams(text: &str) -> (r: Vec<Vec<u8>>)
    ensures
        strictly_sorted(r@),
        forall|k: int| 0 <= k < r@.len() ==> (#[trigger] r@[k])@.len() == GRAM_LEN,
        forall|g: Seq<u8>| #[trigger] holds_bytes(r@, g) <==> has_gram(utf8(text@), g),
{
    let mut r: Vec<Vec<u8>> = Vec::new();
    add_grams(&mut r, text);
    r
}

pub fn text_key(gram: &[u8], address: &str) -> (r: Vec<u8>)
    ensures
        r@ == gram_key(gram@, address@),
{
    let mut out: Vec<u8> = Vec::new();
    put_bytes(&mut out, gram);
    put_bytes(&mut out, address.as_bytes());
    proof {
        assert(out@ =~= gram_key(gram@, address@));
    }
    out
}

/// The text that a text index holds of a member of `data`: texts only.
pub open spec fn indexed_text_of(data: Seq<char>, name: Seq<char>) -> Option<Seq<char>> {
    match field_of(data, name) {
        Some(j) => match j.shape {
            ShapeView::Text(s) => Some(s),
            _ => None,
        },
        None => None,
    }
}

pub fn indexed_text(data: &str, name: &str) -> (r: Option<String>)
    ensures
        match r {
            Some(s) => indexed_text_of(data@, name@) == Some(s@),
            None => indexed_text_of(data@, name@) is None,
        },
{
    match field(data, name) {
        Some(j) => match j.shape {
            Shape::Text(s) => Some(s),
            _ => None,
        },
        None => None,
    }
}

} // verus!
