//! JSON values in one order, and as bytes in that order.
//!
//! ```text
//!   null < false < true < numbers < texts < arrays and objects < nothing
//! ```
//!
//! No encoding is the beginning of another, so that the entries of an index
//! for one value are the keys that begin with its encoding.

use vstd::prelude::*;

use crate::bytes::{
    be_bytes, bytes_lt, compare, has_prefix, lemma_be_order, lemma_be_round_trip, lemma_lt_append,
    lemma_lt_common_prefix, lemma_lt_total, lemma_radix_values, put_be, Order,
};
use crate::json::{Json, JsonView, Shape, ShapeView};
use crate::text::utf8;

verus! {

pub const TAG_NULL: u8 = 1;

pub const TAG_FALSE: u8 = 2;

pub const TAG_TRUE: u8 = 3;

pub const TAG_NUMBER: u8 = 4;

pub const TAG_TEXT: u8 = 5;

pub const TAG_NESTED: u8 = 6;

pub const TAG_NOTHING: u8 = 7;

/// A number that orders doubles by value, made from their bits: those of
/// negative doubles are turned round, and both zeros are one.
pub open spec fn order_bits(bits: u64) -> u64 {
    if bits > 0x8000_0000_0000_0000 {
        (u64::MAX - bits) as u64
    } else if bits == 0x8000_0000_0000_0000 {
        bits
    } else {
        (bits + 0x8000_0000_0000_0000) as u64
    }
}

/// The bits are those of no number.
pub open spec fn is_nan(bits: u64) -> bool {
    let size = if bits >= 0x8000_0000_0000_0000 {
        (bits - 0x8000_0000_0000_0000) as u64
    } else {
        bits
    };
    size > 0x7ff0_0000_0000_0000
}

pub fn bits_order(bits: u64) -> (r: u64)
    ensures
        r == order_bits(bits),
{
    if bits > 0x8000_0000_0000_0000 {
        u64::MAX - bits
    } else if bits == 0x8000_0000_0000_0000 {
        bits
    } else {
        bits + 0x8000_0000_0000_0000
    }
}

/// Whether one double is at most another, given their bits.
pub fn at_most(bits: u64, bound: u64) -> (r: bool)
    ensures
        r == (!is_nan(bits) && !is_nan(bound) && order_bits(bits) <= order_bits(bound)),
{
    let a: u64 = if bits >= 0x8000_0000_0000_0000 {
        bits - 0x8000_0000_0000_0000
    } else {
        bits
    };
    let b: u64 = if bound >= 0x8000_0000_0000_0000 {
        bound - 0x8000_0000_0000_0000
    } else {
        bound
    };
    a <= 0x7ff0_0000_0000_0000 && b <= 0x7ff0_0000_0000_0000 && bits_order(bits) <= bits_order(bound)
}

/// A byte as it stands in an encoded text: zero is followed by 0xff.
pub open spec fn escaped_byte(b: u8) -> Seq<u8> {
    if b == 0 {
        seq![0u8, 0xffu8]
    } else {
        seq![b]
    }
}

/// Bytes with every zero followed by 0xff.
pub open spec fn escaped(s: Seq<u8>) -> Seq<u8>
    decreases s.len(),
{
    if s.len() == 0 {
        Seq::empty()
    } else {
        escaped_byte(s[0]) + escaped(s.skip(1))
    }
}

/// Bytes that end where two zeros stand.
pub open spec fn terminated(s: Seq<u8>) -> Seq<u8> {
    escaped(s) + seq![0u8, 0u8]
}

/// A value's encoding; nothing has one too.
pub open spec fn order_code(v: Option<JsonView>) -> Seq<u8> {
    match v {
        None => seq![TAG_NOTHING],
        Some(j) => match j.shape {
            ShapeView::Null => seq![TAG_NULL],
            ShapeView::Bool(b) => if b {
                seq![TAG_TRUE]
            } else {
                seq![TAG_FALSE]
            },
            ShapeView::Number { unsigned, bits } => seq![TAG_NUMBER] + be_bytes(order_bits(bits) as nat, 8),
            ShapeView::Text(s) => seq![TAG_TEXT] + terminated(utf8(s)),
            ShapeView::Array => seq![TAG_NESTED] + terminated(utf8(j.text)),
            ShapeView::Object => seq![TAG_NESTED] + terminated(utf8(j.text)),
        },
    }
}

/// What every encoding of a text that begins with `literal` begins with.
pub open spec fn text_prefix(literal: Seq<char>) -> Seq<u8> {
    seq![TAG_TEXT] + escaped(utf8(literal))
}

fn put_escaped(out: &mut Vec<u8>, s: &[u8])
    ensures
        final(out)@ == old(out)@ + escaped(s@),
{
    let mut i: usize = 0;
    proof {
        assert(s@.skip(0) =~= s@);
        assert(out@ + escaped(s@.skip(0)) =~= old(out)@ + escaped(s@));
    }
    while i < s.len()
        invariant
            i <= s@.len(),
            out@ + escaped(s@.skip(i as int)) == old(out)@ + escaped(s@),
        decreases s.len() - i,
    {
        let ghost before = out@;
        let b: u8 = s[i];
        out.push(b);
        if b == 0 {
            out.push(0xffu8);
        }
        proof {
            let rest = s@.skip(i as int);
            assert(rest.skip(1) =~= s@.skip(i + 1));
            assert(out@ =~= before + escaped_byte(b));
            assert(out@ + escaped(s@.skip(i + 1)) =~= before + escaped(rest));
        }
        i = i + 1;
    }
    proof {
        assert(s@.skip(i as int) =~= Seq::<u8>::empty());
        assert(out@ + escaped(Seq::<u8>::empty()) =~= out@);
    }
}

fn put_terminated(out: &mut Vec<u8>, s: &[u8])
    ensures
        final(out)@ == old(out)@ + terminated(s@),
{
    put_escaped(out, s);
    out.push(0u8);
    out.push(0u8);
    proof {
        assert(out@ =~= old(out)@ + terminated(s@));
    }
}

/// The encoding of a value, or of nothing.
pub fn encode_order_value(value: Option<&Json>) -> (r: Vec<u8>)
    ensures
        r@ == order_code(
            match value {
                Some(j) => Some(j@),
                None => None,
            },
        ),
{
    let mut out: Vec<u8> = Vec::new();
    match value {
        None => {
            out.push(TAG_NOTHING);
            proof {
                assert(out@ =~= seq![TAG_NOTHING]);
            }
        },
        Some(j) => {
            match &j.shape {
                Shape::Null => {
                    out.push(TAG_NULL);
                },
                Shape::Bool(b) => {
                    if *b {
                        out.push(TAG_TRUE);
                    } else {
                        out.push(TAG_FALSE);
                    }
                },
                Shape::Number { unsigned: _, bits } => {
                    out.push(TAG_NUMBER);
                    put_be(&mut out, bits_order(*bits), 8);
                },
                Shape::Text(s) => {
                    out.push(TAG_TEXT);
                    put_terminated(&mut out, s.as_str().as_bytes());
                },
                Shape::Array => {
                    out.push(TAG_NESTED);
                    put_terminated(&mut out, j.text.as_str().as_bytes());
                },
                Shape::Object => {
                    out.push(TAG_NESTED);
                    put_terminated(&mut out, j.text.as_str().as_bytes());
                },
            }
            proof {
                assert(out@ =~= order_code(Some(j@)));
            }
        },
    }
    out
}

/// What the encodings of texts that begin with `literal` begin with.
pub fn encode_string_prefix(literal: &str) -> (r: Vec<u8>)
    ensures
        r@ == text_prefix(literal@),
{
    let mut out: Vec<u8> = Vec::new();
    out.push(TAG_TEXT);
    put_escaped(&mut out, literal.as_bytes());
    proof {
        assert(out@ =~= text_prefix(literal@));
    }
    out
}

// ---------------------------------------------------------------------
// Where an encoding ends
// ---------------------------------------------------------------------

/// Where the encoded text that `at` is in ends.
pub open spec fn text_end(key: Seq<u8>, at: int) -> Option<int>
    decreases key.len() - at,
{
    if at < 0 || at + 1 >= key.len() {
        None
    } else if key[at] != 0 {
        text_end(key, at + 1)
    } else if key[at + 1] == 0 {
        Some(at + 2)
    } else {
        text_end(key, at + 2)
    }
}

/// Where the encoding that `key` begins with ends.
pub open spec fn code_end(key: Seq<u8>) -> Option<int> {
    if key.len() == 0 {
        None
    } else if key[0] == TAG_NULL || key[0] == TAG_FALSE || key[0] == TAG_TRUE || key[0] == TAG_NOTHING {
        Some(1)
    } else if key[0] == TAG_NUMBER {
        if key.len() >= 9 {
            Some(9)
        } else {
            None
        }
    } else if key[0] == TAG_TEXT || key[0] == TAG_NESTED {
        text_end(key, 1)
    } else {
        None
    }
}

proof fn lemma_text_end(before: Seq<u8>, s: Seq<u8>, after: Seq<u8>)
    ensures
        text_end(before + terminated(s) + after, before.len() as int) == Some(
            (before.len() + terminated(s).len()) as int,
        ),
    decreases s.len(),
{
    let key = before + terminated(s) + after;
    let at = before.len() as int;
    if s.len() == 0 {
        assert(terminated(s) =~= seq![0u8, 0u8]);
        assert(key[at] == terminated(s)[0]);
        assert(key[at + 1] == terminated(s)[1]);
    } else {
        let head = escaped_byte(s[0]);
        let rest = s.skip(1);
        assert(terminated(s) =~= head + terminated(rest));
        assert(key =~= (before + head) + terminated(rest) + after);
        lemma_text_end(before + head, rest, after);
        assert(key[at] == head[0]);
        if s[0] == 0 {
            assert(key[at + 1] == head[1]);
        }
    }
}

/// An encoding ends where it ends, whatever follows it.
pub proof fn lemma_code_end(v: Option<JsonView>, rest: Seq<u8>)
    ensures
        code_end(order_code(v) + rest) == Some(order_code(v).len() as int),
        order_code(v).len() > 0,
{
    let key = order_code(v) + rest;
    assert(order_code(v).len() > 0);
    assert(key[0] == order_code(v)[0]);
    match v {
        None => {},
        Some(j) => {
            match j.shape {
                ShapeView::Text(s) => {
                    lemma_text_end(seq![TAG_TEXT], utf8(s), rest);
                },
                ShapeView::Array => {
                    lemma_text_end(seq![TAG_NESTED], utf8(j.text), rest);
                },
                ShapeView::Object => {
                    lemma_text_end(seq![TAG_NESTED], utf8(j.text), rest);
                },
                ShapeView::Number { unsigned, bits } => {
                    lemma_radix_values();
                    lemma_be_round_trip(order_bits(bits) as nat, 8);
                },
                _ => {},
            }
        },
    }
}

/// No encoding is the beginning of another: a key that begins with the
/// encoding of `b` and is made of that of `a` is made of that of `b`.
pub proof fn lemma_code_prefix(a: Option<JsonView>, rest: Seq<u8>, b: Option<JsonView>)
    ensures
        has_prefix(order_code(a) + rest, order_code(b)) <==> order_code(a) == order_code(b),
{
    let key = order_code(a) + rest;
    lemma_code_end(a, rest);
    if has_prefix(key, order_code(b)) {
        let after = key.skip(order_code(b).len() as int);
        assert(key =~= order_code(b) + after);
        lemma_code_end(b, after);
        assert(order_code(a) =~= key.take(order_code(a).len() as int));
        assert(order_code(a) =~= order_code(b));
    }
    if order_code(a) == order_code(b) {
        assert(key.take(order_code(b).len() as int) =~= order_code(b));
    }
}

/// Two keys made of encodings are equal just where both parts are.
pub proof fn lemma_code_split(a: Option<JsonView>, x: Seq<u8>, b: Option<JsonView>, y: Seq<u8>)
    requires
        order_code(a) + x == order_code(b) + y,
    ensures
        order_code(a) == order_code(b),
        x == y,
{
    lemma_code_end(a, x);
    lemma_code_end(b, y);
    let key = order_code(a) + x;
    assert(order_code(a) =~= key.take(order_code(a).len() as int));
    assert(order_code(b) =~= key.take(order_code(a).len() as int));
    assert(x =~= key.skip(order_code(a).len() as int));
    assert(y =~= key.skip(order_code(a).len() as int));
}

/// Where the encoding that a key begins with ends.
pub fn find_code_end(key: &[u8]) -> (r: Option<usize>)
    ensures
        match r {
            Some(end) => code_end(key@) == Some(end as int) && end <= key@.len(),
            None => code_end(key@) is None,
        },
{
    if key.len() == 0 {
        return None;
    }
    let tag: u8 = key[0];
    if tag == TAG_NULL || tag == TAG_FALSE || tag == TAG_TRUE || tag == TAG_NOTHING {
        return Some(1);
    }
    if tag == TAG_NUMBER {
        return if key.len() >= 9 {
            Some(9)
        } else {
            None
        };
    }
    if tag != TAG_TEXT && tag != TAG_NESTED {
        return None;
    }
    assert(key@.len() == key.len());
    let mut at: usize = 1;
    while at < key.len() && key.len() - at > 1
        invariant
            1 <= at <= key@.len(),
            key@.len() == key.len(),
            text_end(key@, at as int) == text_end(key@, 1),
            code_end(key@) == text_end(key@, 1),
        decreases key.len() - at,
    {
        if key[at] != 0 {
            at = at + 1;
        } else if key[at + 1] == 0 {
            return Some(at + 2);
        } else {
            at = at + 2;
        }
    }
    None
}

// ---------------------------------------------------------------------
// The order itself
// ---------------------------------------------------------------------

/// Where a kind of value stands among the others.
pub open spec fn shape_rank(v: Option<JsonView>) -> int {
    match v {
        None => 7,
        Some(j) => match j.shape {
            ShapeView::Null => 1,
            ShapeView::Bool(b) => if b {
                3
            } else {
                2
            },
            ShapeView::Number { unsigned, bits } => 4,
            ShapeView::Text(s) => 5,
            ShapeView::Array => 6,
            ShapeView::Object => 6,
        },
    }
}

/// `a` comes before `b`: by kind first; numbers by value, texts by their
/// bytes, arrays and objects by the bytes of their JSON text.
pub open spec fn value_lt(a: Option<JsonView>, b: Option<JsonView>) -> bool {
    if shape_rank(a) != shape_rank(b) {
        shape_rank(a) < shape_rank(b)
    } else {
        match (a, b) {
            (Some(x), Some(y)) => match (x.shape, y.shape) {
                (
                    ShapeView::Number { unsigned: u, bits: m },
                    ShapeView::Number { unsigned: v, bits: n },
                ) => order_bits(m) < order_bits(n),
                (ShapeView::Text(s), ShapeView::Text(t)) => bytes_lt(utf8(s), utf8(t)),
                _ => shape_rank(a) == 6 && bytes_lt(utf8(x.text), utf8(y.text)),
            },
            _ => false,
        }
    }
}

proof fn lemma_terminated_order(s: Seq<u8>, t: Seq<u8>, u: Seq<u8>, v: Seq<u8>)
    requires
        bytes_lt(s, t),
    ensures
        bytes_lt(terminated(s) + u, terminated(t) + v),
    decreases s.len(),
{
    reveal_with_fuel(bytes_lt, 3);
    let a = terminated(s) + u;
    let b = terminated(t) + v;
    let ht = escaped_byte(t[0]);
    let rt = t.skip(1);
    assert(b =~= ht + (terminated(rt) + v));
    if s.len() == 0 {
        assert(terminated(s) =~= seq![0u8, 0u8]);
        assert(a[0] == 0 && a[1] == 0);
        if t[0] == 0 {
            assert(b[0] == 0 && b[1] == 0xff);
            assert(a.skip(1)[0] == 0 && b.skip(1)[0] == 0xff);
        } else {
            assert(b[0] == t[0]);
        }
    } else {
        let hs = escaped_byte(s[0]);
        let rs = s.skip(1);
        assert(a =~= hs + (terminated(rs) + u));
        if s[0] == t[0] {
            lemma_terminated_order(rs, rt, u, v);
            lemma_lt_common_prefix(hs, terminated(rs) + u, terminated(rt) + v);
        } else {
            assert(a[0] == s[0]);
            assert(b[0] == t[0]);
        }
    }
}

proof fn lemma_code_lt(a: Option<JsonView>, b: Option<JsonView>, x: Seq<u8>, y: Seq<u8>)
    requires
        value_lt(a, b),
    ensures
        bytes_lt(order_code(a) + x, order_code(b) + y),
{
    let p = order_code(a) + x;
    let q = order_code(b) + y;
    assert(p[0] == order_code(a)[0]);
    assert(q[0] == order_code(b)[0]);
    if shape_rank(a) == shape_rank(b) {
        match (a, b) {
            (Some(j), Some(k)) => match (j.shape, k.shape) {
                (
                    ShapeView::Number { unsigned: u, bits: m },
                    ShapeView::Number { unsigned: v, bits: n },
                ) => {
                    lemma_radix_values();
                    let c = be_bytes(order_bits(m) as nat, 8);
                    let d = be_bytes(order_bits(n) as nat, 8);
                    lemma_be_round_trip(order_bits(m) as nat, 8);
                    lemma_be_round_trip(order_bits(n) as nat, 8);
                    lemma_be_order(order_bits(m) as nat, order_bits(n) as nat, 8);
                    lemma_lt_append(c, d, x, y);
                    lemma_lt_common_prefix(seq![TAG_NUMBER], c + x, d + y);
                    assert(p =~= seq![TAG_NUMBER] + (c + x));
                    assert(q =~= seq![TAG_NUMBER] + (d + y));
                },
                (ShapeView::Text(s), ShapeView::Text(t)) => {
                    lemma_terminated_order(utf8(s), utf8(t), x, y);
                    lemma_lt_common_prefix(
                        seq![TAG_TEXT],
                        terminated(utf8(s)) + x,
                        terminated(utf8(t)) + y,
                    );
                    assert(p =~= seq![TAG_TEXT] + (terminated(utf8(s)) + x));
                    assert(q =~= seq![TAG_TEXT] + (terminated(utf8(t)) + y));
                },
                _ => {
                    lemma_terminated_order(utf8(j.text), utf8(k.text), x, y);
                    lemma_lt_common_prefix(
                        seq![TAG_NESTED],
                        terminated(utf8(j.text)) + x,
                        terminated(utf8(k.text)) + y,
                    );
                    assert(p =~= seq![TAG_NESTED] + (terminated(utf8(j.text)) + x));
                    assert(q =~= seq![TAG_NESTED] + (terminated(utf8(k.text)) + y));
                },
            },
            _ => {},
        }
    }
}

/// Encodings are in the order of their values, whatever follows them.
pub proof fn law_codes_in_value_order(a: Option<JsonView>, b: Option<JsonView>, x: Seq<u8>, y: Seq<u8>)
    ensures
        value_lt(a, b) ==> bytes_lt(order_code(a) + x, order_code(b) + y),
        bytes_lt(order_code(a), order_code(b)) <==> value_lt(a, b),
        !value_lt(a, b) && !value_lt(b, a) <==> order_code(a) == order_code(b),
{
    assert(order_code(a) + Seq::<u8>::empty() =~= order_code(a));
    assert(order_code(b) + Seq::<u8>::empty() =~= order_code(b));
    lemma_lt_total(order_code(a), order_code(b));
    if value_lt(a, b) {
        lemma_code_lt(a, b, x, y);
        lemma_code_lt(a, b, Seq::empty(), Seq::empty());
    }
    if value_lt(b, a) {
        lemma_code_lt(b, a, Seq::empty(), Seq::empty());
    }
    if !value_lt(a, b) && !value_lt(b, a) {
        match (a, b) {
            (Some(j), Some(k)) => match (j.shape, k.shape) {
                (ShapeView::Text(s), ShapeView::Text(t)) => {
                    lemma_lt_total(utf8(s), utf8(t));
                },
                _ => {
                    lemma_lt_total(utf8(j.text), utf8(k.text));
                },
            },
            _ => {},
        }
    }
}

/// Compares two values, or nothing.
pub fn compare_order_values(a: Option<&Json>, b: Option<&Json>) -> (r: Order)
    ensures
        r == Order::Less <==> value_lt(ref_view(a), ref_view(b)),
        r == Order::Greater <==> value_lt(ref_view(b), ref_view(a)),
        r == Order::Equal <==> order_code(ref_view(a)) == order_code(ref_view(b)),
{
    proof {
        law_codes_in_value_order(ref_view(a), ref_view(b), Seq::empty(), Seq::empty());
        law_codes_in_value_order(ref_view(b), ref_view(a), Seq::empty(), Seq::empty());
    }
    let x = encode_order_value(a);
    let y = encode_order_value(b);
    compare(&x, &y)
}

pub open spec fn ref_view(v: Option<&Json>) -> Option<JsonView> {
    match v {
        Some(j) => Some(j@),
        None => None,
    }
}

// ---------------------------------------------------------------------
// Text prefixes
// ---------------------------------------------------------------------

proof fn lemma_escaped_prefix(s: Seq<u8>, literal: Seq<u8>, rest: Seq<u8>)
    ensures
        has_prefix(terminated(s) + rest, escaped(literal)) <==> has_prefix(s, literal),
    decreases literal.len(),
{
    let key = terminated(s) + rest;
    let code = escaped(literal);
    if literal.len() == 0 {
        assert(key.take(0) =~= code);
        assert(s.take(0) =~= literal);
    } else if s.len() == 0 {
        assert(terminated(s) =~= seq![0u8, 0u8]);
        assert(key[0] == 0 && key[1] == 0);
        let head = escaped_byte(literal[0]);
        assert(code[0] == head[0]);
        if has_prefix(key, code) {
            assert(key.take(code.len() as int)[0] == key[0]);
            assert(literal[0] == 0);
            assert(code[1] == head[1]);
            assert(key.take(code.len() as int)[1] == key[1]);
        }
    } else {
        let hs = escaped_byte(s[0]);
        let hl = escaped_byte(literal[0]);
        let s1 = s.skip(1);
        let l1 = literal.skip(1);
        assert(key =~= hs + (terminated(s1) + rest));
        lemma_escaped_prefix(s1, l1, rest);
        let key1 = terminated(s1) + rest;
        if s[0] == literal[0] {
            assert(key.skip(hs.len() as int) =~= key1);
            if has_prefix(key, code) {
                assert(key1.take(escaped(l1).len() as int) =~= key.take(code.len() as int).skip(hs.len() as int));
                assert(code.skip(hs.len() as int) =~= escaped(l1));
            }
            if has_prefix(key1, escaped(l1)) {
                assert(key.take(code.len() as int) =~= hs + key1.take(escaped(l1).len() as int));
            }
            if has_prefix(s, literal) {
                assert(s1.take(l1.len() as int) =~= s.take(literal.len() as int).skip(1));
            }
            if has_prefix(s1, l1) {
                assert(s.take(literal.len() as int) =~= seq![s[0]] + s1.take(l1.len() as int));
                assert(literal =~= seq![literal[0]] + l1);
            }
        } else {
            if has_prefix(key, code) {
                assert(key.take(code.len() as int)[0] == key[0]);
                assert(key[0] == hs[0]);
                assert(code[0] == hl[0]);
            }
            if has_prefix(s, literal) {
                assert(s.take(literal.len() as int)[0] == s[0]);
            }
        }
    }
}

/// A key begins as texts with that beginning do just where it is made of
/// such a text.
pub proof fn lemma_text_prefix(v: Option<JsonView>, rest: Seq<u8>, literal: Seq<char>)
    ensures
        has_prefix(order_code(v) + rest, text_prefix(literal)) <==> (v matches Some(j) && j.shape matches ShapeView::Text(s)
            && has_prefix(utf8(s), utf8(literal))),
{
    let key = order_code(v) + rest;
    let p = text_prefix(literal);
    assert(key[0] == order_code(v)[0]);
    if has_prefix(key, p) {
        assert(key.take(p.len() as int)[0] == key[0]);
        assert(p[0] == TAG_TEXT);
    }
    match v {
        Some(j) => match j.shape {
            ShapeView::Text(s) => {
                let body = terminated(utf8(s)) + rest;
                let code = escaped(utf8(literal));
                assert(key =~= seq![TAG_TEXT] + body);
                lemma_escaped_prefix(utf8(s), utf8(literal), rest);
                if has_prefix(key, p) {
                    assert(body.take(code.len() as int) =~= key.take(p.len() as int).skip(1));
                    assert(p.skip(1) =~= code);
                }
                if has_prefix(body, code) {
                    assert(key.take(p.len() as int) =~= seq![TAG_TEXT] + body.take(code.len() as int));
                }
            },
            _ => {},
        },
        None => {},
    }
}

} // verus!
