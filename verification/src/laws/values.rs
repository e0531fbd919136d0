//! The order of values.

use vstd::prelude::*;

use crate::bytes::bytes_lt;
use crate::json::{field_of, json_members, json_value, member_index, member_text, with_member, JsonView, ShapeView};
use crate::order::{law_codes_in_value_order, order_code};
use crate::text::{lemma_utf8_injective, utf8};

verus! {

/// How far a double is from zero, by its bits: those of a greater double are
/// further up, and both zeros are none.
pub open spec fn size_of_double(bits: u64) -> int {
    if bits < 0x8000_0000_0000_0000 {
        bits as int
    } else {
        0x8000_0000_0000_0000 - bits
    }
}

/// Numbers are told apart by their size, and are in the order of it.
pub proof fn law_numbers_by_size(x: JsonView, y: JsonView, u: Option<u64>, v: Option<u64>, m: u64, n: u64)
    requires
        x.shape == (ShapeView::Number { unsigned: u, bits: m }),
        y.shape == (ShapeView::Number { unsigned: v, bits: n }),
    ensures
        order_code(Some(x)) == order_code(Some(y)) <==> size_of_double(m) == size_of_double(n),
        bytes_lt(order_code(Some(x)), order_code(Some(y))) <==> size_of_double(m) < size_of_double(n),
{
    law_codes_in_value_order(Some(x), Some(y), Seq::empty(), Seq::empty());
}

/// Texts are told apart by what they are, and are in the order of their bytes.
pub proof fn law_texts_by_bytes(x: JsonView, y: JsonView, s: Seq<char>, t: Seq<char>)
    requires
        x.shape == ShapeView::Text(s),
        y.shape == ShapeView::Text(t),
    ensures
        order_code(Some(x)) == order_code(Some(y)) <==> s == t,
        bytes_lt(order_code(Some(x)), order_code(Some(y))) <==> bytes_lt(utf8(s), utf8(t)),
{
    law_codes_in_value_order(Some(x), Some(y), Seq::empty(), Seq::empty());
    lemma_utf8_injective(s, t);
    crate::bytes::lemma_lt_total(utf8(s), utf8(t));
}

/// Arrays and objects are told apart by their text.
pub proof fn law_nested_by_text(x: JsonView, y: JsonView)
    requires
        x.shape is Array || x.shape is Object,
        y.shape is Array || y.shape is Object,
    ensures
        order_code(Some(x)) == order_code(Some(y)) <==> x.text == y.text,
        bytes_lt(order_code(Some(x)), order_code(Some(y))) <==> bytes_lt(utf8(x.text), utf8(y.text)),
{
    law_codes_in_value_order(Some(x), Some(y), Seq::empty(), Seq::empty());
    lemma_utf8_injective(x.text, y.text);
    crate::bytes::lemma_lt_total(utf8(x.text), utf8(y.text));
}

/// Null comes before false, false before true, true before every number, a
/// number before every text, a text before every array and object, and what
/// is there before what is not.
pub proof fn law_kinds_of_values_in_order(x: JsonView, y: JsonView)
    ensures
        bytes_lt(order_code(Some(x)), order_code(None)),
        x.shape is Null && y.shape is Null ==> order_code(Some(x)) == order_code(Some(y)),
        x.shape is Null && !(y.shape is Null) ==> bytes_lt(order_code(Some(x)), order_code(Some(y))),
        x.shape == ShapeView::Bool(false) && y.shape == ShapeView::Bool(true) ==> bytes_lt(
            order_code(Some(x)),
            order_code(Some(y)),
        ),
        x.shape is Bool && y.shape is Bool && x.shape->Bool_0 == y.shape->Bool_0 ==> order_code(Some(x)) == order_code(
            Some(y),
        ),
        x.shape is Bool && (y.shape is Number || y.shape is Text || y.shape is Array || y.shape is Object) ==> bytes_lt(
            order_code(Some(x)),
            order_code(Some(y)),
        ),
        x.shape is Number && (y.shape is Text || y.shape is Array || y.shape is Object) ==> bytes_lt(
            order_code(Some(x)),
            order_code(Some(y)),
        ),
        x.shape is Text && (y.shape is Array || y.shape is Object) ==> bytes_lt(
            order_code(Some(x)),
            order_code(Some(y)),
        ),
{
    law_codes_in_value_order(Some(x), None, Seq::empty(), Seq::empty());
    law_codes_in_value_order(Some(x), Some(y), Seq::empty(), Seq::empty());
}

/// Bytes are in dictionary order: the first byte that differs decides, and
/// what ends comes before what goes on.
pub proof fn law_dictionary_order(a: Seq<u8>, b: Seq<u8>, k: int)
    requires
        0 <= k <= a.len(),
        k <= b.len(),
        a.take(k) == b.take(k),
    ensures
        k < a.len() && k < b.len() && a[k] < b[k] ==> bytes_lt(a, b),
        k < a.len() && k < b.len() && a[k] > b[k] ==> !bytes_lt(a, b),
        k == a.len() && k < b.len() ==> bytes_lt(a, b),
        k == b.len() ==> !bytes_lt(a, b),
    decreases k,
{
    if k > 0 {
        assert(a[0] == a.take(k)[0] && b[0] == b.take(k)[0]);
        assert(a.skip(1).take(k - 1) =~= a.take(k).skip(1));
        assert(b.skip(1).take(k - 1) =~= b.take(k).skip(1));
        law_dictionary_order(a.skip(1), b.skip(1), k - 1);
        if k < a.len() {
            assert(a.skip(1)[k - 1] == a[k]);
        }
        if k < b.len() {
            assert(b.skip(1)[k - 1] == b[k]);
        }
    }
}

/// The field of data that is an object is what the object's first member of
/// that name is read as; there is none where no member has the name, or the
/// data is no object.
pub proof fn law_field_is_the_member(data: Seq<char>, name: Seq<char>, i: int)
    ensures
        json_members(data) is None ==> field_of(data, name) is None,
        json_members(data) matches Some(m) ==> {
            &&& (0 <= i < m.len() && m[i].0 == name && forall|j: int| 0 <= j < i ==> (#[trigger] m[j]).0 != name)
                ==> field_of(data, name) == json_value(m[i].1)
            &&& (forall|j: int| 0 <= j < m.len() ==> (#[trigger] m[j]).0 != name) ==> field_of(data, name) is None
        },
{
    if let Some(m) = json_members(data) {
        if 0 <= i < m.len() && m[i].0 == name && forall|j: int| 0 <= j < i ==> (#[trigger] m[j]).0 != name {
            lemma_member_at(m, name, i);
        }
        if forall|j: int| 0 <= j < m.len() ==> (#[trigger] m[j]).0 != name {
            lemma_member_at(m, name, m.len() as int);
        }
    }
}

proof fn lemma_member_at(m: Seq<(Seq<char>, Seq<char>)>, name: Seq<char>, k: int)
    requires
        0 <= k <= m.len(),
        forall|i: int| 0 <= i < k ==> (#[trigger] m[i]).0 != name,
        k < m.len() ==> m[k].0 == name,
    ensures
        member_index(m, name) == k,
    decreases m.len(),
{
    if k > 0 {
        assert(m[0].0 != name);
        let rest = m.drop_first();
        assert forall|i: int| 0 <= i < k - 1 implies (#[trigger] rest[i]).0 != name by {
            assert(rest[i] == m[i + 1]);
        }
        lemma_member_at(rest, name, k - 1);
    }
}

proof fn lemma_member_found(m: Seq<(Seq<char>, Seq<char>)>, name: Seq<char>)
    ensures
        0 <= member_index(m, name) <= m.len(),
        forall|i: int| 0 <= i < member_index(m, name) ==> (#[trigger] m[i]).0 != name,
        member_index(m, name) < m.len() ==> m[member_index(m, name)].0 == name,
    decreases m.len(),
{
    if m.len() > 0 && m[0].0 != name {
        let rest = m.drop_first();
        lemma_member_found(rest, name);
        assert forall|i: int| 0 <= i < member_index(m, name) implies (#[trigger] m[i]).0 != name by {
            if i > 0 {
                assert(rest[i - 1] == m[i]);
            }
        }
    }
}

/// Setting a member of an object gives it the text, and leaves the others
/// theirs.
pub proof fn law_one_member_is_set(m: Seq<(Seq<char>, Seq<char>)>, name: Seq<char>, text: Seq<char>, other: Seq<char>)
    ensures
        member_text(with_member(m, name, text), name) == Some(text),
        other != name ==> member_text(with_member(m, name, text), other) == member_text(m, other),
{
    let k = member_index(m, name);
    lemma_member_found(m, name);
    let after = with_member(m, name, text);
    assert forall|i: int| 0 <= i < k implies (#[trigger] after[i]).0 != name by {
        assert(after[i] == m[i]);
    }
    lemma_member_at(after, name, k);
    if other != name {
        let j = member_index(m, other);
        lemma_member_found(m, other);
        if j < m.len() {
            assert forall|i: int| 0 <= i < j implies (#[trigger] after[i]).0 != other by {
                assert(m[i].0 != other);
            }
            lemma_member_at(after, other, j);
        } else {
            assert forall|i: int| 0 <= i < after.len() implies (#[trigger] after[i]).0 != other by {
                if i < m.len() {
                    assert(m[i].0 != other);
                }
            }
            lemma_member_at(after, other, after.len() as int);
        }
    }
}

} // verus!
