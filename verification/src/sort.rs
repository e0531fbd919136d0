//! Sorting by byte strings.

use vstd::prelude::*;

use crate::bytes::{bytes_lt, compare, lemma_lt_total, lemma_lt_transitive, Order};
use crate::text::{lemma_utf8_injective, str_eq, text_lt, utf8};

verus! {

/// Positions in the order of their keys.
pub open spec fn ordered(keys: Seq<Vec<u8>>, r: Seq<usize>) -> bool {
    forall|i: int, j: int|
        0 <= i < j < r.len() ==> !bytes_lt(
            keys[(#[trigger] r[j]) as int]@,
            keys[(#[trigger] r[i]) as int]@,
        )
}

/// The list holds the numbers from `from` up to `to`, each once.
pub open spec fn is_range(r: Seq<usize>, from: int, to: int) -> bool {
    &&& r.len() == to - from
    &&& r.no_duplicates()
    &&& forall|x: usize| #[trigger] r.contains(x) <==> from <= x < to
}

proof fn lemma_not_lt_trans(a: Seq<u8>, b: Seq<u8>, c: Seq<u8>)
    requires
        !bytes_lt(b, a),
        !bytes_lt(c, b),
    ensures
        !bytes_lt(c, a),
{
    lemma_lt_total(a, b);
    lemma_lt_total(b, c);
    lemma_lt_total(a, c);
    if bytes_lt(c, a) {
        if a != b {
            lemma_lt_transitive(c, a, b);
        }
    }
}

/// What is merged so far.
spec fn merged(a: Seq<usize>, b: Seq<usize>, i: int, j: int, out: Seq<usize>) -> bool {
    &&& 0 <= i <= a.len()
    &&& 0 <= j <= b.len()
    &&& out.len() == i + j
    &&& out.no_duplicates()
    &&& forall|x: usize| #[trigger] out.contains(x) <==> a.take(i).contains(x) || b.take(j).contains(x)
}

/// What comes next is not before anything merged.
spec fn bounded(keys: Seq<Vec<u8>>, out: Seq<usize>, rest: Seq<usize>, i: int) -> bool {
    forall|m: int, n: int|
        0 <= m < out.len() && i <= n < rest.len() ==> !bytes_lt(
            keys[(#[trigger] rest[n]) as int]@,
            keys[(#[trigger] out[m]) as int]@,
        )
}

proof fn lemma_merge_step(
    a: Seq<usize>,
    b: Seq<usize>,
    i: int,
    j: int,
    out: Seq<usize>,
    keys: Seq<Vec<u8>>,
)
    requires
        merged(a, b, i, j, out),
        i < a.len(),
        a.no_duplicates(),
        b.no_duplicates(),
        forall|x: usize| !(#[trigger] a.contains(x) && b.contains(x)),
        ordered(keys, a),
        ordered(keys, b),
        ordered(keys, out),
        bounded(keys, out, a, i),
        bounded(keys, out, b, j),
        j < b.len() ==> !bytes_lt(keys[b[j] as int]@, keys[a[i] as int]@),
    ensures
        merged(a, b, i + 1, j, out.push(a[i])),
        ordered(keys, out.push(a[i])),
        bounded(keys, out.push(a[i]), a, i + 1),
        bounded(keys, out.push(a[i]), b, j),
{
    let x = a[i];
    let next = out.push(x);
    assert(a.contains(x));
    assert(!out.contains(x)) by {
        if out.contains(x) {
            if a.take(i).contains(x) {
                let k = choose|k: int| 0 <= k < i && a.take(i)[k] == x;
                assert(a[k] == x);
            } else {
                let k = choose|k: int| 0 <= k < j && b.take(j)[k] == x;
                assert(b[k] == x);
                assert(b.contains(x));
            }
        }
    }
    assert forall|y: usize| #[trigger] next.contains(y) <==> a.take(i + 1).contains(y) || b.take(j).contains(y) by {
        if next.contains(y) {
            let k = choose|k: int| 0 <= k < next.len() && next[k] == y;
            if k < out.len() {
                assert(out[k] == y);
                assert(out.contains(y));
                if a.take(i).contains(y) {
                    let m = choose|m: int| 0 <= m < i && a.take(i)[m] == y;
                    assert(a.take(i + 1)[m] == y);
                }
            } else {
                assert(a.take(i + 1)[i] == y);
            }
        }
        if a.take(i + 1).contains(y) {
            let longer = a.take(i + 1);
            let m = choose|m: int| 0 <= m < longer.len() && longer[m] == y;
            if m < i {
                assert(a.take(i)[m] == y);
                assert(out.contains(y));
                let k = choose|k: int| 0 <= k < out.len() && out[k] == y;
                assert(next[k] == y);
            } else {
                assert(next[out.len() as int] == y);
            }
        }
        if b.take(j).contains(y) {
            assert(out.contains(y));
            let k = choose|k: int| 0 <= k < out.len() && out[k] == y;
            assert(next[k] == y);
        }
    }
    assert forall|m: int, n: int| 0 <= m < n < next.len() implies next[m] != next[n] by {
        if n == out.len() {
            assert(out[m] == next[m]);
            assert(out.contains(out[m]));
        }
    }
    assert forall|m: int, n: int| 0 <= m < n < next.len() implies !bytes_lt(
        keys[(#[trigger] next[n]) as int]@,
        keys[(#[trigger] next[m]) as int]@,
    ) by {
        assert(next[m] == out[m]);
        if n < out.len() {
            assert(next[n] == out[n]);
        } else {
            assert(next[n] == a[i]);
        }
    }
    assert forall|m: int, n: int| 0 <= m < next.len() && i + 1 <= n < a.len() implies !bytes_lt(
        keys[(#[trigger] a[n]) as int]@,
        keys[(#[trigger] next[m]) as int]@,
    ) by {
        if m < out.len() {
            assert(next[m] == out[m]);
        } else {
            assert(next[m] == a[i]);
        }
    }
    assert forall|m: int, n: int| 0 <= m < next.len() && j <= n < b.len() implies !bytes_lt(
        keys[(#[trigger] b[n]) as int]@,
        keys[(#[trigger] next[m]) as int]@,
    ) by {
        if m < out.len() {
            assert(next[m] == out[m]);
        } else {
            assert(next[m] == a[i]);
            if n > j {
                lemma_not_lt_trans(keys[a[i] as int]@, keys[b[j] as int]@, keys[b[n] as int]@);
            }
        }
    }
}

proof fn lemma_merged_swap(a: Seq<usize>, b: Seq<usize>, i: int, j: int, out: Seq<usize>)
    requires
        merged(a, b, i, j, out),
    ensures
        merged(b, a, j, i, out),
{
}

fn merge(keys: &Vec<Vec<u8>>, a: &Vec<usize>, b: &Vec<usize>) -> (out: Vec<usize>)
    requires
        a@.no_duplicates(),
        b@.no_duplicates(),
        forall|x: usize| !(#[trigger] a@.contains(x) && b@.contains(x)),
        ordered(keys@, a@),
        ordered(keys@, b@),
        forall|k: int| 0 <= k < a@.len() ==> (#[trigger] a@[k]) < keys@.len(),
        forall|k: int| 0 <= k < b@.len() ==> (#[trigger] b@[k]) < keys@.len(),
        a@.len() + b@.len() <= keys@.len(),
    ensures
        out@.len() == a@.len() + b@.len(),
        out@.no_duplicates(),
        ordered(keys@, out@),
        forall|x: usize| #[trigger] out@.contains(x) <==> a@.contains(x) || b@.contains(x),
{
    let mut out: Vec<usize> = Vec::with_capacity(a.len());
    let mut i: usize = 0;
    let mut j: usize = 0;
    while i < a.len() || j < b.len()
        invariant
            a@.no_duplicates(),
            b@.no_duplicates(),
            forall|x: usize| !(#[trigger] a@.contains(x) && b@.contains(x)),
            ordered(keys@, a@),
            ordered(keys@, b@),
            forall|k: int| 0 <= k < a@.len() ==> (#[trigger] a@[k]) < keys@.len(),
            forall|k: int| 0 <= k < b@.len() ==> (#[trigger] b@[k]) < keys@.len(),
            a@.len() + b@.len() <= keys@.len(),
            merged(a@, b@, i as int, j as int, out@),
            ordered(keys@, out@),
            bounded(keys@, out@, a@, i as int),
            bounded(keys@, out@, b@, j as int),
        decreases a.len() - i + (b.len() - j),
    {
        let from_a: bool = if i >= a.len() {
            false
        } else if j >= b.len() {
            true
        } else {
            match compare(&keys[b[j]], &keys[a[i]]) {
                Order::Less => false,
                _ => true,
            }
        };
        if from_a {
            proof {
                lemma_merge_step(a@, b@, i as int, j as int, out@, keys@);
            }
            out.push(a[i]);
            i = i + 1;
        } else {
            proof {
                lemma_merged_swap(a@, b@, i as int, j as int, out@);
                if i < a@.len() {
                    lemma_lt_total(keys@[b@[j as int] as int]@, keys@[a@[i as int] as int]@);
                }
                lemma_merge_step(b@, a@, j as int, i as int, out@, keys@);
                lemma_merged_swap(b@, a@, j + 1, i as int, out@.push(b@[j as int]));
            }
            out.push(b[j]);
            j = j + 1;
        }
    }
    proof {
        assert(a@.take(a@.len() as int) =~= a@);
        assert(b@.take(b@.len() as int) =~= b@);
    }
    out
}

fn sorted_range(keys: &Vec<Vec<u8>>, from: usize, to: usize) -> (r: Vec<usize>)
    requires
        from <= to <= keys@.len(),
    ensures
        is_range(r@, from as int, to as int),
        ordered(keys@, r@),
    decreases to - from,
{
    if to - from == 0 {
        let r: Vec<usize> = Vec::new();
        return r;
    }
    if to - from == 1 {
        let mut r: Vec<usize> = Vec::new();
        r.push(from);
        proof {
            assert(r@[0] == from);
            assert forall|x: usize| #[trigger] r@.contains(x) <==> from <= x < to by {}
        }
        return r;
    }
    let mid: usize = from + (to - from) / 2;
    let a = sorted_range(keys, from, mid);
    let b = sorted_range(keys, mid, to);
    proof {
        assert forall|k: int| 0 <= k < a@.len() implies (#[trigger] a@[k]) < keys@.len() by {
            assert(a@.contains(a@[k]));
        }
        assert forall|k: int| 0 <= k < b@.len() implies (#[trigger] b@[k]) < keys@.len() by {
            assert(b@.contains(b@[k]));
        }
    }
    merge(keys, &a, &b)
}

/// The positions of keys in the order of the keys.
pub fn sort_positions(keys: &Vec<Vec<u8>>) -> (r: Vec<usize>)
    ensures
        is_range(r@, 0, keys@.len() as int),
        ordered(keys@, r@),
{
    sorted_range(keys, 0, keys.len())
}

// ---------------------------------------------------------------------
// Texts
// ---------------------------------------------------------------------

/// Texts in the order of their bytes, none twice.
pub open spec fn texts_sorted(list: Seq<String>) -> bool {
    forall|i: int, j: int| 0 <= i < j < list.len() ==> text_lt((#[trigger] list[i])@, (#[trigger] list[j])@)
}

/// The list holds this text.
pub open spec fn has_text(list: Seq<String>, t: Seq<char>) -> bool {
    exists|i: int| 0 <= i < list.len() && (#[trigger] list[i])@ == t
}

/// The texts in the order of their bytes, each once.
pub fn sorted_distinct(list: &Vec<String>) -> (r: Vec<String>)
    ensures
        texts_sorted(r@),
        forall|t: Seq<char>| #[trigger] has_text(r@, t) <==> has_text(list@, t),
{
    let mut keys: Vec<Vec<u8>> = Vec::with_capacity(list.len());
    let mut i: usize = 0;
    while i < list.len()
        invariant
            i <= list@.len(),
            keys@.len() == i,
            forall|k: int| 0 <= k < i ==> (#[trigger] keys@[k])@ == utf8(list@[k]@),
        decreases list.len() - i,
    {
        keys.push(crate::bytes::copy_bytes(list[i].as_str().as_bytes()));
        i = i + 1;
    }
    let order = sort_positions(&keys);
    let mut out: Vec<String> = Vec::new();
    let mut m: usize = 0;
    while m < order.len()
        invariant
            keys@.len() == list@.len(),
            forall|k: int| 0 <= k < keys@.len() ==> (#[trigger] keys@[k])@ == utf8(list@[k]@),
            is_range(order@, 0, list@.len() as int),
            ordered(keys@, order@),
            m <= order@.len(),
            texts_sorted(out@),
            out@.len() == 0 <==> m == 0,
            m > 0 ==> out@.last()@ == list@[order@[m - 1] as int]@,
            forall|k: int| 0 <= k < out@.len() ==> has_text(list@, (#[trigger] out@[k])@),
            forall|k: int| 0 <= k < m ==> has_text(out@, list@[(#[trigger] order@[k]) as int]@),
        decreases order.len() - m,
    {
        let p: usize = order[m];
        proof {
            assert(order@.contains(order@[m as int]));
        }
        let again: bool = match out.last() {
            Some(t) => str_eq(t, &list[p]),
            None => false,
        };
        let ghost before = out@;
        if !again {
            out.push(list[p].clone());
        }
        proof {
            let t = list@[p as int]@;
            assert(has_text(list@, t));
            if !again {
                if m > 0 {
                    let q = order@[m - 1];
                    assert(order@.contains(q));
                    assert(!bytes_lt(keys@[order@[m as int] as int]@, keys@[order@[m - 1] as int]@));
                    lemma_utf8_injective(list@[q as int]@, t);
                    lemma_lt_total(utf8(list@[q as int]@), utf8(t));
                    assert(text_lt(before.last()@, t));
                }
                assert forall|x: int, y: int| 0 <= x < y < out@.len() implies text_lt(
                    (#[trigger] out@[x])@,
                    (#[trigger] out@[y])@,
                ) by {
                    if y == before.len() {
                        if x < before.len() - 1 {
                            assert(text_lt(before[x]@, before[before.len() - 1]@));
                            lemma_lt_transitive(utf8(before[x]@), utf8(before.last()@), utf8(t));
                        }
                    } else {
                        assert(out@[x] == before[x] && out@[y] == before[y]);
                    }
                }
                assert(out@[before.len() as int]@ == t);
            } else {
                assert(out@[out@.len() - 1]@ == t);
            }
            assert forall|k: int| 0 <= k < m + 1 implies has_text(out@, list@[(#[trigger] order@[k]) as int]@) by {
                if k < m {
                    assert(has_text(before, list@[order@[k] as int]@));
                    let w = choose|w: int| 0 <= w < before.len() && (#[trigger] before[w])@ == list@[order@[k] as int]@;
                    assert(out@[w]@ == before[w]@);
                }
            }
        }
        m = m + 1;
    }
    proof {
        assert forall|t: Seq<char>| #[trigger] has_text(out@, t) <==> has_text(list@, t) by {
            if has_text(out@, t) {
                let k = choose|k: int| 0 <= k < out@.len() && (#[trigger] out@[k])@ == t;
                assert(has_text(list@, out@[k]@));
            }
            if has_text(list@, t) {
                let k = choose|k: int| 0 <= k < list@.len() && (#[trigger] list@[k])@ == t;
                assert(order@.contains(k as usize));
                let w = choose|w: int| 0 <= w < order@.len() && order@[w] == k as usize;
                assert(has_text(out@, list@[order@[w] as int]@));
            }
        }
    }
    out
}

} // verus!
