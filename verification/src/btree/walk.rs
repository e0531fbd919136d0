//! Walking a range of keys in order.
//!
//! A walk over a prefix goes in one direction through the entries with the
//! prefix: all of them, or those strictly past a given key, which need not
//! have the prefix.

use vstd::prelude::*;

use crate::btree::node::upper_bound_of;
use crate::bytes::{
    bytes_le, bytes_lt, group_order, has_prefix, lemma_lt_common_prefix, lemma_prefix_convex, lemma_prefix_le,
};

verus! {

/// A cursor as a value.
pub open spec fn cursor_view(cursor: Option<Vec<u8>>) -> Option<Seq<u8>> {
    match cursor {
        Some(c) => Some(c@),
        None => None,
    }
}

/// The key `k` has the prefix and lies ahead of where a walk stands.
pub open spec fn ahead(prefix: Seq<u8>, cursor: Option<Seq<u8>>, reverse: bool, k: Seq<u8>) -> bool {
    &&& has_prefix(k, prefix)
    &&& cursor matches Some(c) ==> if reverse {
        bytes_lt(k, c)
    } else {
        bytes_lt(c, k)
    }
}

/// `k` is where a walk goes next: the first key ahead of where it stands.
pub open spec fn is_next(
    m: Map<Seq<u8>, Seq<u8>>,
    prefix: Seq<u8>,
    cursor: Option<Seq<u8>>,
    reverse: bool,
    k: Seq<u8>,
) -> bool {
    &&& m.contains_key(k)
    &&& ahead(prefix, cursor, reverse, k)
    &&& forall|o: Seq<u8>|
        #[trigger] m.contains_key(o) && ahead(prefix, cursor, reverse, o) ==> if reverse {
            bytes_le(o, k)
        } else {
            bytes_le(k, o)
        }
}

/// Where a walk stands after its first `i` keys.
pub open spec fn cursor_after(start: Option<Seq<u8>>, ks: Seq<Seq<u8>>, i: int) -> Option<Seq<u8>> {
    if i == 0 {
        start
    } else {
        Some(ks[i - 1])
    }
}

/// The key at position `i` is where the walk goes after the ones before it.
pub open spec fn walk_step(
    m: Map<Seq<u8>, Seq<u8>>,
    prefix: Seq<u8>,
    start: Option<Seq<u8>>,
    reverse: bool,
    ks: Seq<Seq<u8>>,
    i: int,
) -> bool {
    is_next(m, prefix, cursor_after(start, ks, i), reverse, ks[i])
}

/// `ks` are the keys of the whole walk.
pub open spec fn is_walk(
    m: Map<Seq<u8>, Seq<u8>>,
    prefix: Seq<u8>,
    start: Option<Seq<u8>>,
    reverse: bool,
    ks: Seq<Seq<u8>>,
) -> bool {
    &&& forall|i: int| 0 <= i < ks.len() ==> #[trigger] walk_step(m, prefix, start, reverse, ks, i)
    &&& forall|k: Seq<u8>|
        !#[trigger] is_next(m, prefix, cursor_after(start, ks, ks.len() as int), reverse, k)
}

/// The keys of the walk.
pub open spec fn walk_keys(
    m: Map<Seq<u8>, Seq<u8>>,
    prefix: Seq<u8>,
    start: Option<Seq<u8>>,
    reverse: bool,
) -> Seq<Seq<u8>> {
    choose|ks: Seq<Seq<u8>>| is_walk(m, prefix, start, reverse, ks)
}

/// The keys still ahead of where a walk stands.
pub open spec fn rest(
    m: Map<Seq<u8>, Seq<u8>>,
    prefix: Seq<u8>,
    cursor: Option<Seq<u8>>,
    reverse: bool,
) -> Set<Seq<u8>> {
    m.dom().filter(|k: Seq<u8>| ahead(prefix, cursor, reverse, k))
}

/// A walk over a finite map has its keys.
pub proof fn lemma_walk(
    m: Map<Seq<u8>, Seq<u8>>,
    prefix: Seq<u8>,
    start: Option<Seq<u8>>,
    reverse: bool,
)
    requires
        m.dom().finite(),
    ensures
        is_walk(m, prefix, start, reverse, walk_keys(m, prefix, start, reverse)),
{
    assert(rest(m, prefix, start, reverse).finite()) by {
        m.dom().lemma_len_filter(|k: Seq<u8>| ahead(prefix, start, reverse, k));
    }
    lemma_walk_exists(m, prefix, start, reverse, rest(m, prefix, start, reverse).len());
}

proof fn lemma_walk_exists(
    m: Map<Seq<u8>, Seq<u8>>,
    prefix: Seq<u8>,
    start: Option<Seq<u8>>,
    reverse: bool,
    fuel: nat,
)
    requires
        m.dom().finite(),
        rest(m, prefix, start, reverse).len() <= fuel,
    ensures
        exists|ks: Seq<Seq<u8>>| is_walk(m, prefix, start, reverse, ks),
    decreases fuel,
{
    broadcast use group_order;

    if exists|k: Seq<u8>| #[trigger] is_next(m, prefix, start, reverse, k) {
        let k = choose|k: Seq<u8>| #[trigger] is_next(m, prefix, start, reverse, k);
        let here = rest(m, prefix, start, reverse);
        let then = rest(m, prefix, Some(k), reverse);
        m.dom().lemma_len_filter(|o: Seq<u8>| ahead(prefix, start, reverse, o));
        assert(then.subset_of(here.remove(k))) by {
            assert forall|o: Seq<u8>| then.contains(o) implies here.remove(k).contains(o) by {
                lemma_ahead_further(prefix, start, reverse, k, o);
            }
        }
        vstd::set_lib::lemma_len_subset(then, here.remove(k));
        assert(here.contains(k));
        lemma_walk_exists(m, prefix, Some(k), reverse, (fuel - 1) as nat);
        let tail = choose|ks: Seq<Seq<u8>>| is_walk(m, prefix, Some(k), reverse, ks);
        let ks = seq![k] + tail;
        assert forall|i: int| 0 <= i < ks.len() implies #[trigger] walk_step(m, prefix, start, reverse, ks, i) by {
            if i > 0 {
                assert(walk_step(m, prefix, Some(k), reverse, tail, i - 1));
                assert(ks[i] == tail[i - 1]);
                assert(cursor_after(start, ks, i) == cursor_after(Some(k), tail, i - 1));
            }
        }
        assert(cursor_after(start, ks, ks.len() as int) == cursor_after(Some(k), tail, tail.len() as int));
        assert(is_walk(m, prefix, start, reverse, ks));
    } else {
        assert(is_walk(m, prefix, start, reverse, Seq::<Seq<u8>>::empty()));
    }
}

/// What is ahead of a key further on is ahead of where a walk stands.
pub proof fn lemma_ahead_further(
    prefix: Seq<u8>,
    cursor: Option<Seq<u8>>,
    reverse: bool,
    k: Seq<u8>,
    o: Seq<u8>,
)
    requires
        ahead(prefix, cursor, reverse, k),
        ahead(prefix, Some(k), reverse, o),
    ensures
        ahead(prefix, cursor, reverse, o),
        o != k,
{
    broadcast use group_order;

}

/// There is at most one key that a walk goes to next.
pub proof fn lemma_next_unique(
    m: Map<Seq<u8>, Seq<u8>>,
    prefix: Seq<u8>,
    cursor: Option<Seq<u8>>,
    reverse: bool,
    a: Seq<u8>,
    b: Seq<u8>,
)
    requires
        is_next(m, prefix, cursor, reverse, a),
        is_next(m, prefix, cursor, reverse, b),
    ensures
        a == b,
{
    broadcast use group_order;

    assert(m.contains_key(a) && m.contains_key(b));
}

/// A key with the prefix comes before the prefix's upper bound, and every
/// key from the prefix up to that bound has the prefix.
pub proof fn lemma_upper_bound(prefix: Seq<u8>, k: Seq<u8>)
    ensures
        has_prefix(k, prefix) <==> bytes_le(prefix, k) && (upper_bound_of(prefix) matches Some(b) ==> bytes_lt(
            k,
            b,
        )),
    decreases prefix.len(),
{
    broadcast use group_order;

    if prefix.len() == 0 {
        assert(k.take(0) =~= prefix);
        if k.len() == 0 {
            assert(k =~= prefix);
        }
    } else {
        let init = prefix.drop_last();
        lemma_upper_bound(init, k);
        if has_prefix(k, prefix) {
            lemma_prefix_le(prefix, k);
            assert(k.take(init.len() as int) =~= prefix.drop_last());
            assert(has_prefix(k, init));
        }
        assert(has_prefix(prefix, init)) by {
            assert(prefix.take(init.len() as int) =~= init);
        }
        lemma_prefix_le(init, prefix);
        if bytes_le(prefix, k) {
            assert(bytes_le(init, k));
        }
        if has_prefix(k, init) {
            let kr = k.skip(init.len() as int);
            let pr = seq![prefix.last()];
            assert(k =~= init + kr);
            assert(prefix =~= init + pr);
            lemma_lt_common_prefix(init, pr, kr);
            lemma_lt_common_prefix(init, kr, pr);
            if has_prefix(k, prefix) {
                assert(k.take(prefix.len() as int).last() == prefix.last());
                assert(kr[0] == prefix.last());
            }
            if kr.len() > 0 && kr[0] == prefix.last() {
                assert(k.take(prefix.len() as int) =~= prefix);
            }
            if prefix.last() != 0xff {
                let br = seq![(prefix.last() + 1) as u8];
                let bound = init.push((prefix.last() + 1) as u8);
                assert(bound =~= init + br);
                lemma_lt_common_prefix(init, kr, br);
                if kr.len() > 0 {
                    assert(bytes_lt(kr.skip(1), pr.skip(1)) == false);
                    assert(bytes_lt(kr.skip(1), br.skip(1)) == false);
                    if kr[0] < prefix.last() {
                        assert(bytes_lt(kr, pr));
                    } else if kr[0] == prefix.last() {
                        assert(bytes_lt(kr, br));
                    } else {
                        assert(!bytes_lt(kr, br));
                    }
                } else {
                    assert(bytes_lt(kr, pr));
                }
            } else {
                if kr.len() > 0 {
                    assert(bytes_lt(kr.skip(1), pr.skip(1)) == false);
                    if kr[0] < 0xff {
                        assert(bytes_lt(kr, pr));
                    }
                } else {
                    assert(bytes_lt(kr, pr));
                }
            }
        } else if prefix.last() != 0xff {
            let bound = init.push((prefix.last() + 1) as u8);
            if bytes_le(prefix, k) && bytes_lt(k, bound) {
                assert(bound.take(init.len() as int) =~= init);
                lemma_prefix_convex(init, k, bound);
            }
        }
    }
}

/// A walk visits every key with its prefix that is ahead of its start.
pub proof fn lemma_walk_reaches(
    m: Map<Seq<u8>, Seq<u8>>,
    prefix: Seq<u8>,
    start: Option<Seq<u8>>,
    reverse: bool,
    ks: Seq<Seq<u8>>,
    k: Seq<u8>,
)
    requires
        m.dom().finite(),
        is_walk(m, prefix, start, reverse, ks),
        m.contains_key(k),
        ahead(prefix, start, reverse, k),
    ensures
        ks.contains(k),
    decreases ks.len(),
{
    broadcast use group_order;

    lemma_first_exists(m, prefix, start, reverse, k);
    let f = choose|f: Seq<u8>| is_next(m, prefix, start, reverse, f);
    if ks.len() == 0 {
        assert(!is_next(m, prefix, cursor_after(start, ks, 0), reverse, f));
    } else {
        assert(walk_step(m, prefix, start, reverse, ks, 0));
        lemma_next_unique(m, prefix, start, reverse, f, ks[0]);
        if f != k {
            let tail = ks.skip(1);
            assert forall|i: int| 0 <= i < tail.len() implies #[trigger] walk_step(
                m,
                prefix,
                Some(f),
                reverse,
                tail,
                i,
            ) by {
                assert(walk_step(m, prefix, start, reverse, ks, i + 1));
                assert(tail[i] == ks[i + 1]);
                assert(cursor_after(Some(f), tail, i) == cursor_after(start, ks, i + 1));
            }
            assert(cursor_after(Some(f), tail, tail.len() as int) == cursor_after(start, ks, ks.len() as int));
            assert(is_walk(m, prefix, Some(f), reverse, tail));
            lemma_walk_reaches(m, prefix, Some(f), reverse, tail, k);
            let i = choose|i: int| 0 <= i < tail.len() && tail[i] == k;
            assert(ks[i + 1] == k);
        }
    }
}

/// Where some key is ahead, one is the first.
pub proof fn lemma_first_exists(
    m: Map<Seq<u8>, Seq<u8>>,
    prefix: Seq<u8>,
    start: Option<Seq<u8>>,
    reverse: bool,
    k: Seq<u8>,
)
    requires
        m.dom().finite(),
        m.contains_key(k),
        ahead(prefix, start, reverse, k),
    ensures
        exists|f: Seq<u8>| is_next(m, prefix, start, reverse, f),
{
    let s = rest(m, prefix, start, reverse);
    m.dom().lemma_len_filter(|o: Seq<u8>| ahead(prefix, start, reverse, o));
    assert(s.contains(k));
    lemma_extreme(s, reverse);
    let f = choose|f: Seq<u8>|
        s.contains(f) && forall|o: Seq<u8>| #[trigger]
            s.contains(o) ==> if reverse {
                bytes_le(o, f)
            } else {
                bytes_le(f, o)
            };
    assert forall|o: Seq<u8>| #[trigger] m.contains_key(o) && ahead(prefix, start, reverse, o) implies if reverse {
        bytes_le(o, f)
    } else {
        bytes_le(f, o)
    } by {
        assert(s.contains(o));
    }
    assert(is_next(m, prefix, start, reverse, f));
}

proof fn lemma_extreme(s: Set<Seq<u8>>, reverse: bool)
    requires
        s.finite(),
        s.len() > 0 || exists|k: Seq<u8>| s.contains(k),
    ensures
        exists|f: Seq<u8>|
            s.contains(f) && forall|o: Seq<u8>| #[trigger]
                s.contains(o) ==> if reverse {
                    bytes_le(o, f)
                } else {
                    bytes_le(f, o)
                },
    decreases s.len(),
{
    broadcast use group_order;

    let a = s.choose();
    assert(s.contains(a));
    let t = s.remove(a);
    if t.len() == 0 {
        assert forall|o: Seq<u8>| #[trigger] s.contains(o) implies o == a by {
            if o != a {
                assert(t.contains(o));
                assert(t =~= Set::<Seq<u8>>::empty());
            }
        }
        assert(s.contains(a) && forall|o: Seq<u8>| #[trigger]
            s.contains(o) ==> if reverse {
                bytes_le(o, a)
            } else {
                bytes_le(a, o)
            });
    } else {
        lemma_extreme(t, reverse);
        let f = choose|f: Seq<u8>|
            t.contains(f) && forall|o: Seq<u8>| #[trigger]
                t.contains(o) ==> if reverse {
                    bytes_le(o, f)
                } else {
                    bytes_le(f, o)
                };
        let better = if reverse { bytes_lt(f, a) } else { bytes_lt(a, f) };
        let g = if better { a } else { f };
        assert forall|o: Seq<u8>| #[trigger] s.contains(o) implies if reverse {
            bytes_le(o, g)
        } else {
            bytes_le(g, o)
        } by {
            if o != a {
                assert(t.contains(o));
            }
        }
        assert(s.contains(g));
    }
}

/// A walk's keys are in the order of its direction.
pub proof fn lemma_walk_sorted(
    m: Map<Seq<u8>, Seq<u8>>,
    prefix: Seq<u8>,
    start: Option<Seq<u8>>,
    reverse: bool,
    ks: Seq<Seq<u8>>,
    i: int,
    j: int,
)
    requires
        is_walk(m, prefix, start, reverse, ks),
        0 <= i < j < ks.len(),
    ensures
        if reverse {
            bytes_lt(ks[j], ks[i])
        } else {
            bytes_lt(ks[i], ks[j])
        },
    decreases j - i,
{
    broadcast use group_order;

    assert(walk_step(m, prefix, start, reverse, ks, j));
    if i + 1 < j {
        lemma_walk_sorted(m, prefix, start, reverse, ks, i, j - 1);
    }
}

} // verus!
