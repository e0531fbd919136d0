//! The children of a branch and the separators between them.
//!
//! A family is what a branch page stands for, free of the page: the trees
//! in order and the keys that divide them. Splitting a child, cutting a
//! branch in two and dropping an empty child are operations on families.

use vstd::prelude::*;

use crate::btree::model::{
    apart, branch_keys, branch_ok, child, child_hi, child_lo, in_bounds, key_len_ok, lemma_frame, lemma_lookup_bounds,
    lemma_route, lemma_route_unique, lemma_widen, lookup, nonempty, owns, route, routes, sorted, strictly_between,
    tree_ok, FIRST_DATA_PAGE,
};
use crate::bytes::{bytes_le, bytes_lt, group_order};
use crate::page::PageView;

verus! {

/// The lower bound of the member at position `i`.
pub open spec fn member_lo(keys: Seq<Seq<u8>>, i: int, lo: Option<Seq<u8>>) -> Option<Seq<u8>> {
    if i == 0 {
        lo
    } else {
        Some(keys[i - 1])
    }
}

/// The upper bound of the member at position `i`.
pub open spec fn member_hi(keys: Seq<Seq<u8>>, i: int, hi: Option<Seq<u8>>) -> Option<Seq<u8>> {
    if i == keys.len() {
        hi
    } else {
        Some(keys[i])
    }
}

/// The children of a branch page, from left to right.
pub open spec fn children(page: PageView) -> Seq<u32> {
    Seq::new(page.cells.len() + 1, |i: int| child(page, i))
}

/// The separators are in order, within bounds and of a length keys have.
pub open spec fn dividers_ok(keys: Seq<Seq<u8>>, lo: Option<Seq<u8>>, hi: Option<Seq<u8>>) -> bool {
    &&& sorted(keys)
    &&& forall|i: int|
        0 <= i < keys.len() ==> key_len_ok(#[trigger] keys[i]) && strictly_between(keys[i], lo, hi)
}

/// Trees of height `g` divided by `keys`, none of them empty and no two of
/// them sharing a page.
#[verifier::opaque]
pub open spec fn family_ok(
    pages: Seq<PageView>,
    cs: Seq<u32>,
    keys: Seq<Seq<u8>>,
    g: nat,
    lo: Option<Seq<u8>>,
    hi: Option<Seq<u8>>,
) -> bool {
    &&& cs.len() == keys.len() + 1
    &&& dividers_ok(keys, lo, hi)
    &&& forall|i: int|
        0 <= i < cs.len() ==> {
            &&& tree_ok(pages, #[trigger] cs[i], g, member_lo(keys, i, lo), member_hi(keys, i, hi))
            &&& nonempty(pages, cs[i])
        }
    &&& forall|i: int, j: int|
        0 <= i < j < cs.len() ==> apart(pages, #[trigger] cs[i], #[trigger] cs[j], g)
}

/// The page `x` belongs to a member.
pub open spec fn family_owns(pages: Seq<PageView>, cs: Seq<u32>, g: nat, x: u32) -> bool {
    exists|i: int| 0 <= i < cs.len() && owns(pages, #[trigger] cs[i], g, x)
}

/// What the family holds under `key`.
pub open spec fn family_lookup(
    pages: Seq<PageView>,
    cs: Seq<u32>,
    keys: Seq<Seq<u8>>,
    g: nat,
    key: Seq<u8>,
) -> Option<Seq<u8>> {
    lookup(pages, cs[route(keys, key)], g, key)
}

/// A branch tree is a page over a family.
pub proof fn lemma_branch_family(
    pages: Seq<PageView>,
    id: u32,
    h: nat,
    lo: Option<Seq<u8>>,
    hi: Option<Seq<u8>>,
)
    requires
        h > 0,
        tree_ok(pages, id, h, lo, hi),
    ensures
        FIRST_DATA_PAGE <= id < pages.len(),
        branch_ok(pages[id as int], lo, hi),
        family_ok(
            pages,
            children(pages[id as int]),
            branch_keys(pages[id as int]),
            (h - 1) as nat,
            lo,
            hi,
        ),
        !family_owns(pages, children(pages[id as int]), (h - 1) as nat, id),
        forall|x: u32| #[trigger]
            owns(pages, id, h, x) == (x == id || family_owns(
                pages,
                children(pages[id as int]),
                (h - 1) as nat,
                x,
            )),
        forall|key: Seq<u8>| #[trigger]
            lookup(pages, id, h, key) == family_lookup(
                pages,
                children(pages[id as int]),
                branch_keys(pages[id as int]),
                (h - 1) as nat,
                key,
            ),
{
    reveal(tree_ok);
    reveal(family_ok);
    let page = pages[id as int];
    let cs = children(page);
    let keys = branch_keys(page);
    let g = (h - 1) as nat;
    assert forall|i: int| 0 <= i < cs.len() implies {
        &&& tree_ok(pages, #[trigger] cs[i], g, member_lo(keys, i, lo), member_hi(keys, i, hi))
        &&& nonempty(pages, cs[i])
        &&& !owns(pages, cs[i], g, id)
    } by {
        assert(cs[i] == child(page, i));
    }
    assert forall|i: int, j: int| 0 <= i < j < cs.len() implies apart(
        pages,
        #[trigger] cs[i],
        #[trigger] cs[j],
        g,
    ) by {
        assert(cs[i] == child(page, i) && cs[j] == child(page, j));
    }
    assert(dividers_ok(keys, lo, hi));
    assert forall|x: u32| #[trigger] owns(pages, id, h, x) == (x == id || family_owns(pages, cs, g, x)) by {
        if owns(pages, id, h, x) && x != id {
            let i = choose|i: int|
                0 <= i <= page.cells.len() && owns(pages, #[trigger] child(page, i), g, x);
            assert(owns(pages, cs[i], g, x));
        }
        if family_owns(pages, cs, g, x) {
            let i = choose|i: int| 0 <= i < cs.len() && owns(pages, #[trigger] cs[i], g, x);
            assert(owns(pages, child(page, i), g, x));
        }
    }
    assert forall|key: Seq<u8>| #[trigger] lookup(pages, id, h, key) == family_lookup(
        pages,
        cs,
        keys,
        g,
        key,
    ) by {
        lemma_route(keys, key);
        assert(cs[route(keys, key)] == child(page, route(keys, key)));
    }
}

/// A page over a family, elsewhere than in it, is a branch tree.
pub proof fn lemma_family_branch(
    pages: Seq<PageView>,
    id: u32,
    h: nat,
    lo: Option<Seq<u8>>,
    hi: Option<Seq<u8>>,
)
    requires
        h > 0,
        FIRST_DATA_PAGE <= id < pages.len(),
        branch_ok(pages[id as int], lo, hi),
        family_ok(
            pages,
            children(pages[id as int]),
            branch_keys(pages[id as int]),
            (h - 1) as nat,
            lo,
            hi,
        ),
        !family_owns(pages, children(pages[id as int]), (h - 1) as nat, id),
    ensures
        tree_ok(pages, id, h, lo, hi),
{
    reveal(tree_ok);
    reveal(family_ok);
    let page = pages[id as int];
    let cs = children(page);
    let keys = branch_keys(page);
    let g = (h - 1) as nat;
    assert forall|i: int| 0 <= i <= page.cells.len() implies {
        &&& tree_ok(pages, #[trigger] child(page, i), g, child_lo(page, i, lo), child_hi(page, i, hi))
        &&& nonempty(pages, child(page, i))
        &&& !owns(pages, child(page, i), g, id)
    } by {
        assert(cs[i] == child(page, i));
    }
    assert forall|i: int, j: int| 0 <= i < j <= page.cells.len() implies apart(
        pages,
        #[trigger] child(page, i),
        #[trigger] child(page, j),
        g,
    ) by {
        assert(cs[i] == child(page, i) && cs[j] == child(page, j));
    }
}

/// A family stays what it is while its own pages stay what they are.
pub proof fn lemma_family_frame(
    a: Seq<PageView>,
    b: Seq<PageView>,
    cs: Seq<u32>,
    keys: Seq<Seq<u8>>,
    g: nat,
    lo: Option<Seq<u8>>,
    hi: Option<Seq<u8>>,
)
    requires
        family_ok(a, cs, keys, g, lo, hi),
        forall|x: u32| #[trigger] family_owns(a, cs, g, x) ==> x < b.len() && a[x as int] == b[x as int],
    ensures
        family_ok(b, cs, keys, g, lo, hi),
        forall|x: u32| #[trigger] family_owns(b, cs, g, x) == family_owns(a, cs, g, x),
        forall|key: Seq<u8>| #[trigger]
            family_lookup(b, cs, keys, g, key) == family_lookup(a, cs, keys, g, key),
{
    reveal(family_ok);
    assert forall|i: int| 0 <= i < cs.len() implies {
        &&& tree_ok(b, #[trigger] cs[i], g, member_lo(keys, i, lo), member_hi(keys, i, hi))
        &&& nonempty(b, cs[i])
        &&& forall|x: u32| #[trigger] owns(b, cs[i], g, x) == owns(a, cs[i], g, x)
        &&& forall|key: Seq<u8>| #[trigger] lookup(b, cs[i], g, key) == lookup(a, cs[i], g, key)
    } by {
        assert forall|x: u32| #[trigger] owns(a, cs[i], g, x) implies x < b.len() && a[x as int]
            == b[x as int] by {
            assert(family_owns(a, cs, g, x));
        }
        assert(owns(a, cs[i], g, cs[i]));
        lemma_frame(a, b, cs[i], g, member_lo(keys, i, lo), member_hi(keys, i, hi));
    }
    assert forall|i: int, j: int| 0 <= i < j < cs.len() implies apart(b, #[trigger] cs[i], #[trigger] cs[j], g) by {
        assert(apart(a, cs[i], cs[j], g));
        assert forall|x: u32| !(#[trigger] owns(b, cs[i], g, x) && owns(b, cs[j], g, x)) by {
            assert(owns(b, cs[i], g, x) == owns(a, cs[i], g, x));
            assert(owns(b, cs[j], g, x) == owns(a, cs[j], g, x));
        }
    }
    assert forall|x: u32| #[trigger] family_owns(b, cs, g, x) == family_owns(a, cs, g, x) by {
        if family_owns(a, cs, g, x) {
            let i = choose|i: int| 0 <= i < cs.len() && owns(a, #[trigger] cs[i], g, x);
            assert(owns(b, cs[i], g, x));
        }
        if family_owns(b, cs, g, x) {
            let i = choose|i: int| 0 <= i < cs.len() && owns(b, #[trigger] cs[i], g, x);
            assert(owns(a, cs[i], g, x));
        }
    }
    assert forall|key: Seq<u8>| #[trigger] family_lookup(b, cs, keys, g, key) == family_lookup(
        a,
        cs,
        keys,
        g,
        key,
    ) by {
        lemma_route(keys, key);
        let i = route(keys, key);
        assert(lookup(b, cs[i], g, key) == lookup(a, cs[i], g, key));
    }
}

/// The page `x` belongs to a member other than the one at `slot`.
pub open spec fn others_own(pages: Seq<PageView>, cs: Seq<u32>, g: nat, slot: int, x: u32) -> bool {
    exists|i: int| 0 <= i < cs.len() && i != slot && owns(pages, #[trigger] cs[i], g, x)
}

/// One member changes into another tree with the same bounds, in pages of
/// its own; the other members keep theirs.
pub proof fn lemma_family_replace(
    a: Seq<PageView>,
    b: Seq<PageView>,
    cs: Seq<u32>,
    keys: Seq<Seq<u8>>,
    g: nat,
    lo: Option<Seq<u8>>,
    hi: Option<Seq<u8>>,
    slot: int,
    c: u32,
)
    requires
        family_ok(a, cs, keys, g, lo, hi),
        0 <= slot < cs.len(),
        forall|x: u32| #[trigger]
            others_own(a, cs, g, slot, x) ==> x < b.len() && a[x as int] == b[x as int] && !owns(b, c, g, x),
        tree_ok(b, c, g, member_lo(keys, slot, lo), member_hi(keys, slot, hi)),
        nonempty(b, c),
    ensures
        family_ok(b, cs.update(slot, c), keys, g, lo, hi),
        forall|x: u32| #[trigger]
            family_owns(b, cs.update(slot, c), g, x) == (owns(b, c, g, x) || others_own(a, cs, g, slot, x)),
        forall|key: Seq<u8>| #[trigger]
            family_lookup(b, cs.update(slot, c), keys, g, key) == (if route(keys, key) == slot {
                lookup(b, c, g, key)
            } else {
                family_lookup(a, cs, keys, g, key)
            }),
{
    reveal(family_ok);
    let ds = cs.update(slot, c);
    assert forall|i: int| 0 <= i < cs.len() && i != slot implies {
        &&& tree_ok(b, #[trigger] cs[i], g, member_lo(keys, i, lo), member_hi(keys, i, hi))
        &&& nonempty(b, cs[i])
        &&& forall|x: u32| #[trigger] owns(b, cs[i], g, x) == owns(a, cs[i], g, x)
        &&& forall|key: Seq<u8>| #[trigger] lookup(b, cs[i], g, key) == lookup(a, cs[i], g, key)
    } by {
        assert forall|x: u32| #[trigger] owns(a, cs[i], g, x) implies x < b.len() && a[x as int]
            == b[x as int] by {
            assert(others_own(a, cs, g, slot, x));
        }
        assert(owns(a, cs[i], g, cs[i]));
        lemma_frame(a, b, cs[i], g, member_lo(keys, i, lo), member_hi(keys, i, hi));
    }
    assert forall|i: int| 0 <= i < ds.len() implies {
        &&& tree_ok(b, #[trigger] ds[i], g, member_lo(keys, i, lo), member_hi(keys, i, hi))
        &&& nonempty(b, ds[i])
    } by {
        if i != slot {
            assert(ds[i] == cs[i]);
        }
    }
    assert forall|i: int, j: int| 0 <= i < j < ds.len() implies apart(b, #[trigger] ds[i], #[trigger] ds[j], g) by {
        assert forall|x: u32| !(#[trigger] owns(b, ds[i], g, x) && owns(b, ds[j], g, x)) by {
            if owns(b, ds[i], g, x) && owns(b, ds[j], g, x) {
                if i == slot {
                    assert(owns(b, cs[j], g, x) == owns(a, cs[j], g, x));
                    assert(others_own(a, cs, g, slot, x));
                } else if j == slot {
                    assert(owns(b, cs[i], g, x) == owns(a, cs[i], g, x));
                    assert(others_own(a, cs, g, slot, x));
                } else {
                    assert(apart(a, cs[i], cs[j], g));
                    assert(owns(b, cs[i], g, x) == owns(a, cs[i], g, x));
                    assert(owns(b, cs[j], g, x) == owns(a, cs[j], g, x));
                }
            }
        }
    }
    assert forall|x: u32| #[trigger] family_owns(b, ds, g, x) == (owns(b, c, g, x) || others_own(a, cs, g, slot, x)) by {
        if family_owns(b, ds, g, x) {
            let i = choose|i: int| 0 <= i < ds.len() && owns(b, #[trigger] ds[i], g, x);
            if i != slot {
                assert(ds[i] == cs[i]);
                assert(owns(a, cs[i], g, x));
            }
        }
        if owns(b, c, g, x) {
            assert(owns(b, ds[slot], g, x));
        }
        if others_own(a, cs, g, slot, x) {
            let i = choose|i: int| 0 <= i < cs.len() && i != slot && owns(a, #[trigger] cs[i], g, x);
            assert(ds[i] == cs[i]);
            assert(owns(b, ds[i], g, x));
        }
    }
    assert forall|key: Seq<u8>| #[trigger] family_lookup(b, ds, keys, g, key) == (if route(keys, key) == slot {
        lookup(b, c, g, key)
    } else {
        family_lookup(a, cs, keys, g, key)
    }) by {
        lemma_route(keys, key);
        let i = route(keys, key);
        if i != slot {
            assert(ds[i] == cs[i]);
            assert(lookup(b, cs[i], g, key) == lookup(a, cs[i], g, key));
        }
    }
}

/// One member is split in two by a separator within its bounds.
pub proof fn lemma_family_divide(
    pages: Seq<PageView>,
    cs: Seq<u32>,
    keys: Seq<Seq<u8>>,
    g: nat,
    lo: Option<Seq<u8>>,
    hi: Option<Seq<u8>>,
    slot: int,
    left: u32,
    sep: Seq<u8>,
    right: u32,
)
    requires
        cs.len() == keys.len() + 1,
        0 <= slot < cs.len(),
        cs[slot] == left,
        dividers_ok(keys, lo, hi),
        key_len_ok(sep),
        strictly_between(sep, member_lo(keys, slot, lo), member_hi(keys, slot, hi)),
        forall|i: int|
            0 <= i < cs.len() && i != slot ==> {
                &&& tree_ok(pages, #[trigger] cs[i], g, member_lo(keys, i, lo), member_hi(keys, i, hi))
                &&& nonempty(pages, cs[i])
            },
        tree_ok(pages, left, g, member_lo(keys, slot, lo), Some(sep)),
        tree_ok(pages, right, g, Some(sep), member_hi(keys, slot, hi)),
        nonempty(pages, left),
        nonempty(pages, right),
        forall|i: int, j: int|
            0 <= i < j < cs.len() ==> apart(pages, #[trigger] cs[i], #[trigger] cs[j], g),
        forall|i: int| 0 <= i < cs.len() ==> apart(pages, #[trigger] cs[i], right, g),
    ensures
        family_ok(pages, cs.insert(slot + 1, right), keys.insert(slot, sep), g, lo, hi),
        forall|x: u32| #[trigger]
            family_owns(pages, cs.insert(slot + 1, right), g, x) == (family_owns(pages, cs, g, x) || owns(
                pages,
                right,
                g,
                x,
            )),
        forall|key: Seq<u8>| #[trigger]
            family_lookup(pages, cs.insert(slot + 1, right), keys.insert(slot, sep), g, key) == (if route(
                keys,
                key,
            ) == slot {
                if bytes_lt(key, sep) {
                    lookup(pages, left, g, key)
                } else {
                    lookup(pages, right, g, key)
                }
            } else {
                family_lookup(pages, cs, keys, g, key)
            }),
{
    broadcast use group_order;

    reveal(family_ok);
    let ds = cs.insert(slot + 1, right);
    let ks = keys.insert(slot, sep);
    assert forall|i: int, j: int| 0 <= i < j < ks.len() implies bytes_lt(#[trigger] ks[i], #[trigger] ks[j]) by {
        if i != slot && j != slot {
            let i0 = if i < slot { i } else { i - 1 };
            let j0 = if j < slot { j } else { j - 1 };
            assert(ks[i] == keys[i0] && ks[j] == keys[j0]);
        } else if i == slot {
            assert(ks[j] == keys[j - 1]);
            if j - 1 > slot {
                assert(bytes_lt(keys[slot], keys[j - 1]));
            }
        } else {
            assert(ks[i] == keys[i]);
            if i < slot - 1 {
                assert(bytes_lt(keys[i], keys[slot - 1]));
            }
        }
    }
    assert forall|i: int| 0 <= i < ks.len() implies key_len_ok(#[trigger] ks[i]) && strictly_between(ks[i], lo, hi) by {
        if i != slot {
            let i0 = if i < slot { i } else { i - 1 };
            assert(ks[i] == keys[i0]);
        } else {
            if slot > 0 {
                assert(strictly_between(keys[slot - 1], lo, hi));
            }
            if slot < keys.len() {
                assert(strictly_between(keys[slot], lo, hi));
            }
        }
    }
    assert(dividers_ok(ks, lo, hi));
    assert forall|i: int| 0 <= i < ds.len() implies {
        &&& tree_ok(pages, #[trigger] ds[i], g, member_lo(ks, i, lo), member_hi(ks, i, hi))
        &&& nonempty(pages, ds[i])
    } by {
        if i < slot {
            assert(ds[i] == cs[i]);
            assert(member_lo(ks, i, lo) == member_lo(keys, i, lo));
            assert(member_hi(ks, i, hi) == member_hi(keys, i, hi));
        } else if i == slot {
            assert(ds[i] == left);
        } else if i == slot + 1 {
            assert(ds[i] == right);
        } else {
            assert(ds[i] == cs[i - 1]);
            assert(member_lo(ks, i, lo) == member_lo(keys, i - 1, lo));
            assert(member_hi(ks, i, hi) == member_hi(keys, i - 1, hi));
        }
    }
    assert forall|i: int, j: int| 0 <= i < j < ds.len() implies apart(pages, #[trigger] ds[i], #[trigger] ds[j], g) by {
        let i0 = if i <= slot { i } else { i - 1 };
        let j0 = if j <= slot { j } else { j - 1 };
        if i == slot + 1 {
            assert(apart(pages, cs[j0], right, g));
            assert(ds[j] == cs[j0]);
            assert forall|x: u32| !(#[trigger] owns(pages, ds[i], g, x) && owns(pages, ds[j], g, x)) by {
                assert(!(owns(pages, cs[j0], g, x) && owns(pages, right, g, x)));
            }
        } else if j == slot + 1 {
            assert(ds[i] == cs[i0]);
        } else {
            assert(ds[i] == cs[i0] && ds[j] == cs[j0]);
        }
    }
    assert forall|x: u32| #[trigger] family_owns(pages, ds, g, x) == (family_owns(pages, cs, g, x) || owns(
        pages,
        right,
        g,
        x,
    )) by {
        if family_owns(pages, ds, g, x) {
            let i = choose|i: int| 0 <= i < ds.len() && owns(pages, #[trigger] ds[i], g, x);
            if i <= slot {
                assert(ds[i] == cs[i]);
            } else if i > slot + 1 {
                assert(ds[i] == cs[i - 1]);
            }
        }
        if family_owns(pages, cs, g, x) {
            let i = choose|i: int| 0 <= i < cs.len() && owns(pages, #[trigger] cs[i], g, x);
            let i1 = if i <= slot { i } else { i + 1 };
            assert(ds[i1] == cs[i]);
        }
        if owns(pages, right, g, x) {
            assert(ds[slot + 1] == right);
        }
    }
    assert forall|key: Seq<u8>| #[trigger] family_lookup(pages, ds, ks, g, key) == (if route(keys, key) == slot {
        if bytes_lt(key, sep) {
            lookup(pages, left, g, key)
        } else {
            lookup(pages, right, g, key)
        }
    } else {
        family_lookup(pages, cs, keys, g, key)
    }) by {
        lemma_route(keys, key);
        let r = route(keys, key);
        let r1 = if r < slot || (r == slot && bytes_lt(key, sep)) { r } else { r + 1 };
        assert forall|i: int| 0 <= i < r1 implies bytes_le(#[trigger] ks[i], key) by {
            if i < slot {
                assert(ks[i] == keys[i]);
            } else if i > slot {
                assert(ks[i] == keys[i - 1]);
            } else {
                assert(r >= slot);
                if r > slot {
                    assert(bytes_le(keys[slot], key));
                }
            }
        }
        if r1 < ks.len() {
            if r1 < slot {
                assert(ks[r1] == keys[r1]);
            } else if r1 == slot {
                if r < slot {
                    assert(false);
                }
            } else {
                assert(ks[r1] == keys[r1 - 1]);
            }
        }
        assert(routes(ks, key, r1));
        lemma_route_unique(ks, key, r1);
        if r < slot {
            assert(ds[r1] == cs[r]);
        } else if r > slot {
            assert(ds[r1] == cs[r]);
        }
    }
}

/// A family cut at a separator: that separator divides the two parts.
pub proof fn lemma_family_cut(
    pages: Seq<PageView>,
    cs: Seq<u32>,
    keys: Seq<Seq<u8>>,
    g: nat,
    lo: Option<Seq<u8>>,
    hi: Option<Seq<u8>>,
    point: int,
)
    requires
        family_ok(pages, cs, keys, g, lo, hi),
        0 <= point < keys.len(),
    ensures
        family_ok(pages, cs.take(point + 1), keys.take(point), g, lo, Some(keys[point])),
        family_ok(pages, cs.skip(point + 1), keys.skip(point + 1), g, Some(keys[point]), hi),
        key_len_ok(keys[point]),
        strictly_between(keys[point], lo, hi),
        forall|x: u32| #[trigger]
            family_owns(pages, cs, g, x) == (family_owns(pages, cs.take(point + 1), g, x) || family_owns(
                pages,
                cs.skip(point + 1),
                g,
                x,
            )),
        forall|x: u32|
            !(#[trigger] family_owns(pages, cs.take(point + 1), g, x) && family_owns(
                pages,
                cs.skip(point + 1),
                g,
                x,
            )),
        forall|key: Seq<u8>| #[trigger]
            family_lookup(pages, cs, keys, g, key) == (if bytes_lt(key, keys[point]) {
                family_lookup(pages, cs.take(point + 1), keys.take(point), g, key)
            } else {
                family_lookup(pages, cs.skip(point + 1), keys.skip(point + 1), g, key)
            }),
{
    broadcast use group_order;

    reveal(family_ok);
    let (cl, kl) = (cs.take(point + 1), keys.take(point));
    let (cr, kr) = (cs.skip(point + 1), keys.skip(point + 1));
    let mid = Some(keys[point]);
    assert forall|i: int| 0 <= i < kl.len() implies key_len_ok(#[trigger] kl[i]) && strictly_between(kl[i], lo, mid) by {
        assert(kl[i] == keys[i]);
        assert(bytes_lt(keys[i], keys[point]));
    }
    assert forall|i: int| 0 <= i < kr.len() implies key_len_ok(#[trigger] kr[i]) && strictly_between(kr[i], mid, hi) by {
        assert(kr[i] == keys[point + 1 + i]);
        assert(bytes_lt(keys[point], keys[point + 1 + i]));
    }
    assert(sorted(kl)) by {
        assert forall|i: int, j: int| 0 <= i < j < kl.len() implies bytes_lt(#[trigger] kl[i], #[trigger] kl[j]) by {
            assert(kl[i] == keys[i] && kl[j] == keys[j]);
        }
    }
    assert(sorted(kr)) by {
        assert forall|i: int, j: int| 0 <= i < j < kr.len() implies bytes_lt(#[trigger] kr[i], #[trigger] kr[j]) by {
            assert(kr[i] == keys[point + 1 + i] && kr[j] == keys[point + 1 + j]);
        }
    }
    assert forall|i: int| 0 <= i < cl.len() implies {
        &&& tree_ok(pages, #[trigger] cl[i], g, member_lo(kl, i, lo), member_hi(kl, i, mid))
        &&& nonempty(pages, cl[i])
    } by {
        assert(cl[i] == cs[i]);
        assert(member_lo(kl, i, lo) == member_lo(keys, i, lo));
        assert(member_hi(kl, i, mid) == member_hi(keys, i, hi));
    }
    assert forall|i: int| 0 <= i < cr.len() implies {
        &&& tree_ok(pages, #[trigger] cr[i], g, member_lo(kr, i, mid), member_hi(kr, i, hi))
        &&& nonempty(pages, cr[i])
    } by {
        assert(cr[i] == cs[point + 1 + i]);
        assert(member_lo(kr, i, mid) == member_lo(keys, point + 1 + i, lo));
        assert(member_hi(kr, i, hi) == member_hi(keys, point + 1 + i, hi));
    }
    assert forall|i: int, j: int| 0 <= i < j < cl.len() implies apart(pages, #[trigger] cl[i], #[trigger] cl[j], g) by {
        assert(cl[i] == cs[i] && cl[j] == cs[j]);
    }
    assert forall|i: int, j: int| 0 <= i < j < cr.len() implies apart(pages, #[trigger] cr[i], #[trigger] cr[j], g) by {
        assert(cr[i] == cs[point + 1 + i] && cr[j] == cs[point + 1 + j]);
    }
    assert forall|x: u32| #[trigger] family_owns(pages, cs, g, x) == (family_owns(pages, cl, g, x) || family_owns(
        pages,
        cr,
        g,
        x,
    )) by {
        if family_owns(pages, cs, g, x) {
            let i = choose|i: int| 0 <= i < cs.len() && owns(pages, #[trigger] cs[i], g, x);
            if i <= point {
                assert(cl[i] == cs[i]);
            } else {
                assert(cr[i - point - 1] == cs[i]);
            }
        }
        if family_owns(pages, cl, g, x) {
            let i = choose|i: int| 0 <= i < cl.len() && owns(pages, #[trigger] cl[i], g, x);
            assert(cl[i] == cs[i]);
        }
        if family_owns(pages, cr, g, x) {
            let i = choose|i: int| 0 <= i < cr.len() && owns(pages, #[trigger] cr[i], g, x);
            assert(cr[i] == cs[point + 1 + i]);
        }
    }
    assert forall|x: u32|
        !(#[trigger] family_owns(pages, cl, g, x) && family_owns(pages, cr, g, x)) by {
        if family_owns(pages, cl, g, x) && family_owns(pages, cr, g, x) {
            let i = choose|i: int| 0 <= i < cl.len() && owns(pages, #[trigger] cl[i], g, x);
            let j = choose|j: int| 0 <= j < cr.len() && owns(pages, #[trigger] cr[j], g, x);
            assert(apart(pages, cs[i], cs[point + 1 + j], g));
            assert(owns(pages, cs[i], g, x) && owns(pages, cs[point + 1 + j], g, x));
        }
    }
    assert forall|key: Seq<u8>| #[trigger] family_lookup(pages, cs, keys, g, key) == (if bytes_lt(
        key,
        keys[point],
    ) {
        family_lookup(pages, cl, kl, g, key)
    } else {
        family_lookup(pages, cr, kr, g, key)
    }) by {
        lemma_route(keys, key);
        let r = route(keys, key);
        if bytes_lt(key, keys[point]) {
            if r > point {
                assert(bytes_le(keys[point], key));
            }
            assert forall|i: int| 0 <= i < r implies bytes_le(#[trigger] kl[i], key) by {
                assert(kl[i] == keys[i]);
            }
            assert(routes(kl, key, r));
            lemma_route_unique(kl, key, r);
        } else {
            if r <= point && r < point {
                assert(bytes_lt(keys[r], keys[point]));
            }
            assert(r > point);
            let q = r - point - 1;
            assert forall|i: int| 0 <= i < q implies bytes_le(#[trigger] kr[i], key) by {
                assert(kr[i] == keys[point + 1 + i]);
            }
            if q < kr.len() {
                assert(kr[q] == keys[r]);
            }
            assert(routes(kr, key, q));
            lemma_route_unique(kr, key, q);
            assert(cr[q] == cs[r]);
        }
    }
}

/// The separator that goes with the member at `slot`.
pub open spec fn divider_beside(slot: int) -> int {
    if slot == 0 {
        0
    } else {
        slot - 1
    }
}

/// A member that holds nothing is dropped with one separator beside it.
pub proof fn lemma_family_drop(
    pages: Seq<PageView>,
    cs: Seq<u32>,
    keys: Seq<Seq<u8>>,
    g: nat,
    lo: Option<Seq<u8>>,
    hi: Option<Seq<u8>>,
    slot: int,
)
    requires
        family_ok(pages, cs, keys, g, lo, hi),
        0 <= slot < cs.len(),
        keys.len() > 0,
    ensures
        ({
            let gone = divider_beside(slot);
            &&& family_ok(pages, cs.remove(slot), keys.remove(gone), g, lo, hi)
            &&& forall|x: u32| #[trigger]
                family_owns(pages, cs.remove(slot), g, x) == others_own(pages, cs, g, slot, x)
            &&& forall|key: Seq<u8>| #[trigger]
                family_lookup(pages, cs.remove(slot), keys.remove(gone), g, key) == (if route(keys, key)
                    == slot {
                    None
                } else {
                    family_lookup(pages, cs, keys, g, key)
                })
        }),
{
    broadcast use group_order;

    reveal(family_ok);
    let gone = divider_beside(slot);
    let ds = cs.remove(slot);
    let ks = keys.remove(gone);
    assert forall|i: int| 0 <= i < ks.len() implies key_len_ok(#[trigger] ks[i]) && strictly_between(ks[i], lo, hi) by {
        assert(ks[i] == keys[if i < gone { i } else { i + 1 }]);
    }
    assert(sorted(ks)) by {
        assert forall|i: int, j: int| 0 <= i < j < ks.len() implies bytes_lt(#[trigger] ks[i], #[trigger] ks[j]) by {
            assert(ks[i] == keys[if i < gone { i } else { i + 1 }]);
            assert(ks[j] == keys[if j < gone { j } else { j + 1 }]);
        }
    }
    assert forall|i: int| 0 <= i < ds.len() implies {
        &&& tree_ok(pages, #[trigger] ds[i], g, member_lo(ks, i, lo), member_hi(ks, i, hi))
        &&& nonempty(pages, ds[i])
    } by {
        let i0 = if i < slot { i } else { i + 1 };
        assert(ds[i] == cs[i0]);
        let (lo0, hi0) = (member_lo(keys, i0, lo), member_hi(keys, i0, hi));
        let (lo1, hi1) = (member_lo(ks, i, lo), member_hi(ks, i, hi));
        if slot == 0 && i == 0 {
            assert(lo0 == Some(keys[0]));
            assert(strictly_between(keys[0], lo, hi));
        } else if i + 1 == slot {
            if slot < keys.len() {
                assert(bytes_lt(keys[slot - 1], keys[slot]));
            } else {
                assert(strictly_between(keys[slot - 1], lo, hi));
            }
        }
        lemma_widen(pages, ds[i], g, lo0, hi0, lo1, hi1);
    }
    assert forall|i: int, j: int| 0 <= i < j < ds.len() implies apart(pages, #[trigger] ds[i], #[trigger] ds[j], g) by {
        assert(ds[i] == cs[if i < slot { i } else { i + 1 }]);
        assert(ds[j] == cs[if j < slot { j } else { j + 1 }]);
    }
    assert forall|x: u32| #[trigger] family_owns(pages, ds, g, x) == others_own(pages, cs, g, slot, x) by {
        if family_owns(pages, ds, g, x) {
            let i = choose|i: int| 0 <= i < ds.len() && owns(pages, #[trigger] ds[i], g, x);
            assert(ds[i] == cs[if i < slot { i } else { i + 1 }]);
        }
        if others_own(pages, cs, g, slot, x) {
            let i = choose|i: int| 0 <= i < cs.len() && i != slot && owns(pages, #[trigger] cs[i], g, x);
            assert(ds[if i < slot { i } else { i - 1 }] == cs[i]);
        }
    }
    assert forall|key: Seq<u8>| #[trigger] family_lookup(pages, ds, ks, g, key) == (if route(keys, key) == slot {
        None
    } else {
        family_lookup(pages, cs, keys, g, key)
    }) by {
        lemma_route(keys, key);
        lemma_route(ks, key);
        let r = route(keys, key);
        let r1 = if r < slot { r } else if r > slot { r - 1 } else { gone };
        assert forall|i: int| 0 <= i < r1 implies bytes_le(#[trigger] ks[i], key) by {
            assert(ks[i] == keys[if i < gone { i } else { i + 1 }]);
        }
        if r1 < ks.len() {
            assert(ks[r1] == keys[if r1 < gone { r1 } else { r1 + 1 }]);
            if r < slot {
                assert(bytes_lt(key, keys[r]));
                if r1 >= gone {
                    assert(bytes_lt(keys[r], keys[r + 1]));
                }
            } else if r == slot {
                assert(bytes_lt(key, keys[slot]));
                if slot == 0 {
                    assert(bytes_lt(keys[0], keys[1]));
                }
            }
        }
        assert(routes(ks, key, r1));
        lemma_route_unique(ks, key, r1);
        let d = if r1 < slot { r1 } else { r1 + 1 };
        assert(ds[r1] == cs[d]);
        if r == slot {
            // The key lies outside the bounds of the neighbour it now goes to.
            if lookup(pages, cs[d], g, key) is Some {
                lemma_lookup_bounds(pages, cs[d], g, member_lo(keys, d, lo), member_hi(keys, d, hi), key);
                if slot == 0 {
                    assert(in_bounds(key, Some(keys[0]), member_hi(keys, 1, hi)));
                } else {
                    assert(d == slot - 1);
                    assert(in_bounds(key, member_lo(keys, d, lo), Some(keys[slot - 1])));
                    assert(bytes_le(keys[slot - 1], key));
                }
            }
        }
    }
}

} // verus!
