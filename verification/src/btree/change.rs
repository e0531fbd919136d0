//! What a change to one entry does to a tree and to the pages around it.

use vstd::prelude::*;

use crate::btree::cell::branch_key_of;
use crate::btree::family::{
    children, dividers_ok, family_lookup, family_ok, family_owns, lemma_branch_family, lemma_family_branch,
    lemma_family_divide, lemma_family_frame, lemma_family_replace, member_hi, member_lo, others_own,
};
use crate::btree::model::{
    apart, branch_keys, branch_ok, key_len_ok, lemma_frame, lemma_owns_range, lemma_route, lookup, nonempty, owns,
    route, strictly_between, tree_ok, FIRST_DATA_PAGE,
};
use crate::btree::node::cells_exact;
use crate::btree::space::{cowed, evolves, wrote, Space};
use crate::bytes::{bytes_lt, group_order};
use crate::page::{cells_size, PageKind, PageView, PAGE_BODY_LEN};

verus! {

/// What an insert did to the subtree it was applied to.
pub enum Insert {
    /// The subtree still has one root, now at this page.
    Kept(u32),
    /// The subtree split: left half, first key of the right half, right half.
    Split(u32, Vec<u8>, u32),
}

/// The page `x` belongs to what an insert left.
pub open spec fn left_owns(pages: Seq<PageView>, r: Insert, h: nat, x: u32) -> bool {
    match r {
        Insert::Kept(id) => owns(pages, id, h, x),
        Insert::Split(left, _, right) => owns(pages, left, h, x) || owns(pages, right, h, x),
    }
}

/// What an insert left holds under `key`.
pub open spec fn left_lookup(pages: Seq<PageView>, r: Insert, h: nat, key: Seq<u8>) -> Option<Seq<u8>> {
    match r {
        Insert::Kept(id) => lookup(pages, id, h, key),
        Insert::Split(left, sep, right) => if bytes_lt(key, sep@) {
            lookup(pages, left, h, key)
        } else {
            lookup(pages, right, h, key)
        },
    }
}

/// What an insert left is one tree, or two divided by a key.
pub open spec fn left_ok(
    pages: Seq<PageView>,
    r: Insert,
    h: nat,
    lo: Option<Seq<u8>>,
    hi: Option<Seq<u8>>,
) -> bool {
    match r {
        Insert::Kept(id) => tree_ok(pages, id, h, lo, hi) && nonempty(pages, id),
        Insert::Split(left, sep, right) => {
            &&& key_len_ok(sep@)
            &&& strictly_between(sep@, lo, hi)
            &&& tree_ok(pages, left, h, lo, Some(sep@))
            &&& tree_ok(pages, right, h, Some(sep@), hi)
            &&& nonempty(pages, left)
            &&& nonempty(pages, right)
            &&& apart(pages, left, right, h)
        },
    }
}

/// Only pages of the tree at `id` that were written before in this
/// generation, and pages that were free to take, differ.
pub open spec fn confined(a: Space, b: Space, id: u32, h: nat) -> bool {
    forall|x: u32|
        x < a.pages().len() && !#[trigger] a.usable(x) && !(a.is_dirty(x) && owns(a.pages(), id, h, x))
            ==> b.pages()[x as int] == a.pages()[x as int]
}

/// Pages listed since `a` were pages of the tree at `id`, or were taken
/// meanwhile.
pub open spec fn listed_since(a: Space, b: Space, id: u32, h: nat) -> bool {
    &&& forall|x: u32| #[trigger] b.listed(x) ==> a.listed(x) || owns(a.pages(), id, h, x) || a.usable(x)
    &&& forall|i: int|
        0 <= i < b.free@.len() ==> a.free@.contains(#[trigger] b.free@[i]) || b.free@[i].generation
            == a.generation + 1
}

/// The tree at `id` uses neither free pages nor pages that may be taken.
pub open spec fn settled(s: Space, id: u32, h: nat) -> bool {
    forall|x: u32| #[trigger] owns(s.pages(), id, h, x) ==> !s.usable(x) && !s.listed(x)
}

/// What an insert left uses neither free pages nor pages that may be taken,
/// and only pages of the tree at `id` or pages taken meanwhile.
pub open spec fn left_settled(a: Space, b: Space, id: u32, h: nat, r: Insert) -> bool {
    forall|x: u32| #[trigger]
        left_owns(b.pages(), r, h, x) ==> !b.usable(x) && !b.listed(x) && (owns(a.pages(), id, h, x)
            || a.usable(x))
}

/// The entry under `key` is now `value`, every other entry is what it was,
/// and nothing outside the tree has been disturbed.
pub open spec fn changed(
    a: Space,
    b: Space,
    id: u32,
    h: nat,
    lo: Option<Seq<u8>>,
    hi: Option<Seq<u8>>,
    key: Seq<u8>,
    value: Option<Seq<u8>>,
    r: Insert,
) -> bool {
    &&& b.ok()
    &&& evolves(a, b)
    &&& b.pages().len() <= a.pages().len() + 2 * (h + 1)
    &&& confined(a, b, id, h)
    &&& listed_since(a, b, id, h)
    &&& left_ok(b.pages(), r, h, lo, hi)
    &&& left_settled(a, b, id, h, r)
    &&& forall|k: Seq<u8>| #[trigger]
        left_lookup(b.pages(), r, h, k) == (if k == key {
            value
        } else {
            lookup(a.pages(), id, h, k)
        })
}

/// The cells of a branch in order are as long as their separators ask for.
pub proof fn lemma_branch_cells_exact(page: PageView, lo: Option<Seq<u8>>, hi: Option<Seq<u8>>)
    requires
        branch_ok(page, lo, hi),
    ensures
        cells_exact(page),
{
    assert forall|i: int| 0 <= i < page.cells.len() implies {
        &&& (#[trigger] page.cells[i]).len() == 6 + branch_key_of(page.cells[i]).len()
        &&& branch_key_of(page.cells[i]).len() < 0x1_0000
    } by {
        assert(key_len_ok(branch_keys(page)[i]));
    }
}

/// The separators and children that a branch has after the insert into one
/// of its children.
pub open spec fn next_keys(keys: Seq<Seq<u8>>, slot: int, sub: Insert) -> Seq<Seq<u8>> {
    match sub {
        Insert::Kept(_) => keys,
        Insert::Split(_, sep, _) => keys.insert(slot, sep@),
    }
}

pub open spec fn next_children(cs: Seq<u32>, slot: int, sub: Insert) -> Seq<u32> {
    match sub {
        Insert::Kept(c) => cs.update(slot, c),
        Insert::Split(left, _, right) => cs.update(slot, left).insert(slot + 1, right),
    }
}

/// After a change to one child, the children are a family again.
pub open spec fn child_done(
    a: Space,
    b: Space,
    page_id: u32,
    h: nat,
    lo: Option<Seq<u8>>,
    hi: Option<Seq<u8>>,
    ds: Seq<u32>,
    ks: Seq<Seq<u8>>,
    key: Seq<u8>,
    value: Option<Seq<u8>>,
) -> bool {
    let g = (h - 1) as nat;
    &&& h > 0
    &&& around_child(a, b, page_id, h)
    &&& family_ok(b.pages(), ds, ks, g, lo, hi)
    &&& forall|x: u32| #[trigger]
        family_owns(b.pages(), ds, g, x) ==> x != page_id && !b.usable(x) && !b.listed(x) && (owns(
            a.pages(),
            page_id,
            h,
            x,
        ) || a.usable(x))
    &&& forall|k: Seq<u8>| #[trigger]
        family_lookup(b.pages(), ds, ks, g, k) == (if k == key {
            value
        } else {
            lookup(a.pages(), page_id, h, k)
        })
}

/// What a change to a child leaves true of the branch page above it.
pub open spec fn around_child(a: Space, b: Space, page_id: u32, h: nat) -> bool {
    &&& b.ok()
    &&& evolves(a, b)
    &&& b.pages().len() <= a.pages().len() + 2 * h
    &&& confined(a, b, page_id, h)
    &&& listed_since(a, b, page_id, h)
    &&& !b.listed(page_id)
    &&& !b.usable(page_id)
    &&& b.pages()[page_id as int] == a.pages()[page_id as int]
}

/// A change to one child leaves the branch page and the other children
/// alone.
pub proof fn lemma_others(
    a: Space,
    b: Space,
    page_id: u32,
    h: nat,
    lo: Option<Seq<u8>>,
    hi: Option<Seq<u8>>,
    slot: int,
)
    requires
        h > 0,
        a.ok(),
        b.ok(),
        tree_ok(a.pages(), page_id, h, lo, hi),
        settled(a, page_id, h),
        0 <= slot <= a.pages()[page_id as int].cells.len(),
        evolves(a, b),
        b.pages().len() <= a.pages().len() + 2 * h,
        confined(a, b, children(a.pages()[page_id as int])[slot], (h - 1) as nat),
        listed_since(a, b, children(a.pages()[page_id as int])[slot], (h - 1) as nat),
    ensures
        around_child(a, b, page_id, h),
        ({
            let cs = children(a.pages()[page_id as int]);
            let g = (h - 1) as nat;
            &&& forall|x: u32| #[trigger]
                owns(a.pages(), cs[slot], g, x) ==> owns(a.pages(), page_id, h, x) && x != page_id
            &&& forall|x: u32| #[trigger]
                others_own(a.pages(), cs, g, slot, x) ==> {
                    &&& owns(a.pages(), page_id, h, x)
                    &&& x != page_id
                    &&& !owns(a.pages(), cs[slot], g, x)
                    &&& !a.usable(x)
                    &&& x < b.pages().len()
                    &&& a.pages()[x as int] == b.pages()[x as int]
                    &&& !b.usable(x)
                    &&& !b.listed(x)
                }
        }),
{
    lemma_branch_family(a.pages(), page_id, h, lo, hi);
    reveal(family_ok);
    let g = (h - 1) as nat;
    let cs = children(a.pages()[page_id as int]);
    let c0 = cs[slot];
    assert(owns(a.pages(), page_id, h, page_id));
    assert forall|x: u32| #[trigger] owns(a.pages(), c0, g, x) implies owns(a.pages(), page_id, h, x) && x != page_id by {
        assert(family_owns(a.pages(), cs, g, x));
    }
    assert forall|x: u32| #[trigger] others_own(a.pages(), cs, g, slot, x) implies {
        &&& owns(a.pages(), page_id, h, x)
        &&& x != page_id
        &&& !owns(a.pages(), c0, g, x)
        &&& !a.usable(x)
        &&& x < b.pages().len()
        &&& a.pages()[x as int] == b.pages()[x as int]
        &&& !b.usable(x)
        &&& !b.listed(x)
    } by {
        let i = choose|i: int| 0 <= i < cs.len() && i != slot && owns(a.pages(), #[trigger] cs[i], g, x);
        assert(family_owns(a.pages(), cs, g, x));
        assert(owns(a.pages(), page_id, h, x));
        if i < slot {
            assert(apart(a.pages(), cs[i], cs[slot], g));
        } else {
            assert(apart(a.pages(), cs[slot], cs[i], g));
            assert(!(owns(a.pages(), cs[slot], g, x) && owns(a.pages(), cs[i], g, x)));
        }
        lemma_owns_range(a.pages(), page_id, h, lo, hi, x);
        assert(!a.usable(x));
        if b.usable(x) {
            assert(a.usable(x));
        }
    }
    assert(confined(a, b, page_id, h)) by {
        assert forall|x: u32|
            x < a.pages().len() && !#[trigger] a.usable(x) && !(a.is_dirty(x) && owns(a.pages(), page_id, h, x))
            implies b.pages()[x as int] == a.pages()[x as int] by {
            if owns(a.pages(), c0, g, x) {
                assert(owns(a.pages(), page_id, h, x));
            }
        }
    }
    assert(!a.usable(page_id) && !a.listed(page_id));
    assert(!owns(a.pages(), c0, g, page_id));
    assert(!b.usable(page_id)) by {
        if b.usable(page_id) {
            assert(a.usable(page_id));
        }
    }
}

/// After a change to one child that stays, the children are a family.
pub proof fn lemma_after_child(
    a: Space,
    b: Space,
    page_id: u32,
    h: nat,
    lo: Option<Seq<u8>>,
    hi: Option<Seq<u8>>,
    slot: int,
    clo: Option<Seq<u8>>,
    chi: Option<Seq<u8>>,
    key: Seq<u8>,
    value: Option<Seq<u8>>,
    sub: Insert,
)
    requires
        h > 0,
        a.ok(),
        tree_ok(a.pages(), page_id, h, lo, hi),
        settled(a, page_id, h),
        0 <= slot <= a.pages()[page_id as int].cells.len(),
        slot == route(branch_keys(a.pages()[page_id as int]), key),
        clo == member_lo(branch_keys(a.pages()[page_id as int]), slot, lo),
        chi == member_hi(branch_keys(a.pages()[page_id as int]), slot, hi),
        changed(
            a,
            b,
            children(a.pages()[page_id as int])[slot],
            (h - 1) as nat,
            clo,
            chi,
            key,
            value,
            sub,
        ),
    ensures
        child_done(
            a,
            b,
            page_id,
            h,
            lo,
            hi,
            next_children(children(a.pages()[page_id as int]), slot, sub),
            next_keys(branch_keys(a.pages()[page_id as int]), slot, sub),
            key,
            value,
        ),
{
    broadcast use group_order;

    lemma_branch_family(a.pages(), page_id, h, lo, hi);
    lemma_others(a, b, page_id, h, lo, hi, slot);
    reveal(family_ok);
    let base = a.pages()[page_id as int];
    let g = (h - 1) as nat;
    let cs = children(base);
    let keys = branch_keys(base);
    let c0 = cs[slot];
    let ks = next_keys(keys, slot, sub);
    let ds = next_children(cs, slot, sub);
    assert forall|x: u32| #[trigger] left_owns(b.pages(), sub, g, x) implies !others_own(a.pages(), cs, g, slot, x)
        && x != page_id && (owns(a.pages(), page_id, h, x) || a.usable(x)) by {
        assert(!a.usable(page_id)) by {
            assert(owns(a.pages(), page_id, h, page_id));
        }
    }
    match sub {
        Insert::Kept(c) => {
            assert forall|x: u32| #[trigger] others_own(a.pages(), cs, g, slot, x) implies x < b.pages().len()
                && a.pages()[x as int] == b.pages()[x as int] && !owns(b.pages(), c, g, x) by {
                assert(!left_owns(b.pages(), sub, g, x));
            }
            lemma_family_replace(a.pages(), b.pages(), cs, keys, g, lo, hi, slot, c);
            assert forall|x: u32| #[trigger] family_owns(b.pages(), ds, g, x) implies x != page_id && !b.usable(x)
                && !b.listed(x) && (owns(a.pages(), page_id, h, x) || a.usable(x)) by {
                if owns(b.pages(), c, g, x) {
                    assert(left_owns(b.pages(), sub, g, x));
                } else {
                    assert(others_own(a.pages(), cs, g, slot, x));
                }
            }
            assert forall|k: Seq<u8>| #[trigger] family_lookup(b.pages(), ds, ks, g, k) == (if k == key {
                value
            } else {
                lookup(a.pages(), page_id, h, k)
            }) by {
                if route(keys, k) == slot {
                    assert(left_lookup(b.pages(), sub, g, k) == lookup(b.pages(), c, g, k));
                }
            }
        },
        Insert::Split(left, sepv, right) => {
            let sep = sepv@;
            let mid = cs.update(slot, left);
            // The other members, where they were.
            assert forall|i: int| 0 <= i < cs.len() && i != slot implies {
                &&& tree_ok(b.pages(), #[trigger] cs[i], g, member_lo(keys, i, lo), member_hi(keys, i, hi))
                &&& nonempty(b.pages(), cs[i])
                &&& forall|x: u32| #[trigger] owns(b.pages(), cs[i], g, x) == owns(a.pages(), cs[i], g, x)
                &&& forall|k: Seq<u8>| #[trigger] lookup(b.pages(), cs[i], g, k) == lookup(a.pages(), cs[i], g, k)
            } by {
                assert forall|x: u32| #[trigger] owns(a.pages(), cs[i], g, x) implies x < b.pages().len()
                    && a.pages()[x as int] == b.pages()[x as int] by {
                    assert(others_own(a.pages(), cs, g, slot, x));
                }
                assert(owns(a.pages(), cs[i], g, cs[i]));
                lemma_frame(a.pages(), b.pages(), cs[i], g, member_lo(keys, i, lo), member_hi(keys, i, hi));
            }
            assert forall|i: int| 0 <= i < mid.len() && i != slot implies {
                &&& tree_ok(b.pages(), #[trigger] mid[i], g, member_lo(keys, i, lo), member_hi(keys, i, hi))
                &&& nonempty(b.pages(), mid[i])
            } by {
                assert(mid[i] == cs[i]);
            }
            assert forall|i: int, j: int| 0 <= i < j < mid.len() implies apart(b.pages(), #[trigger] mid[i], #[trigger] mid[j], g) by {
                assert forall|x: u32| !(#[trigger] owns(b.pages(), mid[i], g, x) && owns(b.pages(), mid[j], g, x)) by {
                    if owns(b.pages(), mid[i], g, x) && owns(b.pages(), mid[j], g, x) {
                        if i == slot {
                            assert(owns(a.pages(), cs[j], g, x));
                            assert(others_own(a.pages(), cs, g, slot, x));
                            assert(left_owns(b.pages(), sub, g, x));
                        } else if j == slot {
                            assert(owns(a.pages(), cs[i], g, x));
                            assert(others_own(a.pages(), cs, g, slot, x));
                            assert(left_owns(b.pages(), sub, g, x));
                        } else {
                            assert(apart(a.pages(), cs[i], cs[j], g));
                            assert(owns(a.pages(), cs[i], g, x) && owns(a.pages(), cs[j], g, x));
                        }
                    }
                }
            }
            assert forall|i: int| 0 <= i < mid.len() implies apart(b.pages(), #[trigger] mid[i], right, g) by {
                if i != slot {
                    assert forall|x: u32| !(#[trigger] owns(b.pages(), mid[i], g, x) && owns(b.pages(), right, g, x)) by {
                        if owns(b.pages(), mid[i], g, x) && owns(b.pages(), right, g, x) {
                            assert(owns(a.pages(), cs[i], g, x));
                            assert(others_own(a.pages(), cs, g, slot, x));
                            assert(left_owns(b.pages(), sub, g, x));
                        }
                    }
                }
            }
            lemma_family_divide(b.pages(), mid, keys, g, lo, hi, slot, left, sep, right);
            assert forall|x: u32| #[trigger] family_owns(b.pages(), ds, g, x) implies x != page_id && !b.usable(x)
                && !b.listed(x) && (owns(a.pages(), page_id, h, x) || a.usable(x)) by {
                if owns(b.pages(), right, g, x) {
                    assert(left_owns(b.pages(), sub, g, x));
                } else {
                    let i = choose|i: int| 0 <= i < mid.len() && owns(b.pages(), #[trigger] mid[i], g, x);
                    if i == slot {
                        assert(left_owns(b.pages(), sub, g, x));
                    } else {
                        assert(mid[i] == cs[i]);
                        assert(owns(a.pages(), cs[i], g, x));
                        assert(others_own(a.pages(), cs, g, slot, x));
                    }
                }
            }
            assert forall|k: Seq<u8>| #[trigger] family_lookup(b.pages(), ds, ks, g, k) == (if k == key {
                value
            } else {
                lookup(a.pages(), page_id, h, k)
            }) by {
                lemma_route(keys, k);
                let r = route(keys, k);
                if r == slot {
                    assert(left_lookup(b.pages(), sub, g, k) == (if bytes_lt(k, sep) {
                        lookup(b.pages(), left, g, k)
                    } else {
                        lookup(b.pages(), right, g, k)
                    }));
                } else {
                    assert(mid[r] == cs[r]);
                    assert(lookup(b.pages(), cs[r], g, k) == lookup(a.pages(), cs[r], g, k));
                }
            }
        },
    }
}

/// A branch page over dividers in order, of exact cells, is in order.
pub proof fn lemma_branch_ok(page: PageView, lo: Option<Seq<u8>>, hi: Option<Seq<u8>>)
    requires
        page.kind == PageKind::Branch,
        cells_size(page.cells) <= PAGE_BODY_LEN,
        cells_exact(page),
        dividers_ok(branch_keys(page), lo, hi),
    ensures
        branch_ok(page, lo, hi),
{
    assert forall|i: int| 0 <= i < page.cells.len() implies {
        &&& key_len_ok(#[trigger] branch_keys(page)[i])
        &&& strictly_between(branch_keys(page)[i], lo, hi)
        &&& page.cells[i].len() == 6 + branch_keys(page)[i].len()
    } by {
        assert(page.cells[i].len() == 6 + branch_key_of(page.cells[i]).len());
    }
}

/// The branch page needs no rewriting: its child is where it was.
pub proof fn lemma_unplaced(
    a: Space,
    b: Space,
    page_id: u32,
    h: nat,
    lo: Option<Seq<u8>>,
    hi: Option<Seq<u8>>,
    key: Seq<u8>,
    value: Option<Seq<u8>>,
)
    requires
        tree_ok(a.pages(), page_id, h, lo, hi),
        child_done(
            a,
            b,
            page_id,
            h,
            lo,
            hi,
            children(a.pages()[page_id as int]),
            branch_keys(a.pages()[page_id as int]),
            key,
            value,
        ),
    ensures
        changed(a, b, page_id, h, lo, hi, key, value, Insert::Kept(page_id)),
{
    lemma_branch_family(a.pages(), page_id, h, lo, hi);
    let g = (h - 1) as nat;
    let ds = children(a.pages()[page_id as int]);
    let ks = branch_keys(a.pages()[page_id as int]);
    assert(!family_owns(b.pages(), ds, g, page_id));
    lemma_family_branch(b.pages(), page_id, h, lo, hi);
    lemma_branch_family(b.pages(), page_id, h, lo, hi);
    let r = Insert::Kept(page_id);
    assert forall|x: u32| #[trigger] left_owns(b.pages(), r, h, x) implies !b.usable(x) && !b.listed(x) && (owns(
        a.pages(),
        page_id,
        h,
        x,
    ) || a.usable(x)) by {
        if x == page_id {
            assert(owns(a.pages(), page_id, h, page_id));
        } else {
            assert(family_owns(b.pages(), ds, g, x));
        }
    }
    assert forall|k: Seq<u8>| #[trigger] left_lookup(b.pages(), r, h, k) == (if k == key {
        value
    } else {
        lookup(a.pages(), page_id, h, k)
    }) by {
        assert(lookup(b.pages(), page_id, h, k) == family_lookup(b.pages(), ds, ks, g, k));
    }
}

/// `c` follows from `b` by writing `pv` in place of page `page_id`, at `id`,
/// and perhaps listing the page `gone`.
pub open spec fn rewritten(b: Space, c: Space, page_id: u32, id: u32, pv: PageView, gone: Option<u32>) -> bool {
    &&& c.ok()
    &&& evolves(b, c)
    &&& FIRST_DATA_PAGE <= id < c.pages().len() <= b.pages().len() + 1
    &&& c.pages()[id as int] == pv
    &&& forall|i: int| 0 <= i < b.pages().len() && i != id ==> #[trigger] c.pages()[i] == b.pages()[i]
    &&& c.is_dirty(id)
    &&& !c.usable(id)
    &&& !c.listed(id)
    &&& b.is_dirty(page_id) ==> id == page_id
    &&& !b.is_dirty(page_id) ==> b.usable(id) && id != page_id
    &&& forall|x: u32| #[trigger]
        c.listed(x) ==> b.listed(x) || (x == page_id && id != page_id) || gone == Some(x)
    &&& forall|i: int|
        0 <= i < c.free@.len() ==> b.free@.contains(#[trigger] c.free@[i]) || c.free@[i].generation
            == b.generation + 1
}

pub proof fn lemma_rewritten(b: Space, mid: Space, c: Space, page_id: u32, id: u32, pv: PageView)
    requires
        cowed(b, mid, page_id, id),
        wrote(mid, c, id, pv),
    ensures
        rewritten(b, c, page_id, id, pv, None),
{
    assert forall|x: u32| #[trigger] c.usable(x) implies b.usable(x) by {
        assert(mid.usable(x));
    }
    assert forall|x: u32| #[trigger] b.is_dirty(x) implies c.is_dirty(x) by {
        assert(mid.is_dirty(x));
    }
    assert forall|x: u32| #[trigger] c.is_dirty(x) implies b.is_dirty(x) || (b.usable(x) && !c.usable(x)) by {
        assert(mid.is_dirty(x));
    }
    assert forall|i: int| 0 <= i < b.pages().len() && i != id implies #[trigger] c.pages()[i] == b.pages()[i] by {
        assert(mid.pages()[i] == b.pages()[i]);
    }
    assert forall|x: u32| #[trigger] c.listed(x) implies b.listed(x) || (x == page_id && id != page_id) by {
        assert(mid.listed(x));
    }
    assert forall|i: int| 0 <= i < c.free@.len() implies b.free@.contains(#[trigger] c.free@[i]) || c.free@[i].generation
        == b.generation + 1 by {
        assert(mid.free@[i] == c.free@[i]);
    }
}

/// A branch page rewritten after a change to a child.
pub proof fn lemma_step(
    a: Space,
    b: Space,
    c: Space,
    page_id: u32,
    h: nat,
    id: u32,
    pv: PageView,
    gone: Option<u32>,
)
    requires
        a.ok(),
        FIRST_DATA_PAGE <= page_id < a.pages().len(),
        settled(a, page_id, h),
        around_child(a, b, page_id, h),
        rewritten(b, c, page_id, id, pv, gone),
        gone matches Some(x) ==> owns(a.pages(), page_id, h, x) || a.usable(x),
    ensures
        c.ok(),
        evolves(a, c),
        c.pages().len() <= a.pages().len() + 2 * h + 1,
        confined(a, c, page_id, h),
        listed_since(a, c, page_id, h),
        a.usable(id) || id == page_id,
{
    assert(owns(a.pages(), page_id, h, page_id));
    assert forall|x: u32| #[trigger] c.usable(x) implies a.usable(x) by {
        assert(b.usable(x));
    }
    assert forall|x: u32| #[trigger] a.is_dirty(x) implies c.is_dirty(x) by {
        assert(b.is_dirty(x));
    }
    assert forall|x: u32| #[trigger] c.is_dirty(x) implies a.is_dirty(x) || (a.usable(x) && !c.usable(x)) by {
        if b.is_dirty(x) {
            if !a.is_dirty(x) {
                assert(a.usable(x) && !b.usable(x));
                if c.usable(x) {
                    assert(b.usable(x));
                }
            }
        } else {
            assert(b.usable(x) && !c.usable(x));
        }
    }
    if !b.is_dirty(page_id) {
        assert(b.usable(id));
        assert(a.usable(id));
    }
    assert forall|x: u32|
        x < a.pages().len() && !#[trigger] a.usable(x) && !(a.is_dirty(x) && owns(a.pages(), page_id, h, x))
        implies c.pages()[x as int] == a.pages()[x as int] by {
        assert(x != id) by {
            if x == id {
                assert(x == page_id);
                assert(b.is_dirty(page_id));
            }
        }
        assert(b.pages()[x as int] == a.pages()[x as int]);
        assert(c.pages()[x as int] == b.pages()[x as int]);
    }
    assert forall|x: u32| #[trigger] c.listed(x) implies a.listed(x) || owns(a.pages(), page_id, h, x) || a.usable(x) by {
        if b.listed(x) {
        }
    }
    assert forall|i: int| 0 <= i < c.free@.len() implies a.free@.contains(#[trigger] c.free@[i]) || c.free@[i].generation
        == a.generation + 1 by {
        if b.free@.contains(c.free@[i]) {
            let j = choose|j: int| 0 <= j < b.free@.len() && b.free@[j] == c.free@[i];
            assert(b.free@[j] == c.free@[i]);
        }
    }
}

/// One page over the family, written where it may be.
pub proof fn lemma_placed(
    a: Space,
    b: Space,
    c: Space,
    page_id: u32,
    h: nat,
    lo: Option<Seq<u8>>,
    hi: Option<Seq<u8>>,
    key: Seq<u8>,
    value: Option<Seq<u8>>,
    id: u32,
    pv: PageView,
    gone: Option<u32>,
)
    requires
        a.ok(),
        tree_ok(a.pages(), page_id, h, lo, hi),
        settled(a, page_id, h),
        child_done(a, b, page_id, h, lo, hi, children(pv), branch_keys(pv), key, value),
        rewritten(b, c, page_id, id, pv, gone),
        gone matches Some(x) ==> (owns(a.pages(), page_id, h, x) || a.usable(x)) && !family_owns(
            b.pages(),
            children(pv),
            (h - 1) as nat,
            x,
        ),
        pv.kind == PageKind::Branch,
        cells_size(pv.cells) <= PAGE_BODY_LEN,
        cells_exact(pv),
    ensures
        changed(a, c, page_id, h, lo, hi, key, value, Insert::Kept(id)),
{
    let g = (h - 1) as nat;
    let (ds, ks) = (children(pv), branch_keys(pv));
    assert(dividers_ok(ks, lo, hi)) by {
        reveal(family_ok);
    }
    lemma_branch_ok(pv, lo, hi);
    assert(owns(a.pages(), page_id, h, page_id));
    lemma_owns_range(a.pages(), page_id, h, lo, hi, page_id);
    lemma_step(a, b, c, page_id, h, id, pv, gone);
    assert forall|x: u32| #[trigger] family_owns(b.pages(), ds, g, x) implies x != id && x < c.pages().len()
        && b.pages()[x as int] == c.pages()[x as int] by {
        lemma_family_range(b.pages(), ds, ks, g, lo, hi, x);
    }
    lemma_family_frame(b.pages(), c.pages(), ds, ks, g, lo, hi);
    assert(!family_owns(c.pages(), ds, g, id)) by {
        if family_owns(c.pages(), ds, g, id) {
            assert(family_owns(b.pages(), ds, g, id));
        }
    }
    lemma_family_branch(c.pages(), id, h, lo, hi);
    lemma_branch_family(c.pages(), id, h, lo, hi);
    let r = Insert::Kept(id);
    assert forall|x: u32| #[trigger] left_owns(c.pages(), r, h, x) implies !c.usable(x) && !c.listed(x) && (owns(
        a.pages(),
        page_id,
        h,
        x,
    ) || a.usable(x)) by {
        if x != id {
            assert(family_owns(c.pages(), ds, g, x));
            assert(family_owns(b.pages(), ds, g, x));
            if c.usable(x) {
                assert(b.usable(x));
            }
        }
    }
    assert forall|k: Seq<u8>| #[trigger] left_lookup(c.pages(), r, h, k) == (if k == key {
        value
    } else {
        lookup(a.pages(), page_id, h, k)
    }) by {
        assert(lookup(c.pages(), id, h, k) == family_lookup(c.pages(), ds, ks, g, k));
        assert(family_lookup(c.pages(), ds, ks, g, k) == family_lookup(b.pages(), ds, ks, g, k));
    }
}

/// Every page of a family is a data page of the file.
pub proof fn lemma_family_range(
    pages: Seq<PageView>,
    cs: Seq<u32>,
    keys: Seq<Seq<u8>>,
    g: nat,
    lo: Option<Seq<u8>>,
    hi: Option<Seq<u8>>,
    x: u32,
)
    requires
        family_ok(pages, cs, keys, g, lo, hi),
        family_owns(pages, cs, g, x),
    ensures
        FIRST_DATA_PAGE <= x < pages.len(),
{
    reveal(family_ok);
    let i = choose|i: int| 0 <= i < cs.len() && owns(pages, #[trigger] cs[i], g, x);
    lemma_owns_range(pages, cs[i], g, member_lo(keys, i, lo), member_hi(keys, i, hi), x);
}

} // verus!
