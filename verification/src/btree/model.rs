//! What a tree in a file of pages is, and what it holds.
//!
//! A tree of height 0 is one leaf page. A tree of height `h + 1` is a
//! branch page over trees of height `h`: its leftmost child is the page's
//! spare number, and every cell holds a separator and the child to its
//! right, which holds the keys from that separator on.

use vstd::prelude::*;

use crate::btree::cell::{branch_child_of, branch_key_of, leaf_key_of, leaf_value_of};
use crate::bytes::{bytes_le, bytes_lt, group_order};
use crate::page::{cells_size, PageKind, PageView, PAGE_BODY_LEN};

verus! {

/// Longest key a tree takes.
pub const MAX_KEY_LEN: usize = 1024;

/// Longest value a tree takes.
pub const MAX_VALUE_LEN: usize = 4096;

/// First page that can hold tree data; the ones before it hold metas.
pub const FIRST_DATA_PAGE: u32 = 2;

/// Keys in strictly ascending order.
pub open spec fn sorted(keys: Seq<Seq<u8>>) -> bool {
    forall|i: int, j: int| 0 <= i < j < keys.len() ==> bytes_lt(#[trigger] keys[i], #[trigger] keys[j])
}

/// `lo <= key < hi`, where a bound that is absent does not bind.
pub open spec fn in_bounds(key: Seq<u8>, lo: Option<Seq<u8>>, hi: Option<Seq<u8>>) -> bool {
    &&& lo matches Some(l) ==> bytes_le(l, key)
    &&& hi matches Some(h) ==> bytes_lt(key, h)
}

/// `lo < key < hi`, where a bound that is absent does not bind.
pub open spec fn strictly_between(key: Seq<u8>, lo: Option<Seq<u8>>, hi: Option<Seq<u8>>) -> bool {
    &&& lo matches Some(l) ==> bytes_lt(l, key)
    &&& hi matches Some(h) ==> bytes_lt(key, h)
}

/// A length that a key may have.
pub open spec fn key_len_ok(key: Seq<u8>) -> bool {
    1 <= key.len() <= MAX_KEY_LEN
}

/// The keys of a leaf page, in slot order.
pub open spec fn leaf_keys(page: PageView) -> Seq<Seq<u8>> {
    Seq::new(page.cells.len(), |i: int| leaf_key_of(page.cells[i]))
}

/// The separators of a branch page, in slot order.
pub open spec fn branch_keys(page: PageView) -> Seq<Seq<u8>> {
    Seq::new(page.cells.len(), |i: int| branch_key_of(page.cells[i]))
}

/// The child of a branch page at position `i`, the leftmost being 0.
pub open spec fn child(page: PageView, i: int) -> u32 {
    if i == 0 {
        page.extra
    } else {
        branch_child_of(page.cells[i - 1])
    }
}

/// The lower bound of what the child at position `i` holds.
pub open spec fn child_lo(page: PageView, i: int, lo: Option<Seq<u8>>) -> Option<Seq<u8>> {
    if i == 0 {
        lo
    } else {
        Some(branch_keys(page)[i - 1])
    }
}

/// The upper bound of what the child at position `i` holds.
pub open spec fn child_hi(page: PageView, i: int, hi: Option<Seq<u8>>) -> Option<Seq<u8>> {
    if i == page.cells.len() {
        hi
    } else {
        Some(branch_keys(page)[i])
    }
}

/// `slot` is the position of the child that `key` belongs to.
pub open spec fn routes(keys: Seq<Seq<u8>>, key: Seq<u8>, slot: int) -> bool {
    &&& 0 <= slot <= keys.len()
    &&& forall|i: int| 0 <= i < slot ==> bytes_le(#[trigger] keys[i], key)
    &&& slot < keys.len() ==> bytes_lt(key, keys[slot])
}

/// The position of the child that `key` belongs to.
pub open spec fn route(keys: Seq<Seq<u8>>, key: Seq<u8>) -> int {
    choose|slot: int| routes(keys, key, slot)
}

pub proof fn lemma_route(keys: Seq<Seq<u8>>, key: Seq<u8>)
    ensures
        routes(keys, key, route(keys, key)),
{
    lemma_route_exists(keys, key, 0);
}

proof fn lemma_route_exists(keys: Seq<Seq<u8>>, key: Seq<u8>, at: int)
    requires
        0 <= at <= keys.len(),
        forall|i: int| 0 <= i < at ==> bytes_le(#[trigger] keys[i], key),
    ensures
        exists|slot: int| routes(keys, key, slot),
    decreases keys.len() - at,
{
    broadcast use group_order;

    if at < keys.len() && bytes_le(keys[at], key) {
        lemma_route_exists(keys, key, at + 1);
    } else {
        assert(routes(keys, key, at));
    }
}

/// There is one position that a key belongs to.
pub proof fn lemma_route_unique(keys: Seq<Seq<u8>>, key: Seq<u8>, slot: int)
    requires
        routes(keys, key, slot),
    ensures
        route(keys, key) == slot,
{
    broadcast use group_order;

    lemma_route(keys, key);
    let r = route(keys, key);
    if r < slot {
        assert(bytes_le(keys[r], key));
    } else if slot < r {
        assert(bytes_le(keys[slot], key));
    }
}

/// A leaf page whose keys are in order and within bounds.
pub open spec fn leaf_ok(page: PageView, lo: Option<Seq<u8>>, hi: Option<Seq<u8>>) -> bool {
    &&& page.kind == PageKind::Leaf
    &&& cells_size(page.cells) <= PAGE_BODY_LEN
    &&& sorted(leaf_keys(page))
    &&& forall|i: int|
        0 <= i < page.cells.len() ==> {
            &&& key_len_ok(#[trigger] leaf_keys(page)[i])
            &&& in_bounds(leaf_keys(page)[i], lo, hi)
            &&& page.cells[i].len() <= 2 + MAX_KEY_LEN + MAX_VALUE_LEN
        }
}

/// A branch page whose separators are in order and within bounds.
pub open spec fn branch_ok(page: PageView, lo: Option<Seq<u8>>, hi: Option<Seq<u8>>) -> bool {
    &&& page.kind == PageKind::Branch
    &&& cells_size(page.cells) <= PAGE_BODY_LEN
    &&& sorted(branch_keys(page))
    &&& forall|i: int|
        0 <= i < page.cells.len() ==> {
            &&& key_len_ok(#[trigger] branch_keys(page)[i])
            &&& strictly_between(branch_keys(page)[i], lo, hi)
            &&& page.cells[i].len() == 6 + branch_keys(page)[i].len()
        }
}

/// The page `x` belongs to the tree of height `h` at `id`.
pub open spec fn owns(pages: Seq<PageView>, id: u32, h: nat, x: u32) -> bool
    decreases h,
{
    x == id || (h > 0 && exists|i: int|
        0 <= i <= pages[id as int].cells.len() && owns(
            pages,
            #[trigger] child(pages[id as int], i),
            (h - 1) as nat,
            x,
        ))
}

/// A tree below another is never without entries.
pub open spec fn nonempty(pages: Seq<PageView>, id: u32) -> bool {
    pages[id as int].kind == PageKind::Leaf ==> pages[id as int].cells.len() > 0
}

/// The children at two positions share no page.
pub open spec fn apart(pages: Seq<PageView>, a: u32, b: u32, h: nat) -> bool {
    forall|x: u32| !(#[trigger] owns(pages, a, h, x) && owns(pages, b, h, x))
}

/// The pages from `id` on hold a tree of height `h` with keys in bounds.
#[verifier::opaque]
pub open spec fn tree_ok(
    pages: Seq<PageView>,
    id: u32,
    h: nat,
    lo: Option<Seq<u8>>,
    hi: Option<Seq<u8>>,
) -> bool
    decreases h,
{
    let page = pages[id as int];
    &&& FIRST_DATA_PAGE <= id < pages.len()
    &&& h == 0 ==> leaf_ok(page, lo, hi)
    &&& h > 0 ==> {
        &&& branch_ok(page, lo, hi)
        &&& forall|i: int|
            0 <= i <= page.cells.len() ==> {
                &&& tree_ok(
                    pages,
                    #[trigger] child(page, i),
                    (h - 1) as nat,
                    child_lo(page, i, lo),
                    child_hi(page, i, hi),
                )
                &&& nonempty(pages, child(page, i))
                &&& !owns(pages, child(page, i), (h - 1) as nat, id)
            }
        &&& forall|i: int, j: int|
            0 <= i < j <= page.cells.len() ==> apart(
                pages,
                #[trigger] child(page, i),
                #[trigger] child(page, j),
                (h - 1) as nat,
            )
    }
}

/// What a leaf holds under `key`.
pub open spec fn leaf_lookup(page: PageView, key: Seq<u8>) -> Option<Seq<u8>> {
    if exists|i: int| 0 <= i < page.cells.len() && #[trigger] leaf_keys(page)[i] == key {
        let i = choose|i: int| 0 <= i < page.cells.len() && #[trigger] leaf_keys(page)[i] == key;
        Some(leaf_value_of(page.cells[i]))
    } else {
        None
    }
}

/// What the tree of height `h` at `id` holds under `key`.
pub open spec fn lookup(pages: Seq<PageView>, id: u32, h: nat, key: Seq<u8>) -> Option<Seq<u8>>
    decreases h,
{
    let page = pages[id as int];
    if h == 0 {
        leaf_lookup(page, key)
    } else {
        lookup(pages, child(page, route(branch_keys(page), key)), (h - 1) as nat, key)
    }
}

/// The entries of the tree of height `h` at `id`.
pub open spec fn entries(pages: Seq<PageView>, id: u32, h: nat) -> Map<Seq<u8>, Seq<u8>> {
    Map::new(
        |key: Seq<u8>| lookup(pages, id, h, key) is Some,
        |key: Seq<u8>| lookup(pages, id, h, key)->0,
    )
}

/// In a leaf in order, the entry found under a key is the one there.
pub proof fn lemma_leaf_lookup(page: PageView, lo: Option<Seq<u8>>, hi: Option<Seq<u8>>, i: int)
    requires
        leaf_ok(page, lo, hi),
        0 <= i < page.cells.len(),
    ensures
        leaf_lookup(page, leaf_keys(page)[i]) == Some(leaf_value_of(page.cells[i])),
{
    broadcast use group_order;

    let key = leaf_keys(page)[i];
    let k = choose|k: int| 0 <= k < page.cells.len() && #[trigger] leaf_keys(page)[k] == key;
    assert(0 <= k < page.cells.len() && leaf_keys(page)[k] == key);
    if k < i {
        assert(bytes_lt(leaf_keys(page)[k], leaf_keys(page)[i]));
    } else if i < k {
        assert(bytes_lt(leaf_keys(page)[i], leaf_keys(page)[k]));
    }
}

/// A tree stays what it is while its own pages stay what they are.
pub proof fn lemma_frame(
    a: Seq<PageView>,
    b: Seq<PageView>,
    id: u32,
    h: nat,
    lo: Option<Seq<u8>>,
    hi: Option<Seq<u8>>,
)
    requires
        tree_ok(a, id, h, lo, hi),
        forall|x: u32| #[trigger] owns(a, id, h, x) ==> x < b.len() && a[x as int] == b[x as int],
    ensures
        tree_ok(b, id, h, lo, hi),
        forall|x: u32| #[trigger] owns(b, id, h, x) == owns(a, id, h, x),
        forall|key: Seq<u8>| #[trigger] lookup(b, id, h, key) == lookup(a, id, h, key),
    decreases h,
{
    reveal(tree_ok);
    assert(owns(a, id, h, id));
    let page = a[id as int];
    assert(b[id as int] == page);
    if h > 0 {
        let g = (h - 1) as nat;
        assert forall|i: int| 0 <= i <= page.cells.len() implies {
            &&& tree_ok(
                b,
                #[trigger] child(page, i),
                g,
                child_lo(page, i, lo),
                child_hi(page, i, hi),
            )
            &&& forall|x: u32| #[trigger] owns(b, child(page, i), g, x) == owns(a, child(page, i), g, x)
            &&& forall|key: Seq<u8>| #[trigger]
                lookup(b, child(page, i), g, key) == lookup(a, child(page, i), g, key)
            &&& b[child(page, i) as int] == a[child(page, i) as int]
        } by {
            let c = child(page, i);
            assert forall|x: u32| #[trigger] owns(a, c, g, x) implies x < b.len() && a[x as int]
                == b[x as int] by {
                assert(owns(a, id, h, x));
            }
            assert(owns(a, c, g, c));
            lemma_frame(a, b, c, g, child_lo(page, i, lo), child_hi(page, i, hi));
        }
        assert forall|x: u32| #[trigger] owns(b, id, h, x) == owns(a, id, h, x) by {
            if owns(b, id, h, x) && x != id {
                let i = choose|i: int|
                    0 <= i <= b[id as int].cells.len() && owns(b, #[trigger] child(b[id as int], i), g, x);
                assert(owns(a, child(page, i), g, x));
            }
            if owns(a, id, h, x) && x != id {
                let i = choose|i: int|
                    0 <= i <= a[id as int].cells.len() && owns(a, #[trigger] child(a[id as int], i), g, x);
                assert(owns(b, child(page, i), g, x));
            }
        }
        assert forall|i: int, j: int| 0 <= i < j <= page.cells.len() implies apart(
            b,
            #[trigger] child(page, i),
            #[trigger] child(page, j),
            g,
        ) by {
            assert(apart(a, child(page, i), child(page, j), g));
            assert forall|x: u32| !(#[trigger] owns(b, child(page, i), g, x) && owns(b, child(page, j), g, x)) by {
                assert(owns(b, child(page, i), g, x) == owns(a, child(page, i), g, x));
                assert(owns(b, child(page, j), g, x) == owns(a, child(page, j), g, x));
            }
        }
        assert forall|key: Seq<u8>| #[trigger] lookup(b, id, h, key) == lookup(a, id, h, key) by {
            lemma_route(branch_keys(page), key);
            let c = child(page, route(branch_keys(page), key));
            assert(lookup(b, c, g, key) == lookup(a, c, g, key));
        }
    }
}

/// Every page of a tree is a data page of the file.
pub proof fn lemma_owns_range(
    pages: Seq<PageView>,
    id: u32,
    h: nat,
    lo: Option<Seq<u8>>,
    hi: Option<Seq<u8>>,
    x: u32,
)
    requires
        tree_ok(pages, id, h, lo, hi),
        owns(pages, id, h, x),
    ensures
        FIRST_DATA_PAGE <= x < pages.len(),
    decreases h,
{
    reveal(tree_ok);
    if x != id {
        let page = pages[id as int];
        let i = choose|i: int|
            0 <= i <= page.cells.len() && owns(pages, #[trigger] child(page, i), (h - 1) as nat, x);
        lemma_owns_range(
            pages,
            child(page, i),
            (h - 1) as nat,
            child_lo(page, i, lo),
            child_hi(page, i, hi),
            x,
        );
    }
}

/// A tree holds keys within its bounds only, and of a length that keys have.
pub proof fn lemma_lookup_bounds(
    pages: Seq<PageView>,
    id: u32,
    h: nat,
    lo: Option<Seq<u8>>,
    hi: Option<Seq<u8>>,
    key: Seq<u8>,
)
    requires
        tree_ok(pages, id, h, lo, hi),
        lookup(pages, id, h, key) is Some,
    ensures
        in_bounds(key, lo, hi),
        key_len_ok(key),
    decreases h,
{
    broadcast use group_order;

    reveal(tree_ok);
    let page = pages[id as int];
    if h == 0 {
        let i = choose|i: int| 0 <= i < page.cells.len() && #[trigger] leaf_keys(page)[i] == key;
        assert(in_bounds(leaf_keys(page)[i], lo, hi));
    } else {
        let keys = branch_keys(page);
        lemma_route(keys, key);
        let r = route(keys, key);
        lemma_lookup_bounds(
            pages,
            child(page, r),
            (h - 1) as nat,
            child_lo(page, r, lo),
            child_hi(page, r, hi),
            key,
        );
        if r > 0 {
            assert(strictly_between(keys[r - 1], lo, hi));
        }
        if r < keys.len() {
            assert(strictly_between(keys[r], lo, hi));
        }
    }
}

/// Wider bounds hold too.
pub proof fn lemma_widen(
    pages: Seq<PageView>,
    id: u32,
    h: nat,
    lo: Option<Seq<u8>>,
    hi: Option<Seq<u8>>,
    lo2: Option<Seq<u8>>,
    hi2: Option<Seq<u8>>,
)
    requires
        tree_ok(pages, id, h, lo, hi),
        lo2 matches Some(b) ==> lo is Some && bytes_le(b, lo->0),
        hi2 matches Some(b) ==> hi is Some && bytes_le(hi->0, b),
    ensures
        tree_ok(pages, id, h, lo2, hi2),
    decreases h,
{
    broadcast use group_order;

    reveal(tree_ok);
    let page = pages[id as int];
    if h == 0 {
        assert forall|i: int| 0 <= i < page.cells.len() implies in_bounds(
            #[trigger] leaf_keys(page)[i],
            lo2,
            hi2,
        ) by {
            assert(in_bounds(leaf_keys(page)[i], lo, hi));
        }
        assert(leaf_ok(page, lo2, hi2));
    } else {
        assert forall|i: int| 0 <= i < page.cells.len() implies strictly_between(
            #[trigger] branch_keys(page)[i],
            lo2,
            hi2,
        ) by {
            assert(strictly_between(branch_keys(page)[i], lo, hi));
        }
        assert(branch_ok(page, lo2, hi2));
        assert forall|i: int| 0 <= i <= page.cells.len() implies tree_ok(
            pages,
            #[trigger] child(page, i),
            (h - 1) as nat,
            child_lo(page, i, lo2),
            child_hi(page, i, hi2),
        ) by {
            lemma_widen(
                pages,
                child(page, i),
                (h - 1) as nat,
                child_lo(page, i, lo),
                child_hi(page, i, hi),
                child_lo(page, i, lo2),
                child_hi(page, i, hi2),
            );
        }
    }
}

} // verus!
