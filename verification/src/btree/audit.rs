//! Looking a tree over before it is used: whether the pages of a file hold
//! one.

use vstd::prelude::*;

use crate::btree::cell::{branch_key, branch_key_of, leaf_key, leaf_key_of};
use crate::btree::meta::{meta_bytes, FreeEntry, MetaState, MAX_FREE_ENTRIES};
use crate::btree::model::{
    apart, branch_keys, branch_ok, child, child_hi, child_lo, entries, in_bounds, key_len_ok, leaf_keys, leaf_lookup,
    leaf_ok, lemma_lookup_bounds, lemma_owns_range, lemma_route, lemma_route_unique, lookup, nonempty, owns, route,
    routes, sorted, strictly_between, tree_ok, FIRST_DATA_PAGE, MAX_KEY_LEN, MAX_VALUE_LEN,
};
use crate::btree::node::branch_child_at;
use crate::btree::walk::cursor_view;
use crate::btree::{image_ok, meta_page};
use crate::bytes::{bytes_eq, bytes_le, bytes_lt, copy_bytes, group_order, is_less};
use crate::page::{Page, PageKind, PageView, Pager};

verus! {

// ---------------------------------------------------------------------
// Single pages
// ---------------------------------------------------------------------

/// Whether a key may stand between the bounds.
fn is_within(key: &[u8], lo: &Option<Vec<u8>>, hi: &Option<Vec<u8>>, strict: bool) -> (r: bool)
    ensures
        r == (if strict {
            strictly_between(key@, cursor_view(*lo), cursor_view(*hi))
        } else {
            in_bounds(key@, cursor_view(*lo), cursor_view(*hi))
        }),
{
    broadcast use group_order;

    if let Some(l) = lo {
        if strict {
            if !is_less(l, key) {
                return false;
            }
        } else if is_less(key, l) {
            return false;
        }
    }
    if let Some(h) = hi {
        if !is_less(key, h) {
            return false;
        }
    }
    true
}

/// Whether a page is a leaf in order, within bounds.
fn leaf_fits(page: &Page, lo: &Option<Vec<u8>>, hi: &Option<Vec<u8>>) -> (r: bool)
    requires
        page.wf(),
    ensures
        r == leaf_ok(page@, cursor_view(*lo), cursor_view(*hi)),
{
    broadcast use group_order;

    let ghost keys = leaf_keys(page@);
    proof {
        page.lemma_wf();
    }
    match page.kind() {
        PageKind::Leaf => {},
        _ => { return false },
    }
    let n: usize = page.slot_count();
    let mut last: Vec<u8> = Vec::new();
    let mut i: usize = 0;
    while i < n
        invariant
            n == page@.cells.len(),
            i <= n,
            page@.kind == PageKind::Leaf,
            keys == leaf_keys(page@),
            i > 0 ==> last@ == keys[i - 1],
            sorted(keys.take(i as int)),
            forall|k: int|
                0 <= k < i ==> {
                    &&& key_len_ok(#[trigger] keys[k])
                    &&& in_bounds(keys[k], cursor_view(*lo), cursor_view(*hi))
                    &&& page@.cells[k].len() <= 2 + MAX_KEY_LEN + MAX_VALUE_LEN
                },
        decreases n - i,
    {
        broadcast use group_order;

        let cell = match page.cell(i) {
            Some(cell) => cell,
            None => { return false },
        };
        let key = leaf_key(cell);
        proof {
            assert(keys[i as int] == leaf_key_of(cell@));
        }
        if key.len() == 0 || key.len() > MAX_KEY_LEN || cell.len() > 2 + MAX_KEY_LEN + MAX_VALUE_LEN {
            return false;
        }
        if !is_within(key, lo, hi, false) {
            return false;
        }
        if i > 0 && !is_less(&last, key) {
            proof {
                if sorted(keys) {
                    assert(bytes_lt(keys[i - 1], keys[i as int]));
                }
            }
            return false;
        }
        proof {
            lemma_sorted_step(keys, i as int);
        }
        last = copy_bytes(key);
        i = i + 1;
    }
    proof {
        assert(keys.take(n as int) =~= keys);
    }
    true
}

proof fn lemma_sorted_step(keys: Seq<Seq<u8>>, i: int)
    requires
        0 <= i < keys.len(),
        sorted(keys.take(i)),
        i > 0 ==> bytes_lt(keys[i - 1], keys[i]),
    ensures
        sorted(keys.take(i + 1)),
{
    broadcast use group_order;

    let part = keys.take(i);
    let next = keys.take(i + 1);
    assert forall|a: int, b: int| 0 <= a < b < next.len() implies bytes_lt(#[trigger] next[a], #[trigger] next[b]) by {
        if b < i {
            assert(part[a] == next[a] && part[b] == next[b]);
        } else if a < i - 1 {
            assert(part[a] == next[a] && part[i - 1] == keys[i - 1]);
            assert(bytes_lt(part[a], part[i - 1]));
        }
    }
}

/// Whether a page is a branch in order, within bounds.
fn branch_fits(page: &Page, lo: &Option<Vec<u8>>, hi: &Option<Vec<u8>>) -> (r: bool)
    requires
        page.wf(),
    ensures
        r == branch_ok(page@, cursor_view(*lo), cursor_view(*hi)),
{
    broadcast use group_order;

    let ghost keys = branch_keys(page@);
    proof {
        page.lemma_wf();
    }
    match page.kind() {
        PageKind::Branch => {},
        _ => { return false },
    }
    let n: usize = page.slot_count();
    let mut last: Vec<u8> = Vec::new();
    let mut i: usize = 0;
    while i < n
        invariant
            n == page@.cells.len(),
            i <= n,
            page@.kind == PageKind::Branch,
            keys == branch_keys(page@),
            i > 0 ==> last@ == keys[i - 1],
            sorted(keys.take(i as int)),
            forall|k: int|
                0 <= k < i ==> {
                    &&& key_len_ok(#[trigger] keys[k])
                    &&& strictly_between(keys[k], cursor_view(*lo), cursor_view(*hi))
                    &&& page@.cells[k].len() == 6 + keys[k].len()
                },
        decreases n - i,
    {
        broadcast use group_order;

        let cell = match page.cell(i) {
            Some(cell) => cell,
            None => { return false },
        };
        let key = branch_key(cell);
        proof {
            assert(keys[i as int] == branch_key_of(cell@));
        }
        if key.len() == 0 || key.len() > MAX_KEY_LEN || cell.len() != 6 + key.len() {
            return false;
        }
        if !is_within(key, lo, hi, true) {
            return false;
        }
        if i > 0 && !is_less(&last, key) {
            proof {
                if sorted(keys) {
                    assert(bytes_lt(keys[i - 1], keys[i as int]));
                }
            }
            return false;
        }
        proof {
            lemma_sorted_step(keys, i as int);
        }
        last = copy_bytes(key);
        i = i + 1;
    }
    proof {
        assert(keys.take(n as int) =~= keys);
    }
    true
}

/// A leaf holds an entry for each cell.
proof fn lemma_leaf_entries(pages: Seq<PageView>, id: u32, lo: Option<Seq<u8>>, hi: Option<Seq<u8>>)
    requires
        leaf_ok(pages[id as int], lo, hi),
    ensures
        entries(pages, id, 0).dom().finite(),
        entries(pages, id, 0).len() == pages[id as int].cells.len(),
{
    broadcast use group_order;

    let page = pages[id as int];
    let keys = leaf_keys(page);
    assert forall|i: int, j: int| 0 <= i < keys.len() && 0 <= j < keys.len() && i != j implies keys[i] != keys[j] by {
        if i < j {
            assert(bytes_lt(keys[i], keys[j]));
        } else {
            assert(bytes_lt(keys[j], keys[i]));
        }
    }
    let dom = entries(pages, id, 0).dom();
    assert(dom =~= keys.to_set()) by {
        assert forall|k: Seq<u8>| dom.contains(k) <==> keys.to_set().contains(k) by {
            assert(lookup(pages, id, 0, k) == leaf_lookup(page, k));
            if keys.contains(k) {
                let i = choose|i: int| 0 <= i < keys.len() && keys[i] == k;
                assert(leaf_keys(page)[i] == k);
            }
        }
    }
    keys.unique_seq_to_set();
    vstd::seq_lib::seq_to_set_is_finite(keys);
}

// ---------------------------------------------------------------------
// Whole trees
// ---------------------------------------------------------------------

/// How many pages were not seen yet.
pub open spec fn unseen(seen: Seq<bool>) -> nat
    decreases seen.len(),
{
    if seen.len() == 0 {
        0
    } else {
        unseen(seen.drop_last()) + (if seen.last() {
            0nat
        } else {
            1nat
        })
    }
}

proof fn lemma_unseen_mark(seen: Seq<bool>, i: int)
    requires
        0 <= i < seen.len(),
        !seen[i],
    ensures
        unseen(seen.update(i, true)) + 1 == unseen(seen),
    decreases seen.len(),
{
    let after = seen.update(i, true);
    if i == seen.len() - 1 {
        assert(after.drop_last() =~= seen.drop_last());
    } else {
        lemma_unseen_mark(seen.drop_last(), i);
        assert(after.drop_last() =~= seen.drop_last().update(i, true));
    }
}

proof fn lemma_unseen_len(seen: Seq<bool>)
    ensures
        unseen(seen) <= seen.len(),
    decreases seen.len(),
{
    if seen.len() > 0 {
        lemma_unseen_len(seen.drop_last());
    }
}

/// No page of the tree was seen yet.
pub open spec fn fresh(pages: Seq<PageView>, id: u32, h: nat, seen: Seq<bool>) -> bool {
    forall|x: u32| #[trigger] owns(pages, id, h, x) ==> x < seen.len() && !seen[x as int]
}

/// Just the pages of the tree were seen since.
pub open spec fn saw(pages: Seq<PageView>, id: u32, h: nat, before: Seq<bool>, after: Seq<bool>) -> bool {
    &&& after.len() == before.len()
    &&& forall|x: u32| x < before.len() ==> #[trigger] after[x as int] == (before[x as int] || owns(pages, id, h, x))
}

/// The pages hold a tree that shares nothing with what was seen, with no more
/// than `left` entries.
pub open spec fn fits(
    pages: Seq<PageView>,
    id: u32,
    h: nat,
    lo: Option<Seq<u8>>,
    hi: Option<Seq<u8>>,
    seen: Seq<bool>,
    left: u64,
) -> bool {
    &&& tree_ok(pages, id, h, lo, hi)
    &&& fresh(pages, id, h, seen)
    &&& entries(pages, id, h).dom().finite()
    &&& entries(pages, id, h).len() <= left
}

/// Some of the first `n` children has the page.
spec fn some_owns(pages: Seq<PageView>, page: PageView, g: nat, n: int, x: u32) -> bool {
    exists|j: int| 0 <= j < n && owns(pages, #[trigger] child(page, j), g, x)
}

/// The keys that the first `n` children hold.
spec fn part(pages: Seq<PageView>, page: PageView, g: nat, n: int) -> Set<Seq<u8>> {
    Set::new(
        |k: Seq<u8>|
            route(branch_keys(page), k) < n && lookup(pages, child(page, route(branch_keys(page), k)), g, k) is Some,
    )
}

/// The first `n` children are trees of height `g` that share nothing.
spec fn children_ok(
    pages: Seq<PageView>,
    id: u32,
    g: nat,
    lo: Option<Seq<u8>>,
    hi: Option<Seq<u8>>,
    n: int,
    before: Seq<bool>,
    after: Seq<bool>,
    had: u64,
    left: u64,
) -> bool {
    let page = pages[id as int];
    &&& forall|j: int|
        0 <= j < n ==> {
            &&& tree_ok(pages, #[trigger] child(page, j), g, child_lo(page, j, lo), child_hi(page, j, hi))
            &&& nonempty(pages, child(page, j))
            &&& !owns(pages, child(page, j), g, id)
        }
    &&& forall|j: int, k: int| 0 <= j < k < n ==> apart(pages, #[trigger] child(page, j), #[trigger] child(page, k), g)
    &&& after.len() == before.len()
    &&& forall|x: u32|
        x < before.len() ==> #[trigger] after[x as int] == (before[x as int] || some_owns(pages, page, g, n, x))
    &&& forall|x: u32| #[trigger] some_owns(pages, page, g, n, x) ==> x < before.len() && !before[x as int]
    &&& part(pages, page, g, n).finite()
    &&& part(pages, page, g, n).len() + left == had
}

proof fn lemma_no_children(
    pages: Seq<PageView>,
    id: u32,
    g: nat,
    lo: Option<Seq<u8>>,
    hi: Option<Seq<u8>>,
    seen: Seq<bool>,
    left: u64,
)
    ensures
        children_ok(pages, id, g, lo, hi, 0, seen, seen, left, left),
{
    let page = pages[id as int];
    let none = part(pages, page, g, 0);
    assert(none =~= Set::<Seq<u8>>::empty()) by {
        assert forall|k: Seq<u8>| !none.contains(k) by {
            lemma_route(branch_keys(page), k);
        }
    }
}

/// A key that a child holds belongs to that child.
proof fn lemma_child_route(
    pages: Seq<PageView>,
    id: u32,
    g: nat,
    lo: Option<Seq<u8>>,
    hi: Option<Seq<u8>>,
    i: int,
    k: Seq<u8>,
)
    requires
        branch_ok(pages[id as int], lo, hi),
        0 <= i <= pages[id as int].cells.len(),
        tree_ok(
            pages,
            child(pages[id as int], i),
            g,
            child_lo(pages[id as int], i, lo),
            child_hi(pages[id as int], i, hi),
        ),
        lookup(pages, child(pages[id as int], i), g, k) is Some,
    ensures
        route(branch_keys(pages[id as int]), k) == i,
{
    broadcast use group_order;

    let page = pages[id as int];
    let keys = branch_keys(page);
    lemma_lookup_bounds(pages, child(page, i), g, child_lo(page, i, lo), child_hi(page, i, hi), k);
    assert forall|j: int| 0 <= j < i implies bytes_le(#[trigger] keys[j], k) by {
        if j < i - 1 {
            assert(bytes_lt(keys[j], keys[i - 1]));
        }
    }
    assert(routes(keys, k, i));
    lemma_route_unique(keys, k, i);
}

proof fn lemma_part_step(
    pages: Seq<PageView>,
    id: u32,
    g: nat,
    lo: Option<Seq<u8>>,
    hi: Option<Seq<u8>>,
    i: int,
)
    requires
        branch_ok(pages[id as int], lo, hi),
        0 <= i <= pages[id as int].cells.len(),
        tree_ok(
            pages,
            child(pages[id as int], i),
            g,
            child_lo(pages[id as int], i, lo),
            child_hi(pages[id as int], i, hi),
        ),
    ensures
        ({
            let page = pages[id as int];
            let own = entries(pages, child(page, i), g).dom();
            let before = part(pages, page, g, i);
            let after = part(pages, page, g, i + 1);
            &&& after == before.union(own)
            &&& before.disjoint(own)
            &&& before.finite() && own.finite() ==> after.finite() && after.len() == before.len() + own.len()
        }),
{
    let page = pages[id as int];
    let keys = branch_keys(page);
    let own = entries(pages, child(page, i), g).dom();
    let before = part(pages, page, g, i);
    let after = part(pages, page, g, i + 1);
    assert forall|k: Seq<u8>| own.contains(k) implies route(keys, k) == i by {
        lemma_child_route(pages, id, g, lo, hi, i, k);
    }
    assert(after =~= before.union(own)) by {
        assert forall|k: Seq<u8>| after.contains(k) <==> before.union(own).contains(k) by {
            lemma_route(keys, k);
        }
    }
    assert(before.disjoint(own));
    if before.finite() && own.finite() {
        vstd::set_lib::lemma_set_disjoint_lens(before, own);
    }
}

proof fn lemma_children_step(
    pages: Seq<PageView>,
    id: u32,
    g: nat,
    lo: Option<Seq<u8>>,
    hi: Option<Seq<u8>>,
    i: int,
    before: Seq<bool>,
    now: Seq<bool>,
    after: Seq<bool>,
    had: u64,
    left: u64,
    rest: u64,
)
    requires
        branch_ok(pages[id as int], lo, hi),
        0 <= i <= pages[id as int].cells.len(),
        id < before.len(),
        before[id as int],
        children_ok(pages, id, g, lo, hi, i, before, now, had, left),
        tree_ok(
            pages,
            child(pages[id as int], i),
            g,
            child_lo(pages[id as int], i, lo),
            child_hi(pages[id as int], i, hi),
        ),
        nonempty(pages, child(pages[id as int], i)),
        fresh(pages, child(pages[id as int], i), g, now),
        saw(pages, child(pages[id as int], i), g, now, after),
        entries(pages, child(pages[id as int], i), g).dom().finite(),
        entries(pages, child(pages[id as int], i), g).len() + rest == left,
    ensures
        children_ok(pages, id, g, lo, hi, i + 1, before, after, had, rest),
{
    let page = pages[id as int];
    let c = child(page, i);
    lemma_part_step(pages, id, g, lo, hi, i);
    assert forall|j: int, k: int| 0 <= j < k < i + 1 implies apart(
        pages,
        #[trigger] child(page, j),
        #[trigger] child(page, k),
        g,
    ) by {
        if k == i {
            assert forall|x: u32| !(#[trigger] owns(pages, child(page, j), g, x) && owns(pages, c, g, x)) by {
                if owns(pages, child(page, j), g, x) && owns(pages, c, g, x) {
                    assert(some_owns(pages, page, g, i, x));
                    assert(now[x as int]);
                }
            }
        }
    }
    assert(!owns(pages, c, g, id)) by {
        if owns(pages, c, g, id) {
            assert(now[id as int] == (before[id as int] || some_owns(pages, page, g, i, id)));
        }
    }
    assert forall|x: u32| #[trigger] some_owns(pages, page, g, i + 1, x) <==> some_owns(pages, page, g, i, x) || owns(
        pages,
        c,
        g,
        x,
    ) by {
        if some_owns(pages, page, g, i + 1, x) {
            let j = choose|j: int| 0 <= j < i + 1 && owns(pages, #[trigger] child(page, j), g, x);
            if j < i {
                assert(some_owns(pages, page, g, i, x));
            }
        }
        if some_owns(pages, page, g, i, x) {
            let j = choose|j: int| 0 <= j < i && owns(pages, #[trigger] child(page, j), g, x);
            assert(0 <= j < i + 1 && owns(pages, child(page, j), g, x));
        }
    }
    assert forall|x: u32| x < before.len() implies #[trigger] after[x as int] == (before[x as int] || some_owns(
        pages,
        page,
        g,
        i + 1,
        x,
    )) by {
        assert(now[x as int] == (before[x as int] || some_owns(pages, page, g, i, x)));
    }
    assert forall|x: u32| #[trigger] some_owns(pages, page, g, i + 1, x) implies x < before.len()
        && !before[x as int] by {
        if owns(pages, c, g, x) {
            assert(x < now.len() && !now[x as int]);
            assert(now[x as int] == (before[x as int] || some_owns(pages, page, g, i, x)));
        }
    }
}

/// All children make the tree.
proof fn lemma_children_done(
    pages: Seq<PageView>,
    id: u32,
    g: nat,
    lo: Option<Seq<u8>>,
    hi: Option<Seq<u8>>,
    seen: Seq<bool>,
    after: Seq<bool>,
    had: u64,
    left: u64,
)
    requires
        FIRST_DATA_PAGE <= id < pages.len(),
        id < seen.len(),
        !seen[id as int],
        branch_ok(pages[id as int], lo, hi),
        children_ok(
            pages,
            id,
            g,
            lo,
            hi,
            (pages[id as int].cells.len() + 1) as int,
            seen.update(id as int, true),
            after,
            had,
            left,
        ),
    ensures
        tree_ok(pages, id, g + 1, lo, hi),
        fresh(pages, id, g + 1, seen),
        saw(pages, id, g + 1, seen, after),
        entries(pages, id, g + 1).dom().finite(),
        entries(pages, id, g + 1).len() + left == had,
{
    reveal(tree_ok);
    let page = pages[id as int];
    let n = (page.cells.len() + 1) as int;
    let keys = branch_keys(page);
    let before = seen.update(id as int, true);
    assert forall|x: u32| #[trigger] owns(pages, id, g + 1, x) <==> x == id || some_owns(pages, page, g, n, x) by {
        if owns(pages, id, g + 1, x) && x != id {
            let j = choose|j: int| 0 <= j <= page.cells.len() && owns(pages, #[trigger] child(page, j), g, x);
            assert(0 <= j < n && owns(pages, child(page, j), g, x));
        }
        if some_owns(pages, page, g, n, x) {
            let j = choose|j: int| 0 <= j < n && owns(pages, #[trigger] child(page, j), g, x);
            assert(0 <= j <= page.cells.len() && owns(pages, child(page, j), ((g + 1) - 1) as nat, x));
        }
    }
    assert forall|x: u32| x < seen.len() implies #[trigger] after[x as int] == (seen[x as int] || owns(
        pages,
        id,
        g + 1,
        x,
    )) by {
        assert(after[x as int] == (before[x as int] || some_owns(pages, page, g, n, x)));
    }
    assert forall|x: u32| #[trigger] owns(pages, id, g + 1, x) implies x < seen.len() && !seen[x as int] by {
        if x != id {
            assert(some_owns(pages, page, g, n, x));
            assert(!before[x as int]);
        }
    }
    assert(entries(pages, id, g + 1).dom() =~= part(pages, page, g, n)) by {
        assert forall|k: Seq<u8>| entries(pages, id, g + 1).dom().contains(k) <==> part(pages, page, g, n).contains(k) by {
            lemma_route(keys, k);
        }
    }
}

/// Where the tree fits, the next child does.
proof fn lemma_child_fits(
    pages: Seq<PageView>,
    id: u32,
    g: nat,
    h: nat,
    lo: Option<Seq<u8>>,
    hi: Option<Seq<u8>>,
    i: int,
    seen: Seq<bool>,
    now: Seq<bool>,
    had: u64,
    left: u64,
)
    requires
        id < seen.len(),
        0 <= i <= pages[id as int].cells.len(),
        fits(pages, id, h, lo, hi, seen, had),
        branch_ok(pages[id as int], lo, hi),
        children_ok(pages, id, g, lo, hi, i, seen.update(id as int, true), now, had, left),
    ensures
        h > 0,
        i > 0 ==> g == h - 1,
        fits(
            pages,
            child(pages[id as int], i),
            (h - 1) as nat,
            child_lo(pages[id as int], i, lo),
            child_hi(pages[id as int], i, hi),
            now,
            left,
        ),
        nonempty(pages, child(pages[id as int], i)),
{
    reveal(tree_ok);
    let page = pages[id as int];
    let before = seen.update(id as int, true);
    let c = child(page, i);
    let e = (h - 1) as nat;
    assert(h > 0);
    assert(tree_ok(pages, c, e, child_lo(page, i, lo), child_hi(page, i, hi)));
    if i > 0 {
        let first = child(page, 0);
        assert(tree_ok(pages, first, e, child_lo(page, 0, lo), child_hi(page, 0, hi)));
        crate::btree::lemma_height_unique(
            pages,
            first,
            e,
            g,
            child_lo(page, 0, lo),
            child_hi(page, 0, hi),
            child_lo(page, 0, lo),
            child_hi(page, 0, hi),
        );
    }
    assert forall|x: u32| #[trigger] owns(pages, c, e, x) implies x < now.len() && !now[x as int] by {
        assert(owns(pages, id, h, x));
        assert(now[x as int] == (before[x as int] || some_owns(pages, page, g, i, x)));
        assert(x != id);
        if some_owns(pages, page, g, i, x) {
            let j = choose|j: int| 0 <= j < i && owns(pages, #[trigger] child(page, j), g, x);
            assert(apart(pages, child(page, j), child(page, i), e));
            assert(owns(pages, child(page, j), e, x));
        }
    }
    lemma_part_step(pages, id, e, lo, hi, i);
    let all = entries(pages, id, h).dom();
    let upto = part(pages, page, e, i + 1);
    let own = entries(pages, c, e).dom();
    assert(upto.subset_of(all)) by {
        assert forall|k: Seq<u8>| upto.contains(k) implies all.contains(k) by {
            lemma_route(branch_keys(page), k);
        }
    }
    vstd::set_lib::lemma_len_subset(upto, all);
    assert(own.subset_of(upto));
    vstd::set_lib::lemma_len_subset(own, upto);
    if i == 0 {
        let none = part(pages, page, e, 0);
        assert(none =~= Set::<Seq<u8>>::empty()) by {
            assert forall|k: Seq<u8>| !none.contains(k) by {
                lemma_route(branch_keys(page), k);
            }
        }
        let nothing = part(pages, page, g, 0);
        assert(nothing =~= Set::<Seq<u8>>::empty()) by {
            assert forall|k: Seq<u8>| !nothing.contains(k) by {
                lemma_route(branch_keys(page), k);
            }
        }
    }
}

/// Looks the tree at `id` over, whose pages must not be seen yet, and which
/// must hold no more entries than are `left`; says how high it is.
pub(super) fn audit(
    pager: &Pager,
    id: u32,
    lo: &Option<Vec<u8>>,
    hi: &Option<Vec<u8>>,
    seen: &mut Vec<bool>,
    left: &mut u64,
) -> (r: Option<u64>)
    requires
        pager.wf(),
        old(seen)@.len() == pager@.len(),
    ensures
        final(seen)@.len() == old(seen)@.len(),
        match r {
            Some(h) => {
                &&& tree_ok(pager@, id, h as nat, cursor_view(*lo), cursor_view(*hi))
                &&& fresh(pager@, id, h as nat, old(seen)@)
                &&& saw(pager@, id, h as nat, old(seen)@, final(seen)@)
                &&& entries(pager@, id, h as nat).dom().finite()
                &&& entries(pager@, id, h as nat).len() + *final(left) == *old(left)
                &&& unseen(final(seen)@) + h + 1 <= unseen(old(seen)@)
            },
            None => forall|g: nat| !#[trigger]
                fits(pager@, id, g, cursor_view(*lo), cursor_view(*hi), old(seen)@, *old(left)),
        },
    decreases unseen(old(seen)@), 1nat,
{
    let ghost pages = pager@;
    let ghost first = seen@;
    let ghost had = *left;
    let ghost l = cursor_view(*lo);
    let ghost h = cursor_view(*hi);
    proof {
        reveal(tree_ok);
        lemma_unseen_len(first);
        assert forall|g: nat| #[trigger] fits(pages, id, g, l, h, first, had) implies owns(pages, id, g, id) by {}
    }
    let page = match pager.read(id) {
        Some(page) => page,
        None => { return None },
    };
    if id < FIRST_DATA_PAGE || seen[id as usize] {
        return None;
    }
    match page.kind() {
        PageKind::Leaf => {
            if !leaf_fits(page, lo, hi) {
                return None;
            }
            let n: u64 = page.slot_count() as u64;
            proof {
                lemma_leaf_entries(pages, id, l, h);
            }
            if n > *left {
                proof {
                    assert forall|g: nat| !#[trigger] fits(pages, id, g, l, h, first, had) by {
                        if fits(pages, id, g, l, h, first, had) {
                            assert(g == 0);
                        }
                    }
                }
                return None;
            }
            *left = *left - n;
            seen.set(id as usize, true);
            proof {
                lemma_unseen_mark(first, id as int);
                assert forall|x: u32| #[trigger] owns(pages, id, 0, x) <==> x == id by {}
            }
            Some(0)
        },
        PageKind::Branch => audit_branch(pager, id, page, lo, hi, seen, left),
        _ => None,
    }
}

/// The same of a branch page.
fn audit_branch(
    pager: &Pager,
    id: u32,
    page: &Page,
    lo: &Option<Vec<u8>>,
    hi: &Option<Vec<u8>>,
    seen: &mut Vec<bool>,
    left: &mut u64,
) -> (r: Option<u64>)
    requires
        pager.wf(),
        page.wf(),
        old(seen)@.len() == pager@.len(),
        FIRST_DATA_PAGE <= id < pager@.len(),
        page@ == pager@[id as int],
        page@.kind == PageKind::Branch,
        !old(seen)@[id as int],
    ensures
        final(seen)@.len() == old(seen)@.len(),
        match r {
            Some(h) => {
                &&& tree_ok(pager@, id, h as nat, cursor_view(*lo), cursor_view(*hi))
                &&& fresh(pager@, id, h as nat, old(seen)@)
                &&& saw(pager@, id, h as nat, old(seen)@, final(seen)@)
                &&& entries(pager@, id, h as nat).dom().finite()
                &&& entries(pager@, id, h as nat).len() + *final(left) == *old(left)
                &&& unseen(final(seen)@) + h + 1 <= unseen(old(seen)@)
            },
            None => forall|g: nat| !#[trigger]
                fits(pager@, id, g, cursor_view(*lo), cursor_view(*hi), old(seen)@, *old(left)),
        },
    decreases unseen(old(seen)@), 0nat,
{
    let ghost pages = pager@;
    let ghost first = seen@;
    let ghost had = *left;
    let ghost l = cursor_view(*lo);
    let ghost h = cursor_view(*hi);
    if !branch_fits(page, lo, hi) {
        proof {
            reveal(tree_ok);
        }
        return None;
    }
    seen.set(id as usize, true);
    let ghost marked = seen@;
    let n: usize = page.slot_count();
    let mut below: u64 = 0;
    proof {
        page.lemma_wf();
        pager.lemma_wf();
        lemma_unseen_mark(first, id as int);
        lemma_unseen_len(first);
        assert(marked =~= first.update(id as int, true));
        lemma_no_children(pages, id, 0, l, h, marked, had);
    }
    let mut i: usize = 0;
    while i <= n
        invariant
            pager.wf(),
            page.wf(),
            pages == pager@,
            page@ == pages[id as int],
            id < pages.len(),
            first.len() == pages.len(),
            first == old(seen)@,
            had == *old(left),
            l == cursor_view(*lo),
            h == cursor_view(*hi),
            n == page@.cells.len(),
            n < usize::MAX,
            i <= n + 1,
            marked == first.update(id as int, true),
            marked[id as int],
            unseen(marked) + 1 == unseen(first),
            unseen(first) <= pages.len() <= u32::MAX,
            branch_ok(page@, l, h),
            seen@.len() == first.len(),
            i == 0 ==> unseen(seen@) == unseen(marked) && below == 0,
            i > 0 ==> unseen(seen@) + below + 1 <= unseen(marked),
            children_ok(pages, id, below as nat, l, h, i as int, marked, seen@, had, *left),
        decreases n + 1 - i,
    {
        let ghost now = seen@;
        let ghost room = *left;
        let c: u32 = branch_child_at(page, i);
        let low: Option<Vec<u8>> = if i == 0 {
            copy_bound(lo)
        } else {
            separator(page, i - 1)
        };
        let high: Option<Vec<u8>> = if i == n {
            copy_bound(hi)
        } else {
            separator(page, i)
        };
        proof {
            assert(cursor_view(low) == child_lo(page@, i as int, l));
            assert(cursor_view(high) == child_hi(page@, i as int, h));
            assert forall|g: nat| #[trigger] fits(pages, id, g, l, h, first, had) implies g > 0 && (i > 0 ==> below == g
                - 1) && fits(pages, c, (g - 1) as nat, cursor_view(low), cursor_view(high), now, room) && nonempty(
                pages,
                c,
            ) by {
                lemma_child_fits(pages, id, below as nat, g, l, h, i as int, first, now, had, room);
            }
        }
        let high_of_child: u64 = match audit(pager, c, &low, &high, seen, left) {
            Some(height) => height,
            None => {
                proof {
                    assert forall|g: nat| !#[trigger] fits(pages, id, g, l, h, first, had) by {
                        if fits(pages, id, g, l, h, first, had) {
                            assert(fits(pages, c, (g - 1) as nat, cursor_view(low), cursor_view(high), now, room));
                        }
                    }
                }
                return None;
            },
        };
        proof {
            assert forall|g: nat| #[trigger] fits(pages, id, g, l, h, first, had) implies high_of_child == g - 1 by {
                crate::btree::lemma_height_unique(
                    pages,
                    c,
                    (g - 1) as nat,
                    high_of_child as nat,
                    cursor_view(low),
                    cursor_view(high),
                    cursor_view(low),
                    cursor_view(high),
                );
            }
        }
        proof {
            assert(c < pages.len()) by {
                reveal(tree_ok);
            }
        }
        if i > 0 && high_of_child != below {
            return None;
        }
        if !has_entries(pager, c) {
            return None;
        }
        proof {
            if i == 0 {
                lemma_no_children(pages, id, high_of_child as nat, l, h, marked, had);
                assert(now =~= marked) by {
                    assert forall|x: int| 0 <= x < now.len() implies now[x] == marked[x] by {
                        let y = x as u32;
                        assert(now[y as int] == (marked[y as int] || some_owns(pages, page@, below as nat, 0, y)));
                    }
                }
                assert(room == had) by {
                    let nothing = part(pages, page@, below as nat, 0);
                    assert(nothing =~= Set::<Seq<u8>>::empty()) by {
                        assert forall|k: Seq<u8>| !nothing.contains(k) by {
                            lemma_route(branch_keys(page@), k);
                        }
                    }
                }
            }
            lemma_children_step(
                pages,
                id,
                high_of_child as nat,
                l,
                h,
                i as int,
                marked,
                now,
                seen@,
                had,
                room,
                *left,
            );
        }
        below = high_of_child;
        i = i + 1;
    }
    proof {
        lemma_children_done(pages, id, below as nat, l, h, first, seen@, had, *left);
    }
    Some(below + 1)
}

fn copy_bound(bound: &Option<Vec<u8>>) -> (r: Option<Vec<u8>>)
    ensures
        cursor_view(r) == cursor_view(*bound),
{
    match bound {
        Some(b) => Some(copy_bytes(b)),
        None => None,
    }
}

/// The separator in a slot of a branch page.
fn separator(page: &Page, slot: usize) -> (r: Option<Vec<u8>>)
    requires
        slot < page@.cells.len(),
    ensures
        cursor_view(r) == Some(branch_keys(page@)[slot as int]),
{
    match page.cell(slot) {
        Some(cell) => Some(copy_bytes(branch_key(cell))),
        None => None,
    }
}

/// Whether a page is no leaf without entries.
fn has_entries(pager: &Pager, id: u32) -> (r: bool)
    requires
        pager.wf(),
        id < pager@.len(),
    ensures
        r == nonempty(pager@, id),
{
    match pager.read(id) {
        Some(page) => match page.kind() {
            PageKind::Leaf => page.slot_count() > 0,
            _ => true,
        },
        None => false,
    }
}

// ---------------------------------------------------------------------
// Whole files
// ---------------------------------------------------------------------

/// The pages of a free list up to `n`.
spec fn listed_upto(free: Seq<FreeEntry>, n: int, x: u32) -> bool {
    exists|i: int| 0 <= i < n && (#[trigger] free[i]).page == x
}

/// Whether the pages of a free list are data pages apart from what was seen,
/// none twice, and freed by now.
fn free_fits(free: &Vec<FreeEntry>, generation: u64, seen: &mut Vec<bool>) -> (r: bool)
    requires
        old(seen)@.len() <= u32::MAX,
    ensures
        r == ({
            &&& forall|i: int|
                0 <= i < free@.len() ==> {
                    &&& FIRST_DATA_PAGE <= (#[trigger] free@[i]).page < old(seen)@.len()
                    &&& free@[i].generation <= generation
                    &&& !old(seen)@[free@[i].page as int]
                }
            &&& forall|i: int, j: int|
                0 <= i < j < free@.len() ==> (#[trigger] free@[i]).page != (#[trigger] free@[j]).page
        }),
{
    let ghost first = seen@;
    let mut i: usize = 0;
    while i < free.len()
        invariant
            i <= free@.len(),
            first == old(seen)@,
            seen@.len() == first.len(),
            forall|k: int|
                0 <= k < i ==> {
                    &&& FIRST_DATA_PAGE <= (#[trigger] free@[k]).page < first.len()
                    &&& free@[k].generation <= generation
                    &&& !first[free@[k].page as int]
                },
            forall|a: int, b: int| 0 <= a < b < i ==> (#[trigger] free@[a]).page != (#[trigger] free@[b]).page,
            forall|x: u32|
                x < first.len() ==> #[trigger] seen@[x as int] == (first[x as int] || listed_upto(free@, i as int, x)),
        decreases free.len() - i,
    {
        let entry: FreeEntry = free[i];
        if entry.page < FIRST_DATA_PAGE || entry.page as usize >= seen.len() || entry.generation > generation {
            return false;
        }
        let ghost now = seen@;
        if seen[entry.page as usize] {
            proof {
                let x = entry.page;
                assert(now[x as int] == (first[x as int] || listed_upto(free@, i as int, x)));
                if !first[x as int] {
                    let k = choose|k: int| 0 <= k < i && (#[trigger] free@[k]).page == x;
                    assert(free@[k].page == free@[i as int].page);
                }
            }
            return false;
        }
        seen.set(entry.page as usize, true);
        proof {
            let y = entry.page;
            assert(now[y as int] == (first[y as int] || listed_upto(free@, i as int, y)));
            assert forall|a: int, b: int| 0 <= a < b < i + 1 implies (#[trigger] free@[a]).page != (
            #[trigger] free@[b]).page by {
                if b == i && free@[a].page == y {
                    assert(listed_upto(free@, i as int, y));
                }
            }
            assert forall|x: u32| x < first.len() implies #[trigger] seen@[x as int] == (first[x as int] || listed_upto(
                free@,
                i + 1,
                x,
            )) by {
                assert(now[x as int] == (first[x as int] || listed_upto(free@, i as int, x)));
                if x == y {
                    assert(free@[i as int].page == x);
                    assert(listed_upto(free@, i + 1, x));
                } else if listed_upto(free@, i + 1, x) {
                    let k = choose|k: int| 0 <= k < i + 1 && (#[trigger] free@[k]).page == x;
                    assert(k < i);
                    assert(listed_upto(free@, i as int, x));
                } else if listed_upto(free@, i as int, x) {
                    let k = choose|k: int| 0 <= k < i && (#[trigger] free@[k]).page == x;
                    assert(0 <= k < i + 1 && free@[k].page == x);
                }
            }
        }
        i = i + 1;
    }
    true
}

/// As many pages that were not seen.
fn none_seen(n: u32) -> (r: Vec<bool>)
    ensures
        r@.len() == n,
        forall|i: int| 0 <= i < n ==> !#[trigger] r@[i],
{
    let mut out: Vec<bool> = Vec::new();
    let mut i: u32 = 0;
    while i < n
        invariant
            i <= n,
            out@.len() == i,
            forall|k: int| 0 <= k < i ==> !#[trigger] out@[k],
        decreases n - i,
    {
        out.push(false);
        i = i + 1;
    }
    out
}

/// Whether the pages hold the tree that a meta record describes; says how
/// high it is.
pub(super) fn image_fits(pager: &Pager, m: &MetaState) -> (r: Option<u64>)
    requires
        pager.wf(),
    ensures
        match r {
            Some(h) => image_ok(pager@, m@, h as nat),
            None => forall|g: nat| !#[trigger] image_ok(pager@, m@, g),
        },
{
    let ghost pages = pager@;
    if m.generation == u64::MAX || m.free.len() > MAX_FREE_ENTRIES {
        return None;
    }
    proof {
        pager.lemma_wf();
    }
    let mut seen: Vec<bool> = none_seen(pager.page_count());
    let ghost first = seen@;
    let mut left: u64 = m.entries;
    let none: Option<Vec<u8>> = None;
    proof {
        assert forall|g: nat| #[trigger] image_ok(pages, m@, g) implies fits(
            pages,
            m.root,
            g,
            None,
            None,
            first,
            m.entries,
        ) by {
            assert forall|x: u32| #[trigger] owns(pages, m.root, g, x) implies x < first.len() && !first[x as int] by {
                lemma_owns_range(pages, m.root, g, None, None, x);
            }
        }
    }
    let h: u64 = match audit(pager, m.root, &none, &none, &mut seen, &mut left) {
        Some(h) => h,
        None => { return None },
    };
    proof {
        assert forall|g: nat| #[trigger] image_ok(pages, m@, g) implies g == h by {
            crate::btree::lemma_height_unique(pages, m.root, g, h as nat, None, None, None, None);
        }
        assert(m.root < pages.len()) by {
            reveal(tree_ok);
        }
    }
    if left != 0 {
        return None;
    }
    if h > 0 {
        match pager.read(m.root) {
            Some(page) => if page.slot_count() == 0 {
                return None;
            },
            None => { return None },
        }
    }
    let ghost owned = seen@;
    proof {
        assert forall|x: u32| x < owned.len() implies #[trigger] owned[x as int] == owns(pages, m.root, h as nat, x) by {
            assert(owned[x as int] == (first[x as int] || owns(pages, m.root, h as nat, x)));
        }
    }
    if !free_fits(&m.free, m.generation, &mut seen) {
        proof {
            assert forall|g: nat| !#[trigger] image_ok(pages, m@, g) by {
                if image_ok(pages, m@, g) {
                    assert forall|i: int| 0 <= i < m.free@.len() implies {
                        &&& FIRST_DATA_PAGE <= (#[trigger] m.free@[i]).page < owned.len()
                        &&& m.free@[i].generation <= m.generation
                        &&& !owned[m.free@[i].page as int]
                    } by {
                        let x = m@.free[i].page;
                        assert(!owns(pages, m.root, g, x));
                        assert(owned[x as int] == owns(pages, m.root, h as nat, x));
                    }
                    assert forall|i: int, j: int| 0 <= i < j < m.free@.len() implies (#[trigger] m.free@[i]).page != (
                    #[trigger] m.free@[j]).page by {
                        assert(m@.free[i].page != m@.free[j].page);
                    }
                }
            }
        }
        return None;
    }
    proof {
        assert forall|i: int| 0 <= i < m@.free.len() implies {
            &&& FIRST_DATA_PAGE <= (#[trigger] m@.free[i]).page < pages.len()
            &&& m@.free[i].generation <= m@.generation
            &&& !owns(pages, m.root, h as nat, m@.free[i].page)
        } by {
            let x = m.free@[i].page;
            assert(owned[x as int] == owns(pages, m.root, h as nat, x));
        }
    }
    Some(h)
}

/// Whether a page is the page of a meta record.
pub(super) fn is_meta_page(page: &Page, m: &MetaState) -> (r: bool)
    ensures
        r == (page@ == meta_page(m@)),
{
    match page.kind() {
        PageKind::Meta => {},
        _ => { return false },
    }
    if page.extra() != 0 || page.slot_count() != 1 {
        return false;
    }
    let want = m.encode();
    match page.cell(0) {
        Some(cell) => {
            let same: bool = bytes_eq(cell, &want);
            proof {
                if same {
                    assert(page@.cells =~= seq![meta_bytes(m@)]);
                } else {
                    assert(seq![meta_bytes(m@)][0] != page@.cells[0]);
                }
            }
            same
        },
        None => false,
    }
}

} // verus!
