//! Putting an entry into a tree.

use vstd::prelude::*;

use crate::btree::change::{
    changed, child_done, confined, left_lookup, left_owns, lemma_after_child, lemma_branch_cells_exact, lemma_branch_ok,
    lemma_family_range, lemma_placed, lemma_rewritten, lemma_unplaced, settled, Insert,
};
use crate::btree::cell::{
    branch_cell, branch_cell_of, branch_child, branch_child_of, branch_key, branch_key_of, leaf_cell, leaf_cell_of,
    leaf_key, leaf_value_of, lemma_branch_cell, lemma_leaf_cell,
};
use crate::btree::family::{
    children, dividers_ok, family_lookup, family_ok, family_owns, lemma_branch_family, lemma_family_branch,
    lemma_family_cut, lemma_family_frame, member_hi, member_lo,
};
use crate::btree::model::{
    apart, branch_keys, in_bounds, key_len_ok, leaf_keys, leaf_lookup, leaf_ok, lemma_leaf_lookup, lemma_owns_range,
    lemma_route_unique, lookup, owns, sorted, strictly_between, tree_ok, MAX_KEY_LEN, MAX_VALUE_LEN,
};
use crate::btree::node::{
    branch_child_for, build_page, cells_exact, cut_ok, leaf_search, lemma_cut_exists, lemma_with_child, page_cells,
    position_of, set_branch_child, split_point,
};
use crate::btree::space::{cowed, evolves, took, wrote, Space};
use crate::bytes::{bytes_le, bytes_lt, copy_bytes, group_order};
use crate::page::{
    cells_size, cells_view, lemma_size_concat, lemma_size_insert, lemma_size_update, Page, PageKind, PageView,
    PAGE_BODY_LEN, SLOT_LEN,
};

verus! {

/// A leaf page with the cell for `key` put in at `index`.
pub open spec fn leaf_cells_with(
    cells: Seq<Seq<u8>>,
    index: int,
    found: bool,
    cell: Seq<u8>,
) -> Seq<Seq<u8>> {
    if found {
        cells.update(index, cell)
    } else {
        cells.insert(index, cell)
    }
}

/// The cells of a leaf with one entry put in are in order, and hold that
/// entry besides the others.
pub proof fn lemma_leaf_with(
    page: PageView,
    lo: Option<Seq<u8>>,
    hi: Option<Seq<u8>>,
    key: Seq<u8>,
    value: Seq<u8>,
    index: int,
    found: bool,
)
    requires
        leaf_ok(page, lo, hi),
        key_len_ok(key),
        value.len() <= MAX_VALUE_LEN,
        in_bounds(key, lo, hi),
        position_of(leaf_keys(page), key, index, found),
    ensures
        ({
            let cell = leaf_cell_of(key, value);
            let next = PageView { cells: leaf_cells_with(page.cells, index, found, cell), ..page };
            &&& sorted(leaf_keys(next))
            &&& next.cells.len() > 0
            &&& forall|i: int|
                0 <= i < next.cells.len() ==> {
                    &&& key_len_ok(#[trigger] leaf_keys(next)[i])
                    &&& in_bounds(leaf_keys(next)[i], lo, hi)
                    &&& next.cells[i].len() <= 2 + MAX_KEY_LEN + MAX_VALUE_LEN
                }
            &&& forall|k: Seq<u8>| #[trigger]
                leaf_lookup(next, k) == (if k == key {
                    Some(value)
                } else {
                    leaf_lookup(page, k)
                })
            &&& cells_size(next.cells) == (if found {
                cells_size(page.cells) - page.cells[index].len() + cell.len()
            } else {
                cells_size(page.cells) + cell.len() + SLOT_LEN
            })
            &&& cells_size(page.cells) >= (if found {
                page.cells[index].len() + SLOT_LEN
            } else {
                0
            })
            &&& cell.len() == 2 + key.len() + value.len()
        }),
{
    broadcast use group_order;

    lemma_leaf_cell(key, value);
    let cell = leaf_cell_of(key, value);
    let next = PageView { cells: leaf_cells_with(page.cells, index, found, cell), ..page };
    let (ks, ns) = (leaf_keys(page), leaf_keys(next));
    if found {
        lemma_size_update(page.cells, index, cell);
        assert(ns =~= ks);
    } else {
        lemma_size_insert(page.cells, index, cell);
        assert(ns =~= ks.insert(index, key));
    }
    assert forall|i: int| 0 <= i < next.cells.len() implies {
        &&& key_len_ok(#[trigger] ns[i])
        &&& in_bounds(ns[i], lo, hi)
        &&& next.cells[i].len() <= 2 + MAX_KEY_LEN + MAX_VALUE_LEN
    } by {
        if !found {
            if i < index {
                assert(ns[i] == ks[i] && next.cells[i] == page.cells[i]);
            } else if i > index {
                assert(ns[i] == ks[i - 1] && next.cells[i] == page.cells[i - 1]);
            }
        } else if i != index {
            assert(ns[i] == ks[i] && next.cells[i] == page.cells[i]);
        }
    }
    assert(sorted(ns)) by {
        assert forall|i: int, j: int| 0 <= i < j < ns.len() implies bytes_lt(#[trigger] ns[i], #[trigger] ns[j]) by {
            if !found {
                if i < index {
                    assert(ns[i] == ks[i]);
                } else if i > index {
                    assert(ns[i] == ks[i - 1]);
                }
                if j < index {
                    assert(ns[j] == ks[j]);
                } else if j > index {
                    assert(ns[j] == ks[j - 1]);
                }
            } else {
                assert(ns[i] == ks[i] && ns[j] == ks[j]);
            }
        }
    }
    // The order facts above are all that a lookup needs.
    assert forall|k: Seq<u8>| #[trigger] leaf_lookup(next, k) == (if k == key {
        Some(value)
    } else {
        leaf_lookup(page, k)
    }) by {
        if k == key {
            assert(ns[index] == key);
            lemma_sorted_lookup(next, index);
        } else if exists|i: int| 0 <= i < page.cells.len() && #[trigger] ks[i] == k {
            let i = choose|i: int| 0 <= i < page.cells.len() && #[trigger] ks[i] == k;
            let i1 = if !found && i >= index { i + 1 } else { i };
            assert(ns[i1] == k && next.cells[i1] == page.cells[i]);
            lemma_sorted_lookup(next, i1);
            lemma_leaf_lookup(page, lo, hi, i);
        } else {
            if exists|i: int| 0 <= i < next.cells.len() && #[trigger] ns[i] == k {
                let i = choose|i: int| 0 <= i < next.cells.len() && #[trigger] ns[i] == k;
                if !found && i > index {
                    assert(ks[i - 1] == k);
                } else {
                    assert(ks[i] == k);
                }
            }
        }
    }
}

/// In a leaf with keys in order, a key finds its own cell.
pub proof fn lemma_sorted_lookup(page: PageView, i: int)
    requires
        sorted(leaf_keys(page)),
        0 <= i < page.cells.len(),
    ensures
        leaf_lookup(page, leaf_keys(page)[i]) == Some(leaf_value_of(page.cells[i])),
{
    broadcast use group_order;

    let key = leaf_keys(page)[i];
    let k = choose|k: int| 0 <= k < page.cells.len() && #[trigger] leaf_keys(page)[k] == key;
    assert(0 <= k < page.cells.len() && leaf_keys(page)[k] == key);
    if k < i {
        assert(bytes_lt(leaf_keys(page)[k], leaf_keys(page)[i]));
    } else if i < k {
        assert(bytes_lt(leaf_keys(page)[i], leaf_keys(page)[k]));
    }
}

/// A leaf with keys in order, cut in two.
pub proof fn lemma_leaf_cut(
    page: PageView,
    lo: Option<Seq<u8>>,
    hi: Option<Seq<u8>>,
    point: int,
)
    requires
        page.kind == PageKind::Leaf,
        sorted(leaf_keys(page)),
        forall|i: int|
            0 <= i < page.cells.len() ==> {
                &&& key_len_ok(#[trigger] leaf_keys(page)[i])
                &&& in_bounds(leaf_keys(page)[i], lo, hi)
                &&& page.cells[i].len() <= 2 + MAX_KEY_LEN + MAX_VALUE_LEN
            },
        cut_ok(page.cells, point),
    ensures
        ({
            let sep = leaf_keys(page)[point];
            let left = PageView { kind: PageKind::Leaf, extra: 0, cells: page.cells.take(point) };
            let right = PageView { kind: PageKind::Leaf, extra: 0, cells: page.cells.skip(point) };
            &&& leaf_ok(left, lo, Some(sep))
            &&& leaf_ok(right, Some(sep), hi)
            &&& strictly_between(sep, lo, hi)
            &&& forall|k: Seq<u8>| #[trigger]
                leaf_lookup(page, k) == (if bytes_lt(k, sep) {
                    leaf_lookup(left, k)
                } else {
                    leaf_lookup(right, k)
                })
        }),
{
    broadcast use group_order;

    let ks = leaf_keys(page);
    let sep = ks[point];
    let left = PageView { kind: PageKind::Leaf, extra: 0, cells: page.cells.take(point) };
    let right = PageView { kind: PageKind::Leaf, extra: 0, cells: page.cells.skip(point) };
    let (ls, rs) = (leaf_keys(left), leaf_keys(right));
    assert(bytes_lt(ks[0], ks[point]));
    assert(in_bounds(ks[0], lo, hi));
    assert(in_bounds(ks[point], lo, hi));
    assert forall|i: int| 0 <= i < left.cells.len() implies {
        &&& key_len_ok(#[trigger] ls[i])
        &&& in_bounds(ls[i], lo, Some(sep))
        &&& left.cells[i].len() <= 2 + MAX_KEY_LEN + MAX_VALUE_LEN
        &&& ls[i] == ks[i]
    } by {
        assert(ls[i] == ks[i]);
    }
    assert forall|i: int| 0 <= i < right.cells.len() implies {
        &&& key_len_ok(#[trigger] rs[i])
        &&& in_bounds(rs[i], Some(sep), hi)
        &&& right.cells[i].len() <= 2 + MAX_KEY_LEN + MAX_VALUE_LEN
        &&& rs[i] == ks[point + i]
    } by {
        assert(rs[i] == ks[point + i]);
        if i > 0 {
            assert(bytes_lt(ks[point], ks[point + i]));
        }
    }
    assert(sorted(ls)) by {
        assert forall|i: int, j: int| 0 <= i < j < ls.len() implies bytes_lt(#[trigger] ls[i], #[trigger] ls[j]) by {
            assert(ls[i] == ks[i] && ls[j] == ks[j]);
        }
    }
    assert(sorted(rs)) by {
        assert forall|i: int, j: int| 0 <= i < j < rs.len() implies bytes_lt(#[trigger] rs[i], #[trigger] rs[j]) by {
            assert(rs[i] == ks[point + i] && rs[j] == ks[point + j]);
        }
    }
    assert forall|k: Seq<u8>| #[trigger] leaf_lookup(page, k) == (if bytes_lt(k, sep) {
        leaf_lookup(left, k)
    } else {
        leaf_lookup(right, k)
    }) by {
        if exists|i: int| 0 <= i < page.cells.len() && #[trigger] ks[i] == k {
            let i = choose|i: int| 0 <= i < page.cells.len() && #[trigger] ks[i] == k;
            lemma_sorted_lookup(page, i);
            if i < point {
                assert(bytes_lt(ks[i], ks[point]));
                assert(ls[i] == k);
                lemma_sorted_lookup(left, i);
            } else {
                if i > point {
                    assert(bytes_lt(ks[point], ks[i]));
                }
                assert(rs[i - point] == k);
                lemma_sorted_lookup(right, i - point);
            }
        } else {
            if exists|i: int| 0 <= i < left.cells.len() && #[trigger] ls[i] == k {
                let i = choose|i: int| 0 <= i < left.cells.len() && #[trigger] ls[i] == k;
                assert(ks[i] == k);
            }
            if exists|i: int| 0 <= i < right.cells.len() && #[trigger] rs[i] == k {
                let i = choose|i: int| 0 <= i < right.cells.len() && #[trigger] rs[i] == k;
                assert(ks[point + i] == k);
            }
        }
    }
}

impl Space {
    /// Puts an entry into the leaf at `page_id`.
    fn insert_into_leaf(
        &mut self,
        page_id: u32,
        key: &[u8],
        value: &[u8],
        Ghost(lo): Ghost<Option<Seq<u8>>>,
        Ghost(hi): Ghost<Option<Seq<u8>>>,
    ) -> (r: Insert)
        requires
            old(self).ok(),
            old(self).pages().len() + 2 < u32::MAX,
            tree_ok(old(self).pages(), page_id, 0, lo, hi),
            settled(*old(self), page_id, 0),
            key_len_ok(key@),
            value@.len() <= MAX_VALUE_LEN,
            in_bounds(key@, lo, hi),
        ensures
            changed(*old(self), *final(self), page_id, 0, lo, hi, key@, Some(value@), r),
    {
        proof {
            reveal(tree_ok);
            assert(owns(self.pages(), page_id, 0, page_id));
        }
        let ghost a = *self;
        let ghost base = self.pages()[page_id as int];
        let (id, mut page) = self.cow(page_id);
        let ghost mid = *self;
        let cell: Vec<u8> = leaf_cell(key, value);
        let (index, found) = leaf_search(&page, key);
        let ghost next = PageView { cells: leaf_cells_with(base.cells, index as int, found, cell@), ..base };
        proof {
            lemma_leaf_with(base, lo, hi, key@, value@, index as int, found);
        }
        let old_len: usize = match page.cell(index) {
            Some(old_cell) => old_cell.len(),
            None => 0,
        };
        let room: usize = page.reclaimable_space();
        let fast: bool = if found {
            room + old_len >= cell.len()
        } else {
            room >= cell.len() + SLOT_LEN
        };
        if fast {
            if found {
                let _done = page.replace_cell(index, &cell);
            } else {
                let _done = page.insert_cell(index, &cell);
            }
            proof {
                assert(page@ == next);
            }
            self.write(id, page);
            proof {
                let b = *self;
                assert(b.pages()[id as int] == next);
                assert(tree_ok(b.pages(), id, 0, lo, hi));
                assert forall|x: u32| #[trigger] b.usable(x) implies a.usable(x) by {
                    assert(mid.usable(x));
                }
                assert forall|x: u32| #[trigger] a.is_dirty(x) implies b.is_dirty(x) by {
                    assert(mid.is_dirty(x));
                }
                assert forall|x: u32| #[trigger] b.is_dirty(x) implies a.is_dirty(x) || (a.usable(x) && !b.usable(x)) by {
                    assert(mid.is_dirty(x));
                }
                assert forall|x: u32| #[trigger] b.listed(x) implies a.listed(x) || owns(a.pages(), page_id, 0, x) || a.usable(x) by {
                    assert(mid.listed(x));
                }
                assert forall|i: int| 0 <= i < b.free@.len() implies a.free@.contains(#[trigger] b.free@[i])
                    || b.free@[i].generation == a.generation + 1 by {
                    assert(mid.free@[i] == b.free@[i]);
                }
                assert forall|k: Seq<u8>| #[trigger] left_lookup(b.pages(), Insert::Kept(id), 0, k) == (if k == key@ {
                    Some(value@)
                } else {
                    lookup(a.pages(), page_id, 0, k)
                }) by {
                    assert(leaf_lookup(next, k) == lookup(b.pages(), id, 0, k));
                }
            }
            return Insert::Kept(id);
        }
        let mut cells: Vec<Vec<u8>> = page_cells(&page);
        proof {
            assert(cells@.len() == cells_view(cells@).len());
        }
        let ghost cell_view = cell@;
        if found {
            cells[index] = cell;
        } else {
            cells.insert(index, cell);
        }
        proof {
            assert(cells_view(cells@) =~= next.cells);
            assert forall|i: int| 0 <= i < next.cells.len() implies (#[trigger] next.cells[i]).len() + SLOT_LEN
                <= 5126 by {
                assert(key_len_ok(leaf_keys(next)[i]));
            }
            lemma_cut_exists(next.cells, 5126);
        }
        let point: usize = match split_point(&cells) {
            Some(point) => point,
            None => {
                proof {
                    let at = choose|at: int| #[trigger] cut_ok(next.cells, at);
                    assert(cut_ok(cells_view(cells@), at));
                }
                0
            },
        };
        let separator: Vec<u8> = copy_bytes(leaf_key(&cells[point]));
        let ghost sep = leaf_keys(next)[point as int];
        proof {
            assert(cells@[point as int]@ == next.cells[point as int]);
            lemma_leaf_cut(next, lo, hi, point as int);
            assert(next.cells.subrange(0, point as int) =~= next.cells.take(point as int));
            assert(next.cells.subrange(point as int, next.cells.len() as int) =~= next.cells.skip(point as int));
        }
        let left: Page = match build_page(PageKind::Leaf, 0, &cells, 0, point) {
            Some(page) => page,
            None => Page::new(PageKind::Leaf),
        };
        let right: Page = match build_page(PageKind::Leaf, 0, &cells, point, cells.len()) {
            Some(page) => page,
            None => Page::new(PageKind::Leaf),
        };
        let ghost (lv, rv) = (left@, right@);
        let right_id: u32 = self.take();
        let ghost mid2 = *self;
        self.write(id, left);
        self.write(right_id, right);
        proof {
            let b = *self;
            assert(mid.usable(right_id) && !mid.usable(id));
            assert(id != right_id);
            assert(b.pages()[id as int] == lv);
            assert(b.pages()[right_id as int] == rv);
            assert(tree_ok(b.pages(), id, 0, lo, Some(sep)));
            assert(tree_ok(b.pages(), right_id, 0, Some(sep), hi));
            assert(apart(b.pages(), id, right_id, 0));
            assert forall|x: u32| #[trigger] b.usable(x) implies a.usable(x) by {
                assert(mid2.usable(x));
                assert(mid.usable(x));
            }
            assert forall|x: u32| #[trigger] a.is_dirty(x) implies b.is_dirty(x) by {
                assert(mid.is_dirty(x));
                assert(mid2.is_dirty(x));
            }
            assert forall|x: u32| #[trigger] b.is_dirty(x) implies a.is_dirty(x) || (a.usable(x) && !b.usable(x)) by {
                assert(mid2.is_dirty(x));
                if mid.is_dirty(x) {
                    if mid2.usable(x) {
                        assert(mid.usable(x));
                    }
                }
            }
            assert forall|x: u32| #[trigger] b.listed(x) implies a.listed(x) || owns(a.pages(), page_id, 0, x) || a.usable(x) by {
                assert(mid2.listed(x));
                assert(mid.listed(x));
            }
            assert forall|i: int| 0 <= i < b.free@.len() implies a.free@.contains(#[trigger] b.free@[i])
                || b.free@[i].generation == a.generation + 1 by {
                assert(mid2.free@[i] == b.free@[i]);
                let j = choose|j: int| 0 <= j < mid.free@.len() && mid.free@[j] == mid2.free@[i];
                assert(mid.free@[j] == b.free@[i]);
            }
            assert forall|x: u32|
                x < a.pages().len() && !#[trigger] a.usable(x) && !(a.is_dirty(x) && owns(
                    a.pages(),
                    page_id,
                    0,
                    x,
                )) implies b.pages()[x as int] == a.pages()[x as int] by {
                assert(x != right_id) by {
                    if x == right_id {
                        assert(mid.usable(x));
                    }
                }
                assert(x != id);
                assert(mid.pages()[x as int] == a.pages()[x as int]);
                assert(mid2.pages()[x as int] == mid.pages()[x as int]);
            }
            let r = Insert::Split(id, separator, right_id);
            assert forall|x: u32| #[trigger] left_owns(b.pages(), r, 0, x) implies !b.usable(x) && !b.listed(x) && (owns(
                a.pages(),
                page_id,
                0,
                x,
            ) || a.usable(x)) by {
                if x == id {
                    if mid2.usable(x) {
                        assert(mid.usable(x));
                    }
                    if mid2.listed(x) {
                        assert(mid.listed(x));
                    }
                }
            }
            assert forall|k: Seq<u8>| #[trigger] left_lookup(b.pages(), r, 0, k) == (if k == key@ {
                Some(value@)
            } else {
                lookup(a.pages(), page_id, 0, k)
            }) by {
                assert(leaf_lookup(next, k) == (if bytes_lt(k, sep) {
                    leaf_lookup(lv, k)
                } else {
                    leaf_lookup(rv, k)
                }));
            }
        }
        Insert::Split(id, separator, right_id)
    }

    /// Puts an entry into the tree of height `h` at `page_id`.
    pub fn insert_into(
        &mut self,
        page_id: u32,
        key: &[u8],
        value: &[u8],
        Ghost(h): Ghost<nat>,
        Ghost(lo): Ghost<Option<Seq<u8>>>,
        Ghost(hi): Ghost<Option<Seq<u8>>>,
    ) -> (r: Insert)
        requires
            old(self).ok(),
            old(self).pages().len() + 2 * (h + 1) < u32::MAX,
            tree_ok(old(self).pages(), page_id, h, lo, hi),
            settled(*old(self), page_id, h),
            key_len_ok(key@),
            value@.len() <= MAX_VALUE_LEN,
            in_bounds(key@, lo, hi),
        ensures
            changed(*old(self), *final(self), page_id, h, lo, hi, key@, Some(value@), r),
            r matches Insert::Kept(id) ==> (h > 0 ==> final(self).pages()[id as int].cells.len() >= old(
                self,
            ).pages()[page_id as int].cells.len()),
        decreases h, 1nat,
    {
        proof {
            reveal(tree_ok);
        }
        let kind: PageKind = match self.pager.read(page_id) {
            Some(page) => page.kind(),
            None => PageKind::Free,
        };
        match kind {
            PageKind::Branch => self.insert_into_branch(page_id, key, value, Ghost(h), Ghost(lo), Ghost(hi)),
            _ => self.insert_into_leaf(page_id, key, value, Ghost(lo), Ghost(hi)),
        }
    }

    /// Puts an entry into the branch tree at `page_id`.
    #[verifier::rlimit(40)]
    fn insert_into_branch(
        &mut self,
        page_id: u32,
        key: &[u8],
        value: &[u8],
        Ghost(h): Ghost<nat>,
        Ghost(lo): Ghost<Option<Seq<u8>>>,
        Ghost(hi): Ghost<Option<Seq<u8>>>,
    ) -> (r: Insert)
        requires
            h > 0,
            old(self).ok(),
            old(self).pages().len() + 2 * (h + 1) < u32::MAX,
            tree_ok(old(self).pages(), page_id, h, lo, hi),
            settled(*old(self), page_id, h),
            key_len_ok(key@),
            value@.len() <= MAX_VALUE_LEN,
            in_bounds(key@, lo, hi),
        ensures
            changed(*old(self), *final(self), page_id, h, lo, hi, key@, Some(value@), r),
            r matches Insert::Kept(id) ==> (h > 0 ==> final(self).pages()[id as int].cells.len() >= old(
                self,
            ).pages()[page_id as int].cells.len()),
        decreases h, 0nat,
    {
        broadcast use group_order;

        let ghost a = *self;
        let ghost g = (h - 1) as nat;
        let ghost base = self.pages()[page_id as int];
        let ghost cs = children(base);
        let ghost keys = branch_keys(base);
        proof {
            lemma_branch_family(self.pages(), page_id, h, lo, hi);
            assert(owns(self.pages(), page_id, h, page_id));
        }
        let (slot, child_id) = match self.pager.read(page_id) {
            Some(page) => branch_child_for(page, key),
            None => (0, 0),
        };
        let ghost (clo, chi) = (member_lo(keys, slot as int, lo), member_hi(keys, slot as int, hi));
        proof {
            reveal(family_ok);
            assert(cs[slot as int] == child_id);
            lemma_route_unique(keys, key@, slot as int);
            assert forall|x: u32| #[trigger] owns(a.pages(), child_id, g, x) implies !a.usable(x) && !a.listed(x) by {
                assert(owns(a.pages(), cs[slot as int], g, x));
                assert(family_owns(a.pages(), cs, g, x));
                assert(owns(a.pages(), page_id, h, x));
            }
            assert(in_bounds(key@, clo, chi)) by {
                if slot > 0 {
                    assert(bytes_le(keys[slot - 1], key@));
                }
            }
        }
        let sub: Insert = self.insert_into(child_id, key, value, Ghost(g), Ghost(clo), Ghost(chi));
        let ghost b = *self;
        proof {
            lemma_after_child(a, b, page_id, h, lo, hi, slot as int, clo, chi, key@, Some(value@), sub);
        }
        match sub {
            Insert::Kept(new_child) => {
                let ghost ds = cs.update(slot as int, new_child);
                if new_child == child_id {
                    proof {
                        assert(ds =~= cs);
                        lemma_unplaced(a, b, page_id, h, lo, hi, key@, Some(value@));
                    }
                    return Insert::Kept(page_id);
                }
                let (id, mut page) = self.cow(page_id);
                let ghost mid = *self;
                proof {
                    lemma_branch_cells_exact(base, lo, hi);
                    lemma_with_child(base, slot as int, new_child);
                }
                set_branch_child(&mut page, slot, new_child);
                let ghost pv = page@;
                self.write(id, page);
                proof {
                    let c = *self;
                    assert(branch_keys(pv) == keys);
                    assert(children(pv) == ds);
                    lemma_rewritten(b, mid, c, page_id, id, pv);
                    lemma_placed(a, b, c, page_id, h, lo, hi, key@, Some(value@), id, pv, None);
                }
                Insert::Kept(id)
            },
            Insert::Split(left, separator, right) => {
                let ghost sep = separator@;
                let ghost ds = cs.update(slot as int, left).insert(slot + 1, right);
                let ghost ks = keys.insert(slot as int, sep);
                let (id, mut page) = self.cow(page_id);
                let ghost mid = *self;
                proof {
                    lemma_branch_cells_exact(base, lo, hi);
                    lemma_with_child(base, slot as int, left);
                    lemma_branch_cell(sep, right);
                }
                set_branch_child(&mut page, slot, left);
                let ghost wide = page@;
                let cell: Vec<u8> = branch_cell(&separator, right);
                let ghost full = PageView { cells: wide.cells.insert(slot as int, cell@), ..wide };
                proof {
                    lemma_insert_branch_cell(wide, slot as int, sep, right);
                    assert(branch_keys(full) == ks);
                    assert(children(full) == ds);
                    lemma_size_insert(wide.cells, slot as int, cell@);
                }
                if page.reclaimable_space() >= cell.len() + SLOT_LEN {
                    let _done = page.insert_cell(slot, &cell);
                    let ghost pv = page@;
                    self.write(id, page);
                    proof {
                        let c = *self;
                        assert(pv == full);
                        lemma_rewritten(b, mid, c, page_id, id, pv);
                    lemma_placed(a, b, c, page_id, h, lo, hi, key@, Some(value@), id, pv, None);
                    }
                    return Insert::Kept(id);
                }
                let mut cells: Vec<Vec<u8>> = page_cells(&page);
                proof {
                    assert(cells@.len() == cells_view(cells@).len());
                }
                cells.insert(slot, cell);
                let leftmost: u32 = page.extra();
                proof {
                    assert(cells_view(cells@) =~= full.cells);
                    assert forall|i: int| 0 <= i < full.cells.len() implies (#[trigger] full.cells[i]).len() + SLOT_LEN
                        <= 1034 by {
                        assert(branch_keys(full)[i] == ks[i]);
                        reveal(family_ok);
                        assert(key_len_ok(ks[i]));
                    }
                    lemma_cut_exists(full.cells, 1034);
                }
                let point: usize = match split_point(&cells) {
                    Some(point) => point,
                    None => {
                        proof {
                            let at = choose|at: int| #[trigger] cut_ok(full.cells, at);
                            assert(cut_ok(cells_view(cells@), at));
                        }
                        0
                    },
                };
                proof {
                    assert(cells@[point as int]@ == full.cells[point as int]);
                    assert(ks[point as int] == branch_key_of(full.cells[point as int]));
                }
                assert(point < cells.len());
                let promoted: Vec<u8> = copy_bytes(branch_key(&cells[point]));
                let right_leftmost: u32 = branch_child(&cells[point]);
                proof {
                    lemma_cut_page(full, point as int);
                }
                let left_page: Page = match build_page(PageKind::Branch, leftmost, &cells, 0, point) {
                    Some(page) => page,
                    None => Page::new(PageKind::Branch),
                };
                let right_page: Page = match build_page(
                    PageKind::Branch,
                    right_leftmost,
                    &cells,
                    point + 1,
                    cells.len(),
                ) {
                    Some(page) => page,
                    None => Page::new(PageKind::Branch),
                };
                let ghost (lv, rv) = (left_page@, right_page@);
                let right_id: u32 = self.take();
                let ghost mid2 = *self;
                self.write(id, left_page);
                let ghost mid3 = *self;
                self.write(right_id, right_page);
                proof {
                    let c = *self;
                    let r = Insert::Split(id, promoted, right_id);
                    lemma_placed_two(
                        a, b, mid, mid2, mid3, c, page_id, h, lo, hi, key@, Some(value@), id, right_id, full,
                        lv, rv, point as int, r,
                    );
                }
                Insert::Split(id, promoted, right_id)
            },
        }
    }
}

/// A branch page with a cell put in has one more separator and child.
pub proof fn lemma_insert_branch_cell(page: PageView, slot: int, sep: Seq<u8>, right: u32)
    requires
        cells_exact(page),
        0 <= slot <= page.cells.len(),
        key_len_ok(sep),
    ensures
        ({
            let full = PageView { cells: page.cells.insert(slot, branch_cell_of(sep, right)), ..page };
            &&& cells_exact(full)
            &&& branch_keys(full) == branch_keys(page).insert(slot, sep)
            &&& children(full) == children(page).insert(slot + 1, right)
        }),
{
    lemma_branch_cell(sep, right);
    let cell = branch_cell_of(sep, right);
    let full = PageView { cells: page.cells.insert(slot, cell), ..page };
    assert forall|i: int| 0 <= i < full.cells.len() implies {
        &&& (#[trigger] full.cells[i]).len() == 6 + branch_key_of(full.cells[i]).len()
        &&& branch_key_of(full.cells[i]).len() < 0x1_0000
    } by {
        if i < slot {
            assert(full.cells[i] == page.cells[i]);
        } else if i > slot {
            assert(full.cells[i] == page.cells[i - 1]);
        }
    }
    assert(branch_keys(full) =~= branch_keys(page).insert(slot, sep));
    let (ds, es) = (children(full), children(page).insert(slot + 1, right));
    assert forall|i: int| 0 <= i < ds.len() implies ds[i] == es[i] by {
        if 1 <= i <= slot {
            assert(full.cells[i - 1] == page.cells[i - 1]);
        } else if i == slot + 1 {
            assert(full.cells[i - 1] == cell);
        } else if i > slot + 1 {
            assert(full.cells[i - 1] == page.cells[i - 2]);
        }
    }
    assert(ds =~= es);
}

/// The two pages that a branch page is cut into.
pub proof fn lemma_cut_page(full: PageView, point: int)
    requires
        cells_exact(full),
        cut_ok(full.cells, point),
    ensures
        ({
            let left = PageView {
                kind: PageKind::Branch,
                extra: full.extra,
                cells: full.cells.subrange(0, point),
            };
            let right = PageView {
                kind: PageKind::Branch,
                extra: branch_child_of(full.cells[point]),
                cells: full.cells.subrange(point + 1, full.cells.len() as int),
            };
            &&& cells_size(left.cells) <= PAGE_BODY_LEN
            &&& cells_size(right.cells) <= PAGE_BODY_LEN
            &&& cells_exact(left)
            &&& cells_exact(right)
            &&& branch_keys(left) == branch_keys(full).take(point)
            &&& branch_keys(right) == branch_keys(full).skip(point + 1)
            &&& children(left) == children(full).take(point + 1)
            &&& children(right) == children(full).skip(point + 1)
        }),
{
    let left = PageView { kind: PageKind::Branch, extra: full.extra, cells: full.cells.subrange(0, point) };
    let right = PageView {
        kind: PageKind::Branch,
        extra: branch_child_of(full.cells[point]),
        cells: full.cells.subrange(point + 1, full.cells.len() as int),
    };
    assert(left.cells =~= full.cells.take(point));
    let tail = full.cells.skip(point);
    assert(tail =~= seq![full.cells[point]] + right.cells);
    lemma_size_concat(seq![full.cells[point]], right.cells);
    assert forall|i: int| 0 <= i < left.cells.len() implies {
        &&& (#[trigger] left.cells[i]).len() == 6 + branch_key_of(left.cells[i]).len()
        &&& branch_key_of(left.cells[i]).len() < 0x1_0000
    } by {
        assert(left.cells[i] == full.cells[i]);
    }
    assert forall|i: int| 0 <= i < right.cells.len() implies {
        &&& (#[trigger] right.cells[i]).len() == 6 + branch_key_of(right.cells[i]).len()
        &&& branch_key_of(right.cells[i]).len() < 0x1_0000
    } by {
        assert(right.cells[i] == full.cells[point + 1 + i]);
    }
    assert(branch_keys(left) =~= branch_keys(full).take(point));
    assert(branch_keys(right) =~= branch_keys(full).skip(point + 1));
    assert(children(left) =~= children(full).take(point + 1));
    assert(children(right) =~= children(full).skip(point + 1));
}

/// Two pages over the two parts of the family, written where they may be.
proof fn lemma_placed_two(
    a: Space,
    b: Space,
    mid: Space,
    mid2: Space,
    mid3: Space,
    c: Space,
    page_id: u32,
    h: nat,
    lo: Option<Seq<u8>>,
    hi: Option<Seq<u8>>,
    key: Seq<u8>,
    value: Option<Seq<u8>>,
    id: u32,
    right_id: u32,
    full: PageView,
    lv: PageView,
    rv: PageView,
    point: int,
    r: Insert,
)
    requires
        a.ok(),
        tree_ok(a.pages(), page_id, h, lo, hi),
        settled(a, page_id, h),
        child_done(a, b, page_id, h, lo, hi, children(full), branch_keys(full), key, value),
        cowed(b, mid, page_id, id),
        took(mid, mid2, right_id),
        wrote(mid2, mid3, id, lv),
        wrote(mid3, c, right_id, rv),
        0 <= point < branch_keys(full).len(),
        lv.kind == PageKind::Branch,
        rv.kind == PageKind::Branch,
        cells_size(lv.cells) <= PAGE_BODY_LEN,
        cells_size(rv.cells) <= PAGE_BODY_LEN,
        cells_exact(lv),
        cells_exact(rv),
        branch_keys(lv) == branch_keys(full).take(point),
        branch_keys(rv) == branch_keys(full).skip(point + 1),
        children(lv) == children(full).take(point + 1),
        children(rv) == children(full).skip(point + 1),
        r matches Insert::Split(l, sep, rr) && l == id && rr == right_id && sep@ == branch_keys(full)[point],
    ensures
        changed(a, c, page_id, h, lo, hi, key, value, r),
{
    let g = (h - 1) as nat;
    let (ds, ks) = (children(full), branch_keys(full));
    let sep = ks[point];
    lemma_family_cut(b.pages(), ds, ks, g, lo, hi, point);
    let (cl, kl) = (children(lv), branch_keys(lv));
    let (cr, kr) = (children(rv), branch_keys(rv));
    assert(dividers_ok(kl, lo, Some(sep)) && dividers_ok(kr, Some(sep), hi)) by {
        reveal(family_ok);
    }
    lemma_branch_ok(lv, lo, Some(sep));
    lemma_branch_ok(rv, Some(sep), hi);
    assert(owns(a.pages(), page_id, h, page_id));
    lemma_owns_range(a.pages(), page_id, h, lo, hi, page_id);
    // The two halves as if the left page alone had been written.
    assert(mid.usable(right_id) && !mid.usable(id));
    assert(id != right_id);
    assert(b.usable(right_id)) by {
        assert(mid.usable(right_id));
    }
    assert(a.usable(right_id));
    assert forall|x: u32| #[trigger] family_owns(b.pages(), ds, g, x) implies {
        &&& x != id
        &&& x != right_id
        &&& x < c.pages().len()
        &&& b.pages()[x as int] == c.pages()[x as int]
    } by {
        lemma_family_range(b.pages(), ds, ks, g, lo, hi, x);
        assert(!b.usable(x));
        assert(mid.pages()[x as int] == b.pages()[x as int]);
        assert(mid2.pages()[x as int] == mid.pages()[x as int]);
    }
    assert forall|x: u32| #[trigger] family_owns(b.pages(), cl, g, x) implies x < c.pages().len()
        && b.pages()[x as int] == c.pages()[x as int] by {
        assert(family_owns(b.pages(), ds, g, x));
    }
    assert forall|x: u32| #[trigger] family_owns(b.pages(), cr, g, x) implies x < c.pages().len()
        && b.pages()[x as int] == c.pages()[x as int] by {
        assert(family_owns(b.pages(), ds, g, x));
    }
    lemma_family_frame(b.pages(), c.pages(), cl, kl, g, lo, Some(sep));
    lemma_family_frame(b.pages(), c.pages(), cr, kr, g, Some(sep), hi);
    assert(c.pages()[id as int] == lv);
    assert(c.pages()[right_id as int] == rv);
    assert(!family_owns(c.pages(), cl, g, id)) by {
        if family_owns(c.pages(), cl, g, id) {
            assert(family_owns(b.pages(), cl, g, id));
            assert(family_owns(b.pages(), ds, g, id));
        }
    }
    assert(!family_owns(c.pages(), cr, g, right_id)) by {
        if family_owns(c.pages(), cr, g, right_id) {
            assert(family_owns(b.pages(), cr, g, right_id));
            assert(family_owns(b.pages(), ds, g, right_id));
        }
    }
    lemma_family_branch(c.pages(), id, h, lo, Some(sep));
    lemma_family_branch(c.pages(), right_id, h, Some(sep), hi);
    lemma_branch_family(c.pages(), id, h, lo, Some(sep));
    lemma_branch_family(c.pages(), right_id, h, Some(sep), hi);
    assert forall|x: u32| #[trigger] left_owns(c.pages(), r, h, x) implies x == id || x == right_id || family_owns(
        b.pages(),
        ds,
        g,
        x,
    ) by {
        if owns(c.pages(), id, h, x) && x != id {
            assert(family_owns(c.pages(), cl, g, x));
            assert(family_owns(b.pages(), cl, g, x));
        } else if owns(c.pages(), right_id, h, x) && x != right_id {
            assert(family_owns(c.pages(), cr, g, x));
            assert(family_owns(b.pages(), cr, g, x));
        }
    }
    assert(apart(c.pages(), id, right_id, h)) by {
        assert forall|x: u32| !(#[trigger] owns(c.pages(), id, h, x) && owns(c.pages(), right_id, h, x)) by {
            if owns(c.pages(), id, h, x) && owns(c.pages(), right_id, h, x) {
                if x == id {
                    assert(family_owns(c.pages(), cr, g, x));
                    assert(family_owns(b.pages(), cr, g, x));
                    assert(family_owns(b.pages(), ds, g, x));
                } else if x == right_id {
                    assert(family_owns(c.pages(), cl, g, x));
                    assert(family_owns(b.pages(), cl, g, x));
                    assert(family_owns(b.pages(), ds, g, x));
                } else {
                    assert(family_owns(c.pages(), cl, g, x) && family_owns(c.pages(), cr, g, x));
                    assert(family_owns(b.pages(), cl, g, x) && family_owns(b.pages(), cr, g, x));
                }
            }
        }
    }
    // The allocation state.
    assert forall|x: u32| #[trigger] c.usable(x) implies a.usable(x) && b.usable(x) && x != id && x != right_id by {
        assert(mid3.usable(x));
        assert(mid2.usable(x));
        assert(mid.usable(x));
        assert(b.usable(x));
    }
    assert forall|x: u32| #[trigger] a.is_dirty(x) implies c.is_dirty(x) by {
        assert(b.is_dirty(x));
        assert(mid.is_dirty(x));
        assert(mid2.is_dirty(x));
        assert(mid3.is_dirty(x));
    }
    assert forall|x: u32| #[trigger] c.is_dirty(x) implies a.is_dirty(x) || (a.usable(x) && !c.usable(x)) by {
        assert(mid3.is_dirty(x));
        assert(mid2.is_dirty(x));
        if x != right_id {
            assert(mid.is_dirty(x));
            if b.is_dirty(x) {
                if !a.is_dirty(x) {
                    assert(a.usable(x) && !b.usable(x));
                }
            } else {
                assert(b.usable(x) && !mid.usable(x));
                if c.usable(x) {
                    assert(mid3.usable(x));
                    assert(mid2.usable(x));
                    assert(mid.usable(x));
                }
            }
        }
    }
    assert(evolves(a, c));
    if !b.is_dirty(page_id) {
        assert(b.usable(id));
        assert(a.usable(id));
    }
    assert(confined(a, c, page_id, h)) by {
        assert forall|x: u32|
            x < a.pages().len() && !#[trigger] a.usable(x) && !(a.is_dirty(x) && owns(
                a.pages(),
                page_id,
                h,
                x,
            )) implies c.pages()[x as int] == a.pages()[x as int] by {
            assert(x != right_id);
            assert(x != id) by {
                if x == id {
                    assert(x == page_id);
                    assert(b.is_dirty(page_id));
                }
            }
            assert(b.pages()[x as int] == a.pages()[x as int]);
            assert(mid.pages()[x as int] == b.pages()[x as int]);
            assert(mid2.pages()[x as int] == mid.pages()[x as int]);
        }
    }
    assert forall|x: u32| #[trigger] c.listed(x) implies {
        &&& a.listed(x) || owns(a.pages(), page_id, h, x) || a.usable(x)
        &&& b.listed(x) || (x == page_id && id != page_id)
        &&& x != id
        &&& x != right_id
    } by {
        assert(mid3.listed(x));
        assert(mid2.listed(x));
        assert(mid.listed(x));
    }
    assert forall|i: int| 0 <= i < c.free@.len() implies a.free@.contains(#[trigger] c.free@[i]) || c.free@[i].generation
        == a.generation + 1 by {
        assert(mid2.free@[i] == c.free@[i]);
        let m = choose|m: int| 0 <= m < mid.free@.len() && mid.free@[m] == mid2.free@[i];
        assert(mid.free@[m] == c.free@[i]);
        if b.free@.contains(mid.free@[m]) {
            let j = choose|j: int| 0 <= j < b.free@.len() && b.free@[j] == mid.free@[m];
            assert(b.free@[j] == c.free@[i]);
        }
    }
    assert forall|x: u32| #[trigger] left_owns(c.pages(), r, h, x) implies !c.usable(x) && !c.listed(x) && (owns(
        a.pages(),
        page_id,
        h,
        x,
    ) || a.usable(x)) by {
        if x != id && x != right_id {
            assert(family_owns(b.pages(), ds, g, x));
        }
    }
    assert forall|k: Seq<u8>| #[trigger] left_lookup(c.pages(), r, h, k) == (if k == key {
        value
    } else {
        lookup(a.pages(), page_id, h, k)
    }) by {
        assert(family_lookup(b.pages(), ds, ks, g, k) == (if bytes_lt(k, sep) {
            family_lookup(b.pages(), cl, kl, g, k)
        } else {
            family_lookup(b.pages(), cr, kr, g, k)
        }));
        assert(family_lookup(c.pages(), cl, kl, g, k) == family_lookup(b.pages(), cl, kl, g, k));
        assert(family_lookup(c.pages(), cr, kr, g, k) == family_lookup(b.pages(), cr, kr, g, k));
        assert(lookup(c.pages(), id, h, k) == family_lookup(c.pages(), cl, kl, g, k));
        assert(lookup(c.pages(), right_id, h, k) == family_lookup(c.pages(), cr, kr, g, k));
    }
}

} // verus!
