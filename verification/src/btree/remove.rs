//! Taking an entry out of a tree.

use vstd::prelude::*;

use crate::btree::change::{
    changed, child_done, confined, left_lookup, lemma_after_child, lemma_branch_cells_exact, lemma_others, lemma_placed,
    lemma_rewritten, lemma_step, listed_since, rewritten, settled, Insert,
};
use crate::btree::family::{
    children, divider_beside, family_lookup, family_ok, family_owns, lemma_branch_family, lemma_family_drop,
    lemma_family_frame, member_hi, member_lo, others_own,
};
use crate::btree::insert::lemma_sorted_lookup;
use crate::btree::meta::{FreeEntry, MAX_FREE_ENTRIES};
use crate::btree::model::{
    branch_keys, child, leaf_keys, leaf_lookup, leaf_ok, lemma_leaf_lookup, lemma_owns_range, lemma_route,
    lemma_route_unique, lookup, owns, route, sorted, tree_ok, FIRST_DATA_PAGE,
};
use crate::btree::node::{
    branch_child_at, branch_child_for, cells_exact, leaf_search, lemma_with_child, set_branch_child,
};
use crate::btree::space::{cowed, evolves, wrote, Space};
use crate::bytes::{bytes_lt, group_order};
use crate::page::{lemma_size_remove, PageKind, PageView, PAGE_BODY_LEN};

verus! {

/// What a removal did to the subtree it was applied to.
pub struct Removal {
    pub page: u32,
    pub removed: bool,
    /// The subtree holds nothing any more.
    pub empty: bool,
}

/// Everything a removal of `key` promises.
pub open spec fn taken_out(
    a: Space,
    b: Space,
    id: u32,
    h: nat,
    lo: Option<Seq<u8>>,
    hi: Option<Seq<u8>>,
    key: Seq<u8>,
    r: Removal,
) -> bool {
    &&& r.removed == (lookup(a.pages(), id, h, key) is Some)
    &&& !r.removed ==> b == a && r.page == id && !r.empty
    &&& r.removed && !r.empty ==> changed(a, b, id, h, lo, hi, key, None, Insert::Kept(r.page))
    &&& r.empty ==> {
        &&& b.ok()
        &&& evolves(a, b)
        &&& b.pages().len() <= a.pages().len() + 2 * (h + 1)
        &&& confined(a, b, id, h)
        &&& listed_since(a, b, id, h)
        &&& FIRST_DATA_PAGE <= r.page < b.pages().len()
        &&& !b.usable(r.page)
        &&& !b.listed(r.page)
        &&& owns(a.pages(), id, h, r.page) || a.usable(r.page)
        &&& forall|k: Seq<u8>| k != key ==> #[trigger] lookup(a.pages(), id, h, k) is None
        &&& h > 0 ==> a.pages()[id as int].cells.len() == 0
        &&& h == 0 ==> {
            &&& tree_ok(b.pages(), r.page, h, lo, hi)
            &&& b.pages()[r.page as int].cells.len() == 0
        }
    }
}

/// A leaf without one of its cells.
proof fn lemma_leaf_without(page: PageView, lo: Option<Seq<u8>>, hi: Option<Seq<u8>>, index: int)
    requires
        leaf_ok(page, lo, hi),
        0 <= index < page.cells.len(),
    ensures
        ({
            let next = PageView { cells: page.cells.remove(index), ..page };
            &&& leaf_ok(next, lo, hi)
            &&& forall|k: Seq<u8>| #[trigger]
                leaf_lookup(next, k) == (if k == leaf_keys(page)[index] {
                    None
                } else {
                    leaf_lookup(page, k)
                })
        }),
{
    broadcast use group_order;

    let next = PageView { cells: page.cells.remove(index), ..page };
    let (ks, ns) = (leaf_keys(page), leaf_keys(next));
    let key = ks[index];
    lemma_size_remove(page.cells, index);
    assert forall|i: int| 0 <= i < ns.len() implies #[trigger] ns[i] == ks[if i < index { i } else { i + 1 }]
        && next.cells[i] == page.cells[if i < index { i } else { i + 1 }] by {
    }
    assert(sorted(ns));
    assert(leaf_ok(next, lo, hi));
    assert forall|k: Seq<u8>| #[trigger] leaf_lookup(next, k) == (if k == key {
        None
    } else {
        leaf_lookup(page, k)
    }) by {
        if exists|i: int| 0 <= i < next.cells.len() && #[trigger] ns[i] == k {
            let i = choose|i: int| 0 <= i < next.cells.len() && #[trigger] ns[i] == k;
            let i0 = if i < index { i } else { i + 1 };
            assert(ks[i0] == k);
            if k == key {
                if i0 < index {
                    assert(bytes_lt(ks[i0], ks[index]));
                } else {
                    assert(bytes_lt(ks[index], ks[i0]));
                }
            }
            lemma_sorted_lookup(next, i);
            lemma_sorted_lookup(page, i0);
        } else if exists|i: int| 0 <= i < page.cells.len() && #[trigger] ks[i] == k {
            let i = choose|i: int| 0 <= i < page.cells.len() && #[trigger] ks[i] == k;
            if i < index {
                assert(ns[i] == k);
            } else if i > index {
                assert(ns[i - 1] == k);
            }
        }
    }
}

/// The page a branch has once the child at `slot` is dropped.
pub open spec fn without_child(page: PageView, slot: int) -> PageView {
    if slot == 0 {
        PageView { extra: child(page, 1), cells: page.cells.remove(0), ..page }
    } else {
        PageView { cells: page.cells.remove(slot - 1), ..page }
    }
}

proof fn lemma_without_child(page: PageView, slot: int)
    requires
        cells_exact(page),
        0 <= slot <= page.cells.len(),
        page.cells.len() > 0,
        crate::page::cells_size(page.cells) <= PAGE_BODY_LEN,
    ensures
        ({
            let next = without_child(page, slot);
            let gone = divider_beside(slot);
            &&& cells_exact(next)
            &&& next.kind == page.kind
            &&& crate::page::cells_size(next.cells) <= PAGE_BODY_LEN
            &&& branch_keys(next) == branch_keys(page).remove(gone)
            &&& children(next) == children(page).remove(slot)
        }),
{
    let next = without_child(page, slot);
    let gone = divider_beside(slot);
    lemma_size_remove(page.cells, gone);
    assert forall|i: int| 0 <= i < next.cells.len() implies #[trigger] next.cells[i] == page.cells[if i < gone {
        i
    } else {
        i + 1
    }] by {
    }
    assert(branch_keys(next) =~= branch_keys(page).remove(gone));
    let (ds, es) = (children(next), children(page).remove(slot));
    assert forall|i: int| 0 <= i < ds.len() implies ds[i] == es[i] by {
        if slot == 0 {
            if i > 0 {
                assert(next.cells[i - 1] == page.cells[i]);
            }
        } else if i > 0 {
            assert(next.cells[i - 1] == page.cells[if i - 1 < gone { i - 1 } else { i }]);
        }
    }
    assert(ds =~= es);
}

/// After a child is emptied, the other children are a family.
proof fn lemma_after_drop(
    a: Space,
    b: Space,
    page_id: u32,
    h: nat,
    lo: Option<Seq<u8>>,
    hi: Option<Seq<u8>>,
    slot: int,
    key: Seq<u8>,
)
    requires
        h > 0,
        a.ok(),
        tree_ok(a.pages(), page_id, h, lo, hi),
        settled(a, page_id, h),
        0 <= slot <= a.pages()[page_id as int].cells.len(),
        a.pages()[page_id as int].cells.len() > 0,
        slot == route(branch_keys(a.pages()[page_id as int]), key),
        b.ok(),
        evolves(a, b),
        b.pages().len() <= a.pages().len() + 2 * h,
        confined(a, b, children(a.pages()[page_id as int])[slot], (h - 1) as nat),
        listed_since(a, b, children(a.pages()[page_id as int])[slot], (h - 1) as nat),
        forall|k: Seq<u8>|
            k != key ==> #[trigger] lookup(
                a.pages(),
                children(a.pages()[page_id as int])[slot],
                (h - 1) as nat,
                k,
            ) is None,
    ensures
        child_done(
            a,
            b,
            page_id,
            h,
            lo,
            hi,
            children(a.pages()[page_id as int]).remove(slot),
            branch_keys(a.pages()[page_id as int]).remove(divider_beside(slot)),
            key,
            None,
        ),
        forall|x: u32| #[trigger]
            family_owns(
                b.pages(),
                children(a.pages()[page_id as int]).remove(slot),
                (h - 1) as nat,
                x,
            ) ==> others_own(
                a.pages(),
                children(a.pages()[page_id as int]),
                (h - 1) as nat,
                slot,
                x,
            ),
{
    lemma_branch_family(a.pages(), page_id, h, lo, hi);
    lemma_others(a, b, page_id, h, lo, hi, slot);
    let base = a.pages()[page_id as int];
    let g = (h - 1) as nat;
    let (cs, keys) = (children(base), branch_keys(base));
    let ds = cs.remove(slot);
    let ks = keys.remove(divider_beside(slot));
    lemma_family_drop(a.pages(), cs, keys, g, lo, hi, slot);
    assert forall|x: u32| #[trigger] family_owns(a.pages(), ds, g, x) implies x < b.pages().len() && a.pages()[x as int]
        == b.pages()[x as int] by {
        assert(others_own(a.pages(), cs, g, slot, x));
    }
    lemma_family_frame(a.pages(), b.pages(), ds, ks, g, lo, hi);
    assert forall|x: u32| #[trigger] family_owns(b.pages(), ds, g, x) implies x != page_id && !b.usable(x)
        && !b.listed(x) && (owns(a.pages(), page_id, h, x) || a.usable(x)) && others_own(a.pages(), cs, g, slot, x) by {
        assert(family_owns(a.pages(), ds, g, x));
        assert(others_own(a.pages(), cs, g, slot, x));
    }
    assert forall|k: Seq<u8>| #[trigger] family_lookup(b.pages(), ds, ks, g, k) == (if k == key {
        None
    } else {
        lookup(a.pages(), page_id, h, k)
    }) by {
        assert(family_lookup(b.pages(), ds, ks, g, k) == family_lookup(a.pages(), ds, ks, g, k));
        if route(keys, k) == slot {
            if k != key {
                assert(lookup(a.pages(), cs[slot], g, k) is None);
            }
        }
    }
}

/// A page made writable, another listed, and the first written.
proof fn lemma_rewritten_drop(
    b: Space,
    mid: Space,
    mid2: Space,
    c: Space,
    page_id: u32,
    id: u32,
    pv: PageView,
    gone: u32,
)
    requires
        cowed(b, mid, page_id, id),
        mid2.ok(),
        mid2.pager == mid.pager,
        mid2.dirty@ == mid.dirty@,
        mid2.generation == mid.generation,
        mid2.free@ == (if mid.free@.len() < MAX_FREE_ENTRIES {
            mid.free@.push(FreeEntry { generation: (mid.generation + 1) as u64, page: gone })
        } else {
            mid.free@
        }),
        forall|x: u32| #[trigger] mid2.usable(x) <==> mid.usable(x),
        forall|x: u32| #[trigger] mid2.listed(x) ==> mid.listed(x) || x == gone,
        gone != id,
        wrote(mid2, c, id, pv),
    ensures
        rewritten(b, c, page_id, id, pv, Some(gone)),
{
    assert forall|x: u32| #[trigger] mid2.is_dirty(x) <==> mid.is_dirty(x) by {
    }
    assert forall|x: u32| #[trigger] c.usable(x) implies b.usable(x) by {
        assert(mid2.usable(x));
        assert(mid.usable(x));
    }
    assert forall|x: u32| #[trigger] b.is_dirty(x) implies c.is_dirty(x) by {
        assert(mid.is_dirty(x));
        assert(mid2.is_dirty(x));
    }
    assert forall|x: u32| #[trigger] c.is_dirty(x) implies b.is_dirty(x) || (b.usable(x) && !c.usable(x)) by {
        assert(mid2.is_dirty(x));
        assert(mid.is_dirty(x));
        if c.usable(x) {
            assert(mid2.usable(x));
            assert(mid.usable(x));
        }
    }
    assert forall|i: int| 0 <= i < b.pages().len() && i != id implies #[trigger] c.pages()[i] == b.pages()[i] by {
        assert(mid.pages()[i] == b.pages()[i]);
    }
    assert forall|x: u32| #[trigger] c.listed(x) implies b.listed(x) || (x == page_id && id != page_id) || gone == x by {
        assert(mid2.listed(x));
    }
    assert(c.is_dirty(id)) by {
        assert(mid2.is_dirty(id));
    }
    assert(!c.usable(id)) by {
        if c.usable(id) {
            assert(mid2.usable(id));
            assert(mid.usable(id));
        }
    }
    assert(!c.listed(id)) by {
        if c.listed(id) {
            assert(mid2.listed(id));
        }
    }
    assert forall|i: int| 0 <= i < c.free@.len() implies b.free@.contains(#[trigger] c.free@[i]) || c.free@[i].generation
        == b.generation + 1 by {
        assert(mid2.free@[i] == c.free@[i]);
        if i < mid.free@.len() {
            assert(mid.free@[i] == c.free@[i]);
        }
    }
}

impl Space {
    /// Takes `key` out of the tree of height `h` at `page_id`.
    #[verifier::rlimit(40)]
    pub fn remove_from(
        &mut self,
        page_id: u32,
        key: &[u8],
        Ghost(h): Ghost<nat>,
        Ghost(lo): Ghost<Option<Seq<u8>>>,
        Ghost(hi): Ghost<Option<Seq<u8>>>,
    ) -> (r: Removal)
        requires
            old(self).ok(),
            old(self).pages().len() + 2 * (h + 1) < u32::MAX,
            tree_ok(old(self).pages(), page_id, h, lo, hi),
            settled(*old(self), page_id, h),
        ensures
            taken_out(*old(self), *final(self), page_id, h, lo, hi, key@, r),
        decreases h, 1nat,
    {
        let ghost a = *self;
        let ghost base = self.pages()[page_id as int];
        proof {
            reveal(tree_ok);
            assert(owns(self.pages(), page_id, h, page_id));
        }
        let kind: PageKind = match self.pager.read(page_id) {
            Some(page) => page.kind(),
            None => PageKind::Free,
        };
        match kind {
            PageKind::Branch => self.remove_from_branch(page_id, key, Ghost(h), Ghost(lo), Ghost(hi)),
            _ => {
                let (index, found) = match self.pager.read(page_id) {
                    Some(page) => leaf_search(page, key),
                    None => (0, false),
                };
                if !found {
                    proof {
                        if exists|i: int| 0 <= i < base.cells.len() && #[trigger] leaf_keys(base)[i] == key@ {
                            let i = choose|i: int| 0 <= i < base.cells.len() && #[trigger] leaf_keys(base)[i] == key@;
                            crate::bytes::lemma_lt_irreflexive(key@);
                        }
                    }
                    return Removal { page: page_id, removed: false, empty: false };
                }
                proof {
                    lemma_leaf_without(base, lo, hi, index as int);
                    lemma_leaf_lookup(base, lo, hi, index as int);
                }
                let (id, mut page) = self.cow(page_id);
                let ghost mid = *self;
                page.remove_cell(index);
                let empty: bool = page.slot_count() == 0;
                let ghost next = page@;
                self.write(id, page);
                proof {
                    let b = *self;
                    assert(b.pages()[id as int] == next);
                    assert(tree_ok(b.pages(), id, 0, lo, hi));
                    lemma_rewritten(a, mid, b, page_id, id, next);
                    assert forall|x: u32| x < a.pages().len() && !#[trigger] a.usable(x) && !(a.is_dirty(x) && owns(
                        a.pages(),
                        page_id,
                        h,
                        x,
                    )) implies b.pages()[x as int] == a.pages()[x as int] by {
                        assert(x != id);
                    }
                    assert forall|k: Seq<u8>| #[trigger] left_lookup(b.pages(), Insert::Kept(id), 0, k) == (if k == key@ {
                        None
                    } else {
                        lookup(a.pages(), page_id, 0, k)
                    }) by {
                        assert(leaf_lookup(next, k) == lookup(b.pages(), id, 0, k));
                    }
                    if empty {
                        assert forall|k: Seq<u8>| k != key@ implies #[trigger] lookup(a.pages(), page_id, h, k) is None by {
                            assert(leaf_lookup(next, k) is None);
                        }
                    }
                }
                Removal { page: id, removed: true, empty }
            },
        }
    }

    /// Takes `key` out of the branch tree at `page_id`.
    #[verifier::rlimit(40)]
    fn remove_from_branch(
        &mut self,
        page_id: u32,
        key: &[u8],
        Ghost(h): Ghost<nat>,
        Ghost(lo): Ghost<Option<Seq<u8>>>,
        Ghost(hi): Ghost<Option<Seq<u8>>>,
    ) -> (r: Removal)
        requires
            h > 0,
            old(self).ok(),
            old(self).pages().len() + 2 * (h + 1) < u32::MAX,
            tree_ok(old(self).pages(), page_id, h, lo, hi),
            settled(*old(self), page_id, h),
        ensures
            taken_out(*old(self), *final(self), page_id, h, lo, hi, key@, r),
        decreases h, 0nat,
    {
        let ghost a = *self;
        let ghost g = (h - 1) as nat;
        let ghost base = self.pages()[page_id as int];
        let ghost cs = children(base);
        let ghost keys = branch_keys(base);
        proof {
            lemma_branch_family(self.pages(), page_id, h, lo, hi);
            assert(owns(self.pages(), page_id, h, page_id));
            lemma_branch_cells_exact(base, lo, hi);
        }
        let (slot, child_id) = match self.pager.read(page_id) {
            Some(page) => branch_child_for(page, key),
            None => (0, 0),
        };
        let ghost (clo, chi) = (member_lo(keys, slot as int, lo), member_hi(keys, slot as int, hi));
        proof {
            reveal(family_ok);
            assert(cs[slot as int] == child_id);
            lemma_route_unique(keys, key@, slot as int);
            assert forall|x: u32| #[trigger] owns(a.pages(), child_id, g, x) implies !a.usable(x) && !a.listed(x) by {
                assert(owns(a.pages(), cs[slot as int], g, x));
                assert(family_owns(a.pages(), cs, g, x));
                assert(owns(a.pages(), page_id, h, x));
            }
        }
        let outcome: Removal = self.remove_from(child_id, key, Ghost(g), Ghost(clo), Ghost(chi));
        let ghost b = *self;
        proof {
            assert(lookup(a.pages(), page_id, h, key@) == lookup(a.pages(), child_id, g, key@));
        }
        if !outcome.removed {
            return Removal { page: page_id, removed: false, empty: false };
        }
        if outcome.empty {
            proof {
                lemma_others(a, b, page_id, h, lo, hi, slot as int);
            }
        } else {
            proof {
                lemma_after_child(
                    a, b, page_id, h, lo, hi, slot as int, clo, chi, key@, None, Insert::Kept(outcome.page),
                );
            }
        }
        let (id, mut page) = self.cow(page_id);
        let ghost mid = *self;
        if outcome.empty {
            let gone: u32 = outcome.page;
            proof {
                // The emptied child is neither the branch nor where it goes.
                assert(gone != page_id) by {
                    if owns(a.pages(), child_id, g, gone) {
                        assert(owns(a.pages(), cs[slot as int], g, gone));
                    }
                }
                assert(gone != id) by {
                    if gone == id {
                        assert(b.usable(id));
                    }
                }
                assert(!mid.listed(gone));
            }
            self.release(gone);
            let ghost mid2 = *self;
            if slot == 0 {
                if page.slot_count() == 0 {
                    let ghost pv = page@;
                    self.write(id, page);
                    proof {
                        let c = *self;
                        lemma_rewritten_drop(b, mid, mid2, c, page_id, id, pv, gone);
                        assert(owns(a.pages(), page_id, h, gone) || a.usable(gone)) by {
                            if owns(a.pages(), child_id, g, gone) {
                                assert(owns(a.pages(), cs[slot as int], g, gone));
                            }
                        }
                        lemma_owns_range(a.pages(), page_id, h, lo, hi, page_id);
                        lemma_step(a, b, c, page_id, h, id, pv, Some(gone));
                        assert forall|k: Seq<u8>| k != key@ implies #[trigger] lookup(a.pages(), page_id, h, k) is None by {
                            lemma_route(keys, k);
                            assert(route(keys, k) == 0);
                            assert(lookup(a.pages(), child_id, g, k) is None);
                        }
                    }
                    return Removal { page: id, removed: true, empty: true };
                }
                let promoted: u32 = branch_child_at(&page, 1);
                page.set_extra(promoted);
                page.remove_cell(0);
            } else {
                page.remove_cell(slot - 1);
            }
            let ghost pv = page@;
            proof {
                assert(pv == without_child(base, slot as int));
                lemma_without_child(base, slot as int);
                lemma_after_drop(a, b, page_id, h, lo, hi, slot as int, key@);
            }
            self.write(id, page);
            proof {
                let c = *self;
                lemma_rewritten_drop(b, mid, mid2, c, page_id, id, pv, gone);
                assert(owns(a.pages(), page_id, h, gone) || a.usable(gone)) by {
                    if owns(a.pages(), child_id, g, gone) {
                        assert(owns(a.pages(), cs[slot as int], g, gone));
                    }
                }
                assert(!family_owns(b.pages(), children(pv), g, gone)) by {
                    if family_owns(b.pages(), children(pv), g, gone) {
                        assert(others_own(a.pages(), cs, g, slot as int, gone));
                    }
                }
                lemma_placed(a, b, c, page_id, h, lo, hi, key@, None, id, pv, Some(gone));
            }
            return Removal { page: id, removed: true, empty: false };
        }
        set_branch_child(&mut page, slot, outcome.page);
        let ghost pv = page@;
        self.write(id, page);
        proof {
            let c = *self;
            lemma_with_child(base, slot as int, outcome.page);
            lemma_rewritten(b, mid, c, page_id, id, pv);
            lemma_placed(a, b, c, page_id, h, lo, hi, key@, None, id, pv, None);
        }
        Removal { page: id, removed: true, empty: false }
    }
}

} // verus!
