//! A copy-on-write B+tree in a file of pages.
//!
//! Pages 0 and 1 of the file hold meta records; data pages start at 2. A
//! commit writes the meta record that the generation before last left, so
//! the last committed tree is described by the other one meanwhile. Opening
//! takes the readable record of the higher generation.
//!
//! Within a generation, a page of the tree is copied to another page the
//! first time it changes and is changed in place from then on. So nothing
//! that a committed meta names is ever overwritten: the committed tree stays
//! readable whatever part of the next generation has reached the file.

use vstd::prelude::*;

mod audit;
pub mod cell;
mod change;
pub mod family;
mod insert;
pub mod meta;
pub mod model;
pub mod node;
mod remove;
pub mod seek;
mod space;
pub mod walk;
pub mod walker;

use crate::btree::audit::{image_fits, is_meta_page};
use crate::btree::cell::{branch_cell, branch_cell_of, lemma_branch_cell};
use crate::btree::change::{confined, left_lookup, left_owns, listed_since, settled, Insert};
use crate::btree::family::{
    children, dividers_ok, family_lookup, family_ok, family_owns, lemma_branch_family, lemma_family_branch,
    lemma_family_frame, member_hi, member_lo,
};
use crate::btree::meta::{
    kept_free, lemma_meta_round_trip, meta_bytes, meta_of, FreeEntry, MetaState, MetaView, MAX_FREE_ENTRIES,
};
use crate::btree::model::{
    apart, branch_keys, branch_ok, child, child_hi, child_lo, entries, key_len_ok, leaf_keys, leaf_ok, lemma_frame,
    lemma_leaf_lookup, lemma_lookup_bounds, lemma_owns_range, lemma_route_unique, lookup, nonempty, owns, routes,
    tree_ok, FIRST_DATA_PAGE, MAX_KEY_LEN, MAX_VALUE_LEN,
};
use crate::btree::node::{branch_child_for, leaf_search, prefix_upper_bound};
use crate::btree::remove::Removal;
use crate::btree::seek::{admits, at_edge, edge_entry, entry_view, first_of, nearest, seek_from, SeekMode};
use crate::btree::space::{evolves, took, wrote, Space};
use crate::btree::walk::{
    ahead, cursor_after, cursor_view, is_next, is_walk, lemma_upper_bound, lemma_walk, walk_keys, walk_step,
};
use crate::btree::walker::{lemma_walk_facts, past};
use crate::bytes::{bytes_le, bytes_lt, copy_bytes, group_order, has_prefix, is_less, starts_with};
use crate::page::{blank_page, Page, PageKind, Pager, PageView, PAGE_BODY_LEN, SLOT_LEN};

verus! {

broadcast use vstd::std_specs::hash::group_hash_axioms;

/// Page ids of the two meta records.
pub const META_A: u32 = 0;

pub const META_B: u32 = 1;

/// Why a tree operation was refused.
#[derive(Clone, Copy, PartialEq, Eq, Debug, Structural)]
pub enum TreeError {
    /// Neither meta record is readable.
    NoMeta,
    /// The pages do not hold the tree that the meta record describes.
    Damaged,
    /// A key must have 1 to [`MAX_KEY_LEN`] bytes.
    KeyLength(usize),
    /// A value must have at most [`MAX_VALUE_LEN`] bytes.
    ValueLength(usize),
    /// The file has no page ids, or the counters no numbers, left.
    Full,
}

/// The page of the meta record that a generation commits to.
pub open spec fn meta_slot(generation: u64) -> u32 {
    if generation % 2 == 0 {
        META_A
    } else {
        META_B
    }
}

/// The page that holds the meta record `m`.
pub open spec fn meta_page(m: MetaView) -> PageView {
    PageView { kind: PageKind::Meta, extra: 0, cells: seq![meta_bytes(m)] }
}

/// The meta record in a page, if it holds a readable one.
pub open spec fn meta_at(pages: Seq<PageView>, slot: u32) -> Option<MetaView> {
    if slot >= pages.len() || pages[slot as int].kind != PageKind::Meta
        || pages[slot as int].cells.len() == 0 {
        None
    } else {
        meta_of(pages[slot as int].cells[0])
    }
}

/// The meta record that opening a file takes.
pub open spec fn chosen_meta(pages: Seq<PageView>) -> Option<MetaView> {
    match (meta_at(pages, META_A), meta_at(pages, META_B)) {
        (Some(a), Some(b)) => if a.generation >= b.generation {
            Some(a)
        } else {
            Some(b)
        },
        (Some(a), None) => Some(a),
        (None, b) => b,
    }
}

/// The pages of a file cut or filled up to `count`.
pub open spec fn resized(pages: Seq<PageView>, count: u32) -> Seq<PageView> {
    Seq::new(
        count as nat,
        |i: int| if i < pages.len() {
            pages[i]
        } else {
            blank_page()
        },
    )
}

/// The pages hold, for the meta record `m`, a whole tree of height `h`, and
/// the record's free list names none of its pages.
pub open spec fn image_ok(pages: Seq<PageView>, m: MetaView, h: nat) -> bool {
    &&& tree_ok(pages, m.root, h, None, None)
    &&& h > 0 ==> pages[m.root as int].cells.len() > 0
    &&& entries(pages, m.root, h).dom().finite()
    &&& entries(pages, m.root, h).len() == m.entries
    &&& m.generation < u64::MAX
    &&& m.free.len() <= MAX_FREE_ENTRIES
    &&& forall|i: int|
        0 <= i < m.free.len() ==> {
            &&& FIRST_DATA_PAGE <= (#[trigger] m.free[i]).page < pages.len()
            &&& m.free[i].generation <= m.generation
            &&& !owns(pages, m.root, h, m.free[i].page)
        }
    &&& forall|i: int, j: int|
        0 <= i < j < m.free.len() ==> (#[trigger] m.free[i]).page != (#[trigger] m.free[j]).page
}

/// A committed tree: its meta record and its height.
pub struct Snapshot {
    pub meta: MetaView,
    pub height: nat,
}

/// A B+tree from byte strings to byte strings.
pub struct BTree {
    space: Space,
    root: u32,
    entries: u64,
    height: Ghost<nat>,
    committed: Ghost<Snapshot>,
    previous: Ghost<Option<Snapshot>>,
}

/// The pages of a committed tree are in `b` what they are in `a`.
pub open spec fn same_snapshot(a: Seq<PageView>, b: Seq<PageView>, s: Snapshot) -> bool {
    forall|x: u32| #[trigger]
        owns(a, s.meta.root, s.height, x) ==> x < b.len() && b[x as int] == a[x as int]
}

/// Between `a` and `b` neither meta page nor any page of the last two
/// committed trees was written.
pub open spec fn spares_committed(a: BTree, b: BTree) -> bool {
    &&& b.committed_snapshot() == a.committed_snapshot()
    &&& b.previous_snapshot() == a.previous_snapshot()
    &&& b.committed_entries() == a.committed_entries()
    &&& b.generation() == a.generation()
    &&& b.pages()[META_A as int] == a.pages()[META_A as int]
    &&& b.pages()[META_B as int] == a.pages()[META_B as int]
    &&& same_snapshot(a.pages(), b.pages(), a.committed_snapshot())
    &&& a.previous_snapshot() matches Some(p) ==> same_snapshot(a.pages(), b.pages(), p)
}

/// What a committed tree is made of stays out of reach of writes.
spec fn guarded(space: Space, root: u32, h: nat) -> bool {
    &&& tree_ok(space.pages(), root, h, None, None)
    &&& forall|x: u32| #[trigger]
        owns(space.pages(), root, h, x) ==> !space.usable(x) && !space.is_dirty(x)
}

/// `b` follows from `a` without touching pages that neither were written in
/// this generation nor may be taken.
spec fn quiet(a: Space, b: Space) -> bool {
    &&& b.ok()
    &&& evolves(a, b)
    &&& forall|x: u32|
        x < a.pages().len() && !#[trigger] a.usable(x) && !a.is_dirty(x) ==> b.pages()[x as int]
            == a.pages()[x as int]
    &&& forall|i: int|
        0 <= i < b.free@.len() ==> a.free@.contains(#[trigger] b.free@[i]) || b.free@[i].generation
            == a.generation + 1
}

proof fn lemma_quiet_trans(a: Space, b: Space, c: Space)
    requires
        quiet(a, b),
        quiet(b, c),
    ensures
        quiet(a, c),
{
    assert forall|x: u32| #[trigger] c.usable(x) implies a.usable(x) by {
        assert(b.usable(x));
    }
    assert forall|x: u32| #[trigger] a.is_dirty(x) implies c.is_dirty(x) by {
        assert(b.is_dirty(x));
    }
    assert forall|x: u32| #[trigger] c.is_dirty(x) implies a.is_dirty(x) || (a.usable(x) && !c.usable(x)) by {
        if b.is_dirty(x) {
            if !a.is_dirty(x) && c.usable(x) {
                assert(b.usable(x));
            }
        } else {
            assert(b.usable(x) && !c.usable(x));
        }
    }
    assert forall|x: u32|
        x < a.pages().len() && !#[trigger] a.usable(x) && !a.is_dirty(x) implies c.pages()[x as int]
        == a.pages()[x as int] by {
        assert(!b.usable(x) && !b.is_dirty(x));
    }
    assert forall|i: int| 0 <= i < c.free@.len() implies a.free@.contains(#[trigger] c.free@[i])
        || c.free@[i].generation == a.generation + 1 by {
        if b.free@.contains(c.free@[i]) {
            let j = choose|j: int| 0 <= j < b.free@.len() && b.free@[j] == c.free@[i];
            assert(b.free@[j] == c.free@[i]);
        }
    }
}

/// A committed tree outlives a change.
proof fn lemma_guarded_quiet(a: Space, b: Space, root: u32, h: nat)
    requires
        guarded(a, root, h),
        quiet(a, b),
    ensures
        guarded(b, root, h),
        forall|x: u32| #[trigger] owns(b.pages(), root, h, x) == owns(a.pages(), root, h, x),
        entries(b.pages(), root, h) == entries(a.pages(), root, h),
        forall|x: u32| #[trigger]
            owns(a.pages(), root, h, x) ==> x < b.pages().len() && b.pages()[x as int] == a.pages()[x as int],
{
    assert forall|x: u32| #[trigger] owns(a.pages(), root, h, x) implies x < b.pages().len() && a.pages()[x as int]
        == b.pages()[x as int] by {
        lemma_owns_range(a.pages(), root, h, None, None, x);
        assert(!a.usable(x) && !a.is_dirty(x));
    }
    lemma_frame(a.pages(), b.pages(), root, h, None, None);
    assert forall|x: u32| #[trigger] owns(b.pages(), root, h, x) implies !b.usable(x) && !b.is_dirty(x) by {
        assert(owns(a.pages(), root, h, x));
        assert(!a.usable(x) && !a.is_dirty(x));
        if b.usable(x) {
            assert(a.usable(x));
        }
    }
    assert(entries(b.pages(), root, h) =~= entries(a.pages(), root, h)) by {
        assert forall|k: Seq<u8>| lookup(b.pages(), root, h, k) == lookup(a.pages(), root, h, k) by {
        }
    }
}

impl View for BTree {
    type V = Map<Seq<u8>, Seq<u8>>;

    /// The entries of the tree.
    closed spec fn view(&self) -> Map<Seq<u8>, Seq<u8>> {
        entries(self.space.pages(), self.root, self.height@)
    }
}

impl BTree {
    /// The pages of the tree's file.
    pub closed spec fn pages(&self) -> Seq<PageView> {
        self.space.pages()
    }

    /// Generation of the last commit.
    pub closed spec fn generation(&self) -> u64 {
        self.space.generation
    }

    /// Entries of the tree as last committed.
    pub closed spec fn committed_entries(&self) -> Map<Seq<u8>, Seq<u8>> {
        entries(self.space.pages(), self.committed@.meta.root, self.committed@.height)
    }

    /// The tree as last committed.
    pub closed spec fn committed_snapshot(&self) -> Snapshot {
        self.committed@
    }

    /// The tree as committed before that, while this tree has been open.
    pub closed spec fn previous_snapshot(&self) -> Option<Snapshot> {
        self.previous@
    }

    /// There are page ids and numbers left for one more change.
    pub closed spec fn has_room_spec(&self) -> bool {
        &&& self.space.pages().len() + 2 * (self.height@ + 2) < u32::MAX
        &&& self.entries < u64::MAX
    }

    spec fn height_ok(&self) -> bool {
        self.height@ > 0 ==> self.space.pages()[self.root as int].cells.len() > 0
    }

    spec fn guard_ok(&self) -> bool {
        let c = self.committed@;
        &&& guarded(self.space, c.meta.root, c.height)
        &&& self.previous@ matches Some(p) ==> guarded(self.space, p.meta.root, p.height)
        &&& forall|i: int|
            0 <= i < self.space.free@.len() && (#[trigger] self.space.free@[i]).generation
                <= self.space.generation ==> !owns(
                self.space.pages(),
                c.meta.root,
                c.height,
                self.space.free@[i].page,
            )
        &&& forall|x: u32| #[trigger] self.space.is_dirty(x) ==> x >= FIRST_DATA_PAGE
    }

    spec fn meta_ok(&self) -> bool {
        let c = self.committed@;
        let g = self.space.generation;
        &&& c.meta.generation == g
        &&& self.space.pages()[meta_slot(g) as int] == meta_page(c.meta)
        &&& c.meta.high_water <= self.space.pages().len()
        &&& forall|x: u32| #[trigger]
            owns(self.space.pages(), c.meta.root, c.height, x) ==> x < c.meta.high_water
        &&& image_ok(self.space.pages(), c.meta, c.height)
        &&& forall|i: int|
            0 <= i < c.meta.free.len() ==> (#[trigger] c.meta.free[i]).page < c.meta.high_water
        &&& meta_at(self.space.pages(), (1 - meta_slot(g)) as u32) matches Some(m) ==> m.generation < g
    }

    /// The pages hold a tree in order, apart from every page that is free;
    /// and the last two committed trees are out of reach of writes.
    pub closed spec fn wf(&self) -> bool {
        &&& self.space.ok()
        &&& tree_ok(self.space.pages(), self.root, self.height@, None, None)
        &&& settled(self.space, self.root, self.height@)
        &&& self.height_ok()
        &&& self@.dom().finite()
        &&& self.entries == self@.len()
        &&& self.guard_ok()
        &&& self.meta_ok()
    }

    /// What holds of every well-formed tree.
    pub proof fn lemma_wf(&self)
        requires
            self.wf(),
        ensures
            self@.dom().finite(),
            self@.len() <= u64::MAX,
            forall|k: Seq<u8>| #[trigger] self@.contains_key(k) ==> 1 <= k.len() <= MAX_KEY_LEN,
    {
        assert forall|k: Seq<u8>| #[trigger] self@.contains_key(k) implies 1 <= k.len() <= MAX_KEY_LEN by {
            lemma_lookup_bounds(self.space.pages(), self.root, self.height@, None, None, k);
        }
    }
}

/// A change made by an insert or a removal is quiet.
proof fn lemma_changed_quiet(a: Space, b: Space, id: u32, h: nat)
    requires
        b.ok(),
        evolves(a, b),
        confined(a, b, id, h),
        listed_since(a, b, id, h),
    ensures
        quiet(a, b),
{
}

impl BTree {
    /// What the committed trees need, through a quiet change.
    proof fn lemma_keep_committed(a: BTree, b: BTree)
        requires
            a.space.ok(),
            a.guard_ok(),
            a.meta_ok(),
            quiet(a.space, b.space),
            b.committed == a.committed,
            b.previous == a.previous,
        ensures
            b.guard_ok(),
            b.meta_ok(),
            spares_committed(a, b),
    {
        let c = a.committed@;
        lemma_guarded_quiet(a.space, b.space, c.meta.root, c.height);
        match a.previous@ {
            Some(p) => {
                lemma_guarded_quiet(a.space, b.space, p.meta.root, p.height);
            },
            None => {},
        }
        assert forall|i: int|
            0 <= i < b.space.free@.len() && (#[trigger] b.space.free@[i]).generation <= b.space.generation
            implies !owns(b.space.pages(), c.meta.root, c.height, b.space.free@[i].page) by {
            assert(a.space.free@.contains(b.space.free@[i]));
            let j = choose|j: int| 0 <= j < a.space.free@.len() && a.space.free@[j] == b.space.free@[i];
            assert(a.space.free@[j] == b.space.free@[i]);
        }
        assert forall|x: u32| #[trigger] b.space.is_dirty(x) implies x >= FIRST_DATA_PAGE by {
            if !a.space.is_dirty(x) {
                assert(a.space.usable(x));
            }
        }
        assert forall|x: u32| x < FIRST_DATA_PAGE implies #[trigger] b.space.pages()[x as int] == a.space.pages()[x as int] by {
            assert(!a.space.is_dirty(x));
            assert(!a.space.usable(x));
        }
        let slot = meta_slot(a.space.generation);
        assert(b.space.pages()[slot as int] == a.space.pages()[slot as int]);
        let other = (1 - slot) as u32;
        assert(b.space.pages()[other as int] == a.space.pages()[other as int]);
        assert(b.space.pages()[c.meta.root as int] == a.space.pages()[c.meta.root as int]) by {
            assert(owns(a.space.pages(), c.meta.root, c.height, c.meta.root));
            lemma_owns_range(a.space.pages(), c.meta.root, c.height, None, None, c.meta.root);
            assert(!a.space.usable(c.meta.root) && !a.space.is_dirty(c.meta.root));
        }
        assert forall|i: int| 0 <= i < c.meta.free.len() implies !owns(
            b.space.pages(),
            c.meta.root,
            c.height,
            (#[trigger] c.meta.free[i]).page,
        ) by {
            assert(!owns(a.space.pages(), c.meta.root, c.height, c.meta.free[i].page));
        }
        assert(image_ok(b.space.pages(), c.meta, c.height));
    }

    /// Number of entries in the tree.
    pub fn len(&self) -> (r: u64)
        requires
            self.wf(),
        ensures
            r == self@.len(),
    {
        self.entries
    }

    /// The pages of the tree's file, for storing them.
    pub fn pager(&self) -> (r: &Pager)
        requires
            self.wf(),
        ensures
            r.wf(),
            r@ == self.pages(),
    {
        &self.space.pager
    }

    /// The page that the last commit wrote its meta record to. Every other
    /// page has to be stored before it.
    pub fn meta_page_id(&self) -> (r: u32)
        ensures
            r == meta_slot(self.generation()),
    {
        if self.space.generation % 2 == 0 {
            META_A
        } else {
            META_B
        }
    }

    /// Whether there are page ids and numbers left for one more change.
    pub fn has_room(&self) -> (r: bool)
        requires
            self.wf(),
        ensures
            r == self.has_room_spec(),
    {
        if self.entries == u64::MAX {
            return false;
        }
        let count: u64 = self.space.pager.page_count() as u64;
        let mut depth: u64 = 0;
        let mut page_id: u32 = self.root;
        let ghost mut h: nat = self.height@;
        let ghost mut lo: Option<Seq<u8>> = None;
        let ghost mut hi: Option<Seq<u8>> = None;
        while count + 2 * (depth + 2) < u32::MAX as u64
            invariant
                self.space.ok(),
                count == self.space.pages().len(),
                depth <= u32::MAX,
                depth + h == self.height@,
                tree_ok(self.space.pages(), page_id, h, lo, hi),
                self.entries < u64::MAX,
            ensures
                self.space.pages().len() + 2 * (self.height@ + 2) >= u32::MAX,
            decreases h,
        {
            proof {
                reveal(tree_ok);
            }
            let page = match self.space.pager.read(page_id) {
                Some(page) => page,
                None => { return true },
            };
            match page.kind() {
                PageKind::Branch => {
                    let next: u32 = page.extra();
                    proof {
                        let view = self.space.pages()[page_id as int];
                        assert(child(view, 0) == next);
                        let (l, u) = (child_lo(view, 0, lo), child_hi(view, 0, hi));
                        lo = l;
                        hi = u;
                        h = (h - 1) as nat;
                    }
                    page_id = next;
                    depth = depth + 1;
                },
                _ => {
                    return true;
                },
            }
        }
        false
    }

    /// The leaf page that `key` belongs to.
    fn descend(&self, key: &[u8]) -> (leaf: u32)
        requires
            self.wf(),
        ensures
            leaf < self.pages().len(),
            self.pages()[leaf as int].kind == PageKind::Leaf,
            exists|lo: Option<Seq<u8>>, hi: Option<Seq<u8>>|
                leaf_ok(self.pages()[leaf as int], lo, hi),
            self@.contains_key(key@) <==> lookup(self.pages(), leaf, 0, key@) is Some,
            self@.contains_key(key@) ==> lookup(self.pages(), leaf, 0, key@) == Some(self@[key@]),
    {
        let mut page_id: u32 = self.root;
        let ghost mut h: nat = self.height@;
        let ghost mut lo: Option<Seq<u8>> = None;
        let ghost mut hi: Option<Seq<u8>> = None;
        loop
            invariant
                self.wf(),
                tree_ok(self.space.pages(), page_id, h, lo, hi),
                lookup(self.space.pages(), page_id, h, key@) == lookup(
                    self.space.pages(),
                    self.root,
                    self.height@,
                    key@,
                ),
            decreases h,
        {
            proof {
                reveal(tree_ok);
            }
            let page = match self.space.pager.read(page_id) {
                Some(page) => page,
                None => { return page_id },
            };
            match page.kind() {
                PageKind::Branch => {
                    let (slot, next) = branch_child_for(page, key);
                    proof {
                        let view = self.space.pages()[page_id as int];
                        lemma_route_unique(branch_keys(view), key@, slot as int);
                        assert(child(view, slot as int) == next);
                        let (l, u) = (child_lo(view, slot as int, lo), child_hi(view, slot as int, hi));
                        lo = l;
                        hi = u;
                        h = (h - 1) as nat;
                    }
                    page_id = next;
                },
                _ => {
                    proof {
                        assert(leaf_ok(self.pages()[page_id as int], lo, hi));
                    }
                    return page_id;
                },
            }
        }
    }

    /// The value stored under `key`, if any.
    pub fn get(&self, key: &[u8]) -> (r: Option<Vec<u8>>)
        requires
            self.wf(),
        ensures
            match r {
                Some(value) => self@.contains_key(key@) && self@[key@] == value@,
                None => !self@.contains_key(key@),
            },
    {
        let leaf: u32 = self.descend(key);
        let page = match self.space.pager.read(leaf) {
            Some(page) => page,
            None => { return None },
        };
        let (index, found) = leaf_search(page, key);
        let ghost view = self.pages()[leaf as int];
        proof {
            broadcast use group_order;
            if !found {
                assert forall|i: int| 0 <= i < view.cells.len() implies #[trigger] leaf_keys(view)[i] != key@ by {
                }
            }
        }
        if found {
            match page.cell(index) {
                Some(cell) => {
                    proof {
                        let (lo, hi) = choose|lo: Option<Seq<u8>>, hi: Option<Seq<u8>>| leaf_ok(view, lo, hi);
                        lemma_leaf_lookup(view, lo, hi, index as int);
                    }
                    Some(copy_bytes(crate::btree::cell::leaf_value(cell)))
                },
                None => None,
            }
        } else {
            None
        }
    }

    /// The entry nearest `key` in the direction of `mode`, or `None` when
    /// the tree has none there.
    pub fn seek(&self, key: &[u8], mode: SeekMode) -> (r: Option<(Vec<u8>, Vec<u8>)>)
        requires
            self.wf(),
        ensures
            match r {
                Some((k, v)) => {
                    &&& self@.contains_key(k@)
                    &&& self@[k@] == v@
                    &&& admits(mode, key@, k@)
                    &&& forall|o: Seq<u8>| #[trigger]
                        self@.contains_key(o) && admits(mode, key@, o) ==> first_of(
                            mode.is_forward(),
                            k@,
                            o,
                        )
                },
                None => forall|o: Seq<u8>| #[trigger]
                    self@.contains_key(o) ==> !admits(mode, key@, o),
            },
    {
        let r = seek_from(&self.space.pager, self.root, key, mode, Ghost(self.height@), Ghost(None), Ghost(None));
        proof {
            let (pages, root, h) = (self.space.pages(), self.root, self.height@);
            assert(nearest(pages, root, h, key@, mode, entry_view(r)));
            assert forall|o: Seq<u8>| #[trigger] self@.contains_key(o) implies lookup(pages, root, h, o) is Some by {
            }
        }
        r
    }

    /// The first (or last) entry of the tree.
    fn edge(&self, first: bool) -> (r: Option<(Vec<u8>, Vec<u8>)>)
        requires
            self.wf(),
        ensures
            match r {
                Some((k, v)) => {
                    &&& self@.contains_key(k@)
                    &&& self@[k@] == v@
                    &&& forall|o: Seq<u8>| #[trigger] self@.contains_key(o) ==> first_of(first, k@, o)
                },
                None => forall|o: Seq<u8>| !#[trigger] self@.contains_key(o),
            },
    {
        let r = edge_entry(&self.space.pager, self.root, first, Ghost(self.height@), Ghost(None), Ghost(None));
        proof {
            let (pages, root, h) = (self.space.pages(), self.root, self.height@);
            assert(at_edge(pages, root, h, first, entry_view(r)));
            assert forall|o: Seq<u8>| #[trigger] self@.contains_key(o) implies lookup(pages, root, h, o) is Some by {
            }
        }
        r
    }

    /// Where a walk over `prefix` goes from `cursor`.
    pub fn range_next(&self, prefix: &[u8], cursor: &Option<Vec<u8>>, reverse: bool) -> (r: Option<(Vec<u8>, Vec<u8>)>)
        requires
            self.wf(),
        ensures
            match r {
                Some((k, v)) => {
                    &&& is_next(self@, prefix@, cursor_view(*cursor), reverse, k@)
                    &&& self@[k@] == v@
                },
                None => forall|k: Seq<u8>|
                    !#[trigger] is_next(self@, prefix@, cursor_view(*cursor), reverse, k),
            },
    {
        let entry = if reverse {
            match (cursor, prefix_upper_bound(prefix)) {
                (Some(key), Some(bound)) => if is_less(&bound, key) {
                    self.seek(&bound, SeekMode::Lt)
                } else {
                    self.seek(key, SeekMode::Lt)
                },
                (Some(key), None) => self.seek(key, SeekMode::Lt),
                (None, Some(bound)) => self.seek(&bound, SeekMode::Lt),
                (None, None) => self.edge(false),
            }
        } else {
            match cursor {
                Some(key) => if is_less(key, prefix) {
                    self.seek(prefix, SeekMode::Ge)
                } else {
                    self.seek(key, SeekMode::Gt)
                },
                None => self.seek(prefix, SeekMode::Ge),
            }
        };
        let ghost at = cursor_view(*cursor);
        let ghost near = match &entry {
            Some((k, _)) => k@,
            None => Seq::empty(),
        };
        proof {
            broadcast use group_order;

            assert forall|o: Seq<u8>| #[trigger] self@.contains_key(o) && ahead(prefix@, at, reverse, o) implies {
                &&& entry is Some
                &&& has_prefix(near, prefix@)
                &&& if reverse {
                    bytes_le(o, near)
                } else {
                    bytes_le(near, o)
                }
            } by {
                lemma_upper_bound(prefix@, o);
                if entry is Some {
                    lemma_upper_bound(prefix@, near);
                }
            }
        }
        match entry {
            None => {
                proof {
                    assert forall|k: Seq<u8>| !#[trigger] is_next(self@, prefix@, at, reverse, k) by {
                        if is_next(self@, prefix@, at, reverse, k) {
                            assert(self@.contains_key(k));
                        }
                    }
                }
                None
            },
            Some((key, value)) => {
                if starts_with(&key, prefix) {
                    proof {
                        broadcast use group_order;

                        lemma_upper_bound(prefix@, key@);
                        assert(ahead(prefix@, at, reverse, key@));
                    }
                    Some((key, value))
                } else {
                    proof {
                        assert forall|k: Seq<u8>| !#[trigger] is_next(self@, prefix@, at, reverse, k) by {
                            if is_next(self@, prefix@, at, reverse, k) {
                                assert(self@.contains_key(k));
                            }
                        }
                    }
                    None
                }
            },
        }
    }
}

/// A new root over the two halves of a split tree.
proof fn lemma_new_root(b: Space, mid: Space, c: Space, left: u32, sep: Seq<u8>, right: u32, h: nat, id: u32, pv: PageView)
    requires
        b.ok(),
        key_len_ok(sep),
        tree_ok(b.pages(), left, h, None, Some(sep)),
        tree_ok(b.pages(), right, h, Some(sep), None),
        nonempty(b.pages(), left),
        nonempty(b.pages(), right),
        apart(b.pages(), left, right, h),
        forall|x: u32| #[trigger]
            owns(b.pages(), left, h, x) ==> !b.usable(x) && !b.listed(x),
        forall|x: u32| #[trigger]
            owns(b.pages(), right, h, x) ==> !b.usable(x) && !b.listed(x),
        took(b, mid, id),
        wrote(mid, c, id, pv),
        pv == (PageView { kind: PageKind::Branch, extra: left, cells: seq![branch_cell_of(sep, right)] }),
    ensures
        quiet(b, c),
        tree_ok(c.pages(), id, h + 1, None, None),
        settled(c, id, h + 1),
        c.pages()[id as int].cells.len() == 1,
        forall|k: Seq<u8>| #[trigger]
            lookup(c.pages(), id, h + 1, k) == (if bytes_lt(k, sep) {
                lookup(b.pages(), left, h, k)
            } else {
                lookup(b.pages(), right, h, k)
            }),
{
    broadcast use group_order;

    let cs = seq![left, right];
    let ks = seq![sep];
    lemma_branch_cell(sep, right);
    assert(branch_keys(pv) =~= ks);
    assert(children(pv) =~= cs);
    crate::page::lemma_size_one(branch_cell_of(sep, right));
    assert(branch_ok(pv, None, None));
    assert(family_ok(b.pages(), cs, ks, h, None, None)) by {
        reveal(family_ok);
        assert(dividers_ok(ks, None, None));
        assert forall|i: int| 0 <= i < cs.len() implies {
            &&& tree_ok(b.pages(), #[trigger] cs[i], h, member_lo(ks, i, None), member_hi(ks, i, None))
            &&& nonempty(b.pages(), cs[i])
        } by {
            if i == 0 {
                assert(member_hi(ks, i, None) == Some(sep));
            } else {
                assert(member_lo(ks, i, None) == Some(sep));
            }
        }
    }
    assert forall|x: u32| #[trigger] family_owns(b.pages(), cs, h, x) implies {
        &&& !b.usable(x)
        &&& !b.listed(x)
        &&& x != id
        &&& x < c.pages().len()
        &&& b.pages()[x as int] == c.pages()[x as int]
    } by {
        let i = choose|i: int| 0 <= i < cs.len() && owns(b.pages(), #[trigger] cs[i], h, x);
        if i == 0 {
            lemma_owns_range(b.pages(), left, h, None, Some(sep), x);
        } else {
            lemma_owns_range(b.pages(), right, h, Some(sep), None, x);
        }
        assert(mid.pages()[x as int] == b.pages()[x as int]);
    }
    lemma_family_frame(b.pages(), c.pages(), cs, ks, h, None, None);
    assert(!family_owns(c.pages(), cs, h, id)) by {
        if family_owns(c.pages(), cs, h, id) {
            assert(family_owns(b.pages(), cs, h, id));
        }
    }
    assert(c.pages()[id as int] == pv);
    lemma_family_branch(c.pages(), id, h + 1, None, None);
    lemma_branch_family(c.pages(), id, h + 1, None, None);
    assert forall|x: u32| #[trigger] c.usable(x) implies b.usable(x) && x != id by {
        assert(mid.usable(x));
    }
    assert forall|x: u32| #[trigger] c.listed(x) implies b.listed(x) && x != id by {
        assert(mid.listed(x));
    }
    assert forall|x: u32| #[trigger] owns(c.pages(), id, h + 1, x) implies !c.usable(x) && !c.listed(x) by {
        if x != id {
            assert(family_owns(c.pages(), cs, h, x));
            assert(family_owns(b.pages(), cs, h, x));
        }
    }
    assert forall|x: u32| #[trigger] b.is_dirty(x) implies c.is_dirty(x) by {
        assert(mid.is_dirty(x));
    }
    assert forall|x: u32| #[trigger] c.is_dirty(x) implies b.is_dirty(x) || (b.usable(x) && !c.usable(x)) by {
        assert(mid.is_dirty(x));
    }
    assert forall|x: u32|
        x < b.pages().len() && !#[trigger] b.usable(x) && !b.is_dirty(x) implies c.pages()[x as int]
        == b.pages()[x as int] by {
        assert(mid.pages()[x as int] == b.pages()[x as int]);
    }
    assert forall|i: int| 0 <= i < c.free@.len() implies b.free@.contains(#[trigger] c.free@[i])
        || c.free@[i].generation == b.generation + 1 by {
        assert(mid.free@[i] == c.free@[i]);
    }
    assert forall|k: Seq<u8>| #[trigger] lookup(c.pages(), id, h + 1, k) == (if bytes_lt(k, sep) {
        lookup(b.pages(), left, h, k)
    } else {
        lookup(b.pages(), right, h, k)
    }) by {
        assert(family_lookup(c.pages(), cs, ks, h, k) == family_lookup(b.pages(), cs, ks, h, k));
        let r = if bytes_lt(k, sep) { 0int } else { 1int };
        assert(routes(ks, k, r));
        lemma_route_unique(ks, k, r);
    }
}

impl BTree {
    /// Inserts or replaces the entry under `key`.
    pub fn put(&mut self, key: &[u8], value: &[u8]) -> (r: Result<(), TreeError>)
        requires
            old(self).wf(),
        ensures
            final(self).wf(),
            spares_committed(*old(self), *final(self)),
            match r {
                Ok(()) => {
                    &&& 1 <= key@.len() <= MAX_KEY_LEN
                    &&& value@.len() <= MAX_VALUE_LEN
                    &&& old(self).has_room_spec()
                    &&& final(self)@ == old(self)@.insert(key@, value@)
                },
                Err(e) => {
                    &&& *final(self) == *old(self)
                    &&& e == (if !(1 <= key@.len() <= MAX_KEY_LEN) {
                        TreeError::KeyLength(key@.len() as usize)
                    } else if value@.len() > MAX_VALUE_LEN {
                        TreeError::ValueLength(value@.len() as usize)
                    } else {
                        TreeError::Full
                    })
                    &&& e == TreeError::Full ==> !old(self).has_room_spec()
                },
            },
    {
        if key.len() == 0 || key.len() > MAX_KEY_LEN {
            return Err(TreeError::KeyLength(key.len()));
        }
        if value.len() > MAX_VALUE_LEN {
            return Err(TreeError::ValueLength(value.len()));
        }
        if !self.has_room() {
            return Err(TreeError::Full);
        }
        let existed: bool = self.get(key).is_some();
        let ghost a = *self;
        let ghost h = self.height@;
        let root: u32 = self.root;
        match self.space.insert_into(root, key, value, Ghost(h), Ghost(None), Ghost(None)) {
            Insert::Kept(page) => {
                self.root = page;
                proof {
                    lemma_changed_quiet(a.space, self.space, root, h);
                    let r = Insert::Kept(page);
                    assert forall|x: u32| #[trigger] owns(self.space.pages(), page, h, x) implies !self.space.usable(x)
                        && !self.space.listed(x) by {
                        assert(left_owns(self.space.pages(), r, h, x));
                    }
                    assert forall|k: Seq<u8>| #[trigger] lookup(self.space.pages(), page, h, k) == (if k == key@ {
                        Some(value@)
                    } else {
                        lookup(a.space.pages(), root, h, k)
                    }) by {
                        assert(left_lookup(self.space.pages(), r, h, k) == lookup(self.space.pages(), page, h, k));
                    }
                }
            },
            Insert::Split(left, separator, right) => {
                let ghost b = self.space;
                let ghost r = Insert::Split(left, separator, right);
                let mut branch = Page::new(PageKind::Branch);
                branch.set_extra(left);
                proof {
                    lemma_branch_cell(separator@, right);
                    assert(branch@.cells =~= Seq::<Seq<u8>>::empty());
                }
                let cell: Vec<u8> = branch_cell(&separator, right);
                let _done = branch.insert_cell(0, &cell);
                let ghost pv = branch@;
                let id: u32 = self.space.take();
                let ghost mid = self.space;
                self.space.write(id, branch);
                self.root = id;
                self.height = Ghost(h + 1);
                proof {
                    assert(pv.cells =~= seq![branch_cell_of(separator@, right)]);
                    assert forall|x: u32| #[trigger] owns(b.pages(), left, h, x) implies !b.usable(x) && !b.listed(x) by {
                        assert(left_owns(b.pages(), r, h, x));
                    }
                    assert forall|x: u32| #[trigger] owns(b.pages(), right, h, x) implies !b.usable(x) && !b.listed(x) by {
                        assert(left_owns(b.pages(), r, h, x));
                    }
                    lemma_new_root(b, mid, self.space, left, separator@, right, h, id, pv);
                    lemma_changed_quiet(a.space, b, root, h);
                    lemma_quiet_trans(a.space, b, self.space);
                    assert forall|k: Seq<u8>| #[trigger] lookup(self.space.pages(), id, h + 1, k) == (if k == key@ {
                        Some(value@)
                    } else {
                        lookup(a.space.pages(), root, h, k)
                    }) by {
                        assert(left_lookup(b.pages(), r, h, k) == lookup(self.space.pages(), id, h + 1, k));
                    }
                }
            },
        }
        proof {
            assert(self@ =~= a@.insert(key@, value@)) by {
                assert forall|k: Seq<u8>| #[trigger] self@.contains_key(k) == a@.insert(key@, value@).contains_key(k) by {
                    assert(lookup(self.space.pages(), self.root, self.height@, k) == (if k == key@ {
                        Some(value@)
                    } else {
                        lookup(a.space.pages(), root, h, k)
                    }));
                }
                assert forall|k: Seq<u8>| #[trigger] self@.contains_key(k) implies self@[k] == a@.insert(
                    key@,
                    value@,
                )[k] by {
                    assert(lookup(self.space.pages(), self.root, self.height@, k) == (if k == key@ {
                        Some(value@)
                    } else {
                        lookup(a.space.pages(), root, h, k)
                    }));
                }
            }
        }
        if !existed {
            self.entries = self.entries + 1;
        }
        proof {
            Self::lemma_keep_committed(a, *self);
        }
        Ok(())
    }

    /// Takes out the entry under `key`; says whether it was there.
    pub fn remove(&mut self, key: &[u8]) -> (r: Result<bool, TreeError>)
        requires
            old(self).wf(),
        ensures
            final(self).wf(),
            spares_committed(*old(self), *final(self)),
            match r {
                Ok(removed) => {
                    &&& old(self).has_room_spec()
                    &&& removed == old(self)@.contains_key(key@)
                    &&& final(self)@ == old(self)@.remove(key@)
                },
                Err(e) => {
                    &&& e == TreeError::Full
                    &&& !old(self).has_room_spec()
                    &&& *final(self) == *old(self)
                },
            },
    {
        if !self.has_room() {
            return Err(TreeError::Full);
        }
        let ghost a = *self;
        let ghost mut h = self.height@;
        let root: u32 = self.root;
        let outcome: Removal = self.space.remove_from(root, key, Ghost(h), Ghost(None), Ghost(None));
        if !outcome.removed {
            proof {
                assert(self.space == a.space);
                assert(!a@.contains_key(key@));
                assert(a@.remove(key@) =~= a@);
            }
            return Ok(false);
        }
        self.root = outcome.page;
        proof {
            assert(a@.contains_key(key@));
            assert(!(outcome.empty && h > 0));
            lemma_changed_quiet(a.space, self.space, root, h);
            assert(tree_ok(self.space.pages(), self.root, h, None, None));
            let r = Insert::Kept(outcome.page);
            assert forall|x: u32| #[trigger] owns(self.space.pages(), self.root, h, x) implies !self.space.usable(x)
                && !self.space.listed(x) by {
                if !outcome.empty {
                    assert(left_owns(self.space.pages(), r, h, x));
                }
            }
            assert forall|k: Seq<u8>| #[trigger] lookup(self.space.pages(), self.root, h, k) == (if k == key@ {
                None
            } else {
                lookup(a.space.pages(), root, h, k)
            }) by {
                if !outcome.empty {
                    assert(left_lookup(self.space.pages(), r, h, k) == lookup(self.space.pages(), self.root, h, k));
                } else {
                    assert(lookup(self.space.pages(), self.root, h, k) is None);
                }
            }
        }
        let ghost m = entries(self.space.pages(), self.root, h);
        proof {
            assert(m =~= a@.remove(key@)) by {
                assert forall|k: Seq<u8>| #[trigger] m.contains_key(k) == a@.remove(key@).contains_key(k) by {
                    assert(lookup(self.space.pages(), self.root, h, k) == (if k == key@ {
                        None
                    } else {
                        lookup(a.space.pages(), root, h, k)
                    }));
                }
                assert forall|k: Seq<u8>| #[trigger] m.contains_key(k) implies m[k] == a@.remove(key@)[k] by {
                    assert(lookup(self.space.pages(), self.root, h, k) == (if k == key@ {
                        None
                    } else {
                        lookup(a.space.pages(), root, h, k)
                    }));
                }
            }
        }
        self.entries = if self.entries > 0 { self.entries - 1 } else { 0 };
        let ghost count = self.entries;
        loop
            invariant
                self.space.ok(),
                tree_ok(self.space.pages(), self.root, h, None, None),
                settled(self.space, self.root, h),
                entries(self.space.pages(), self.root, h) == m,
                quiet(a.space, self.space),
                self.committed == a.committed,
                self.previous == a.previous,
                self.entries == count,
            ensures
                self.space.ok(),
                tree_ok(self.space.pages(), self.root, h, None, None),
                settled(self.space, self.root, h),
                entries(self.space.pages(), self.root, h) == m,
                quiet(a.space, self.space),
                self.committed == a.committed,
                self.previous == a.previous,
                self.entries == count,
                h > 0 ==> self.space.pages()[self.root as int].cells.len() > 0,
            decreases h,
        {
            let root_id: u32 = self.root;
            proof {
                reveal(tree_ok);
            }
            let (kind, slots, next) = match self.space.pager.read(root_id) {
                Some(page) => (page.kind(), page.slot_count(), page.extra()),
                None => (PageKind::Free, 0, 0),
            };
            if kind != PageKind::Branch || slots > 0 {
                break;
            }
            let ghost b = self.space;
            proof {
                lemma_branch_family(b.pages(), root_id, h, None, None);
                assert(owns(b.pages(), root_id, h, root_id));
                assert(child(b.pages()[root_id as int], 0) == next);
                lemma_owns_range(b.pages(), root_id, h, None, None, root_id);
            }
            self.space.release(root_id);
            self.root = next;
            proof {
                let c = self.space;
                let view = b.pages()[root_id as int];
                let g = (h - 1) as nat;
                assert forall|x: u32| #[trigger] owns(c.pages(), next, g, x) implies !c.usable(x) && !c.listed(x) by {
                    assert(owns(b.pages(), child(view, 0), g, x));
                    assert(owns(b.pages(), root_id, h, x));
                    assert(x != root_id);
                    assert(!b.usable(x) && !b.listed(x));
                }
                assert forall|k: Seq<u8>| #[trigger] lookup(c.pages(), next, g, k) == lookup(b.pages(), root_id, h, k) by {
                    assert(routes(branch_keys(view), k, 0));
                    lemma_route_unique(branch_keys(view), k, 0);
                }
                assert(entries(c.pages(), next, g) =~= m);
                assert forall|i: int| 0 <= i < c.free@.len() implies b.free@.contains(#[trigger] c.free@[i])
                    || c.free@[i].generation == b.generation + 1 by {
                    if i < b.free@.len() {
                        assert(b.free@[i] == c.free@[i]);
                    }
                }
                assert(quiet(b, c));
                lemma_quiet_trans(a.space, b, c);
                h = g;
            }
        }
        self.height = Ghost(h);
        proof {
            assert(self@ == m);
            Self::lemma_keep_committed(a, *self);
        }
        Ok(true)
    }
}

/// A tree in given pages has one height.
pub proof fn lemma_height_unique(
    pages: Seq<PageView>,
    id: u32,
    g: nat,
    h: nat,
    lo: Option<Seq<u8>>,
    hi: Option<Seq<u8>>,
    lo2: Option<Seq<u8>>,
    hi2: Option<Seq<u8>>,
)
    requires
        tree_ok(pages, id, g, lo, hi),
        tree_ok(pages, id, h, lo2, hi2),
    ensures
        g == h,
    decreases g,
{
    reveal(tree_ok);
    let page = pages[id as int];
    if g > 0 && h > 0 {
        let c = child(page, 0);
        lemma_height_unique(
            pages,
            c,
            (g - 1) as nat,
            (h - 1) as nat,
            child_lo(page, 0, lo),
            child_hi(page, 0, hi),
            child_lo(page, 0, lo2),
            child_hi(page, 0, hi2),
        );
    }
}

/// A meta record fits in a page.
proof fn lemma_meta_fits(m: MetaView)
    ensures
        meta_bytes(m).len() + SLOT_LEN <= PAGE_BODY_LEN,
        meta_of(meta_bytes(m)) == Some(MetaView { free: kept_free(m.free), ..m }),
{
    lemma_meta_round_trip(m);
}

/// The page for a meta record.
fn build_meta(m: &MetaState) -> (page: Page)
    ensures
        page.wf(),
        page@ == meta_page(m@),
{
    let mut page = Page::new(PageKind::Meta);
    proof {
        lemma_meta_fits(m@);
    }
    let _slot = page.push_cell(&m.encode());
    proof {
        assert(page@.cells =~= seq![meta_bytes(m@)]);
    }
    page
}

fn copy_free(free: &Vec<FreeEntry>) -> (r: Vec<FreeEntry>)
    ensures
        r@ == free@,
{
    let mut r: Vec<FreeEntry> = Vec::with_capacity(free.len());
    let mut i: usize = 0;
    while i < free.len()
        invariant
            i <= free.len(),
            r@ == free@.take(i as int),
        decreases free.len() - i,
    {
        r.push(free[i]);
        proof {
            assert(free@.take(i + 1) =~= free@.take(i as int).push(free@[i as int]));
        }
        i = i + 1;
    }
    proof {
        assert(free@.take(free@.len() as int) =~= free@);
    }
    r
}

impl BTree {
    /// The meta record in page `slot`, if it holds a readable one.
    fn read_meta(pager: &Pager, slot: u32) -> (r: Option<MetaState>)
        requires
            pager.wf(),
        ensures
            match r {
                Some(m) => meta_at(pager@, slot) == Some(m@),
                None => meta_at(pager@, slot) is None,
            },
    {
        let page = match pager.read(slot) {
            Some(page) => page,
            None => { return None },
        };
        if page.kind() != PageKind::Meta {
            return None;
        }
        match page.cell(0) {
            Some(cell) => MetaState::decode(cell),
            None => None,
        }
    }

    /// Publishes everything written since the last commit, in a meta record
    /// of the next generation.
    pub fn commit(&mut self) -> (r: Result<(), TreeError>)
        requires
            old(self).wf(),
        ensures
            final(self).wf(),
            final(self)@ == old(self)@,
            match r {
                Ok(()) => {
                    &&& final(self).generation() == old(self).generation() + 1
                    &&& final(self).committed_entries() == old(self)@
                    &&& final(self).previous_snapshot() == Some(old(self).committed_snapshot())
                    &&& final(self).pages() == old(self).pages().update(
                        meta_slot(final(self).generation()) as int,
                        meta_page(final(self).committed_snapshot().meta),
                    )
                },
                Err(e) => {
                    &&& e == TreeError::Full
                    &&& old(self).generation() >= u64::MAX - 1
                    &&& *final(self) == *old(self)
                },
            },
    {
        if self.space.generation >= u64::MAX - 1 {
            return Err(TreeError::Full);
        }
        let ghost a = *self;
        let generation: u64 = self.space.building();
        let m = MetaState {
            generation,
            root: self.root,
            entries: self.entries,
            high_water: self.space.pager.page_count(),
            free: copy_free(&self.space.free),
        };
        let page = build_meta(&m);
        let slot: u32 = if generation % 2 == 0 { META_A } else { META_B };
        self.space.pager.write(slot, page);
        self.space.generation = generation;
        self.space.dirty.clear();
        self.previous = Ghost(Some(self.committed@));
        self.committed = Ghost(Snapshot { meta: m@, height: self.height@ });
        proof {
            let b = *self;
            let (pa, pb) = (a.space.pages(), b.space.pages());
            let (root, h) = (a.root, a.height@);
            assert forall|x: u32| #[trigger] owns(pa, root, h, x) implies x < pb.len() && pa[x as int] == pb[x as int]
                && x >= FIRST_DATA_PAGE by {
                lemma_owns_range(pa, root, h, None, None, x);
            }
            lemma_frame(pa, pb, root, h, None, None);
            assert(entries(pb, root, h) =~= entries(pa, root, h)) by {
                assert forall|k: Seq<u8>| lookup(pb, root, h, k) == lookup(pa, root, h, k) by {
                }
            }
            let c = a.committed@;
            assert forall|x: u32| #[trigger] owns(pa, c.meta.root, c.height, x) implies x < pb.len() && pa[x as int]
                == pb[x as int] by {
                lemma_owns_range(pa, c.meta.root, c.height, None, None, x);
            }
            lemma_frame(pa, pb, c.meta.root, c.height, None, None);
            // What may be taken now was listed before.
            assert forall|x: u32| #[trigger] b.space.usable(x) && x < pb.len() implies a.space.listed(x) && (exists|i: int|
                0 <= i < a.space.free@.len() && (#[trigger] a.space.free@[i]).page == x
                    && a.space.free@[i].generation <= a.space.generation) by {
                let i = choose|i: int|
                    0 <= i < b.space.free@.len() && (#[trigger] b.space.free@[i]).page == x && b.space.reusable(
                        b.space.free@[i],
                    );
                assert(a.space.free@[i].page == x);
            }
            assert forall|x: u32| #[trigger] b.space.listed(x) implies a.space.listed(x) by {
                let i = choose|i: int| 0 <= i < b.space.free@.len() && (#[trigger] b.space.free@[i]).page == x;
                assert(a.space.free@[i].page == x);
            }
            assert forall|x: u32| #[trigger] owns(pb, root, h, x) implies !b.space.usable(x) && !b.space.listed(x)
                && !b.space.is_dirty(x) by {
                assert(owns(pa, root, h, x));
                assert(!a.space.listed(x));
                if b.space.usable(x) && x < pb.len() {
                    assert(a.space.listed(x));
                }
            }
            assert forall|x: u32| #[trigger] owns(pb, c.meta.root, c.height, x) implies !b.space.usable(x)
                && !b.space.is_dirty(x) by {
                assert(owns(pa, c.meta.root, c.height, x));
                lemma_owns_range(pa, c.meta.root, c.height, None, None, x);
                if b.space.usable(x) {
                    let i = choose|i: int|
                        0 <= i < a.space.free@.len() && (#[trigger] a.space.free@[i]).page == x
                            && a.space.free@[i].generation <= a.space.generation;
                    assert(!owns(pa, c.meta.root, c.height, a.space.free@[i].page));
                }
            }
            assert forall|i: int| 0 <= i < b.space.free@.len() implies !owns(pb, root, h, (#[trigger] b.space.free@[i]).page) by {
                assert(a.space.free@[i] == b.space.free@[i]);
                assert(a.space.listed(b.space.free@[i].page));
            }
            assert(b.space.ok());
            assert(owns(pa, root, h, root));
            assert(m@.free == a.space.free@);
            assert forall|i: int| 0 <= i < m@.free.len() implies {
                &&& FIRST_DATA_PAGE <= (#[trigger] m@.free[i]).page < pb.len()
                &&& m@.free[i].generation <= m.generation
                &&& !owns(pb, root, h, m@.free[i].page)
            } by {
                assert(b.space.free@[i] == m@.free[i]);
            }
            assert(image_ok(pb, m@, h));
            assert forall|x: u32| #[trigger] owns(pb, root, h, x) implies x < m.high_water by {
                assert(owns(pa, root, h, x));
            }
            let other = (1 - slot) as u32;
            assert(pb[other as int] == pa[other as int]);
            assert(slot != meta_slot(a.space.generation));
            assert(other == meta_slot(a.space.generation));
            lemma_meta_round_trip(c.meta);
            assert(meta_at(pb, other) == meta_of(meta_bytes(c.meta)));
        }
        Ok(())
    }

    /// An empty tree in a file without pages.
    fn initialize() -> (tree: BTree)
        ensures
            tree.wf(),
            tree@ == Map::<Seq<u8>, Seq<u8>>::empty(),
            tree.committed_entries() == tree@,
            tree.generation() == 1,
            tree.has_room_spec(),
    {
        let root: u32 = FIRST_DATA_PAGE;
        let mut pager = Pager::new();
        let _a = pager.allocate();
        let _b = pager.allocate();
        let _root = pager.allocate();
        pager.write(root, Page::new(PageKind::Leaf));
        let m = MetaState { generation: 1, root, entries: 0, high_water: 3, free: Vec::new() };
        pager.write(META_B, build_meta(&m));
        let space = Space { pager, generation: 1, free: Vec::new(), dirty: std::collections::HashSet::new() };
        let tree = BTree {
            space,
            root,
            entries: 0,
            height: Ghost(0),
            committed: Ghost(Snapshot { meta: m@, height: 0 }),
            previous: Ghost(None),
        };
        proof {
            let pages = tree.space.pages();
            assert(pages.len() == 3);
            assert(pages[2] == (PageView { kind: PageKind::Leaf, extra: 0, cells: Seq::empty() }));
            reveal(tree_ok);
            assert(tree_ok(pages, root, 0, None, None));
            assert(tree@ =~= Map::<Seq<u8>, Seq<u8>>::empty());
            assert(pages[0] == blank_page());
            assert(pages[1] == meta_page(m@));
            assert(m@.free =~= Seq::<FreeEntry>::empty());
        }
        tree
    }

    /// An empty tree.
    pub fn fresh() -> (r: BTree)
        ensures
            r.wf(),
            r@ == Map::<Seq<u8>, Seq<u8>>::empty(),
            r.committed_entries() == r@,
            r.has_room_spec(),
    {
        BTree::initialize()
    }

    /// Opens the tree in a file of pages. A file without meta pages becomes
    /// an empty tree.
    ///
    /// Pages past those the taken meta record counts belong to a generation
    /// that was never committed, and are given up.
    pub fn open(pager: Pager) -> (r: Result<BTree, TreeError>)
        requires
            pager.wf(),
        ensures
            opened(pager@, r),
    {
        let mut pager = pager;
        if pager.page_count() < FIRST_DATA_PAGE {
            return Ok(BTree::initialize());
        }
        let ghost before = pager@;
        let a = BTree::read_meta(&pager, META_A);
        let b = BTree::read_meta(&pager, META_B);
        let m = match (a, b) {
            (Some(a), Some(b)) => if a.generation >= b.generation {
                a
            } else {
                b
            },
            (Some(a), None) => a,
            (None, Some(b)) => b,
            (None, None) => {
                return Err(TreeError::NoMeta);
            },
        };
        pager.set_page_count(m.high_water);
        let ghost view = m@;
        proof {
            assert(pager@ =~= resized(before, view.high_water));
            assert(resized(pager@, view.high_water) =~= resized(before, view.high_water));
            assert forall|g: nat| #[trigger] sound_file(before, view, g) == sound_file(pager@, view, g) by {}
        }
        let ghost cut = pager@;
        let h: u64 = match BTree::height_in(&pager, &m) {
            Some(h) => h,
            None => { return Err(TreeError::Damaged) },
        };
        let tree = BTree {
            space: Space {
                pager,
                generation: m.generation,
                free: m.free,
                dirty: std::collections::HashSet::new(),
            },
            root: m.root,
            entries: m.entries,
            height: Ghost(h as nat),
            committed: Ghost(Snapshot { meta: view, height: h as nat }),
            previous: Ghost(None),
        };
        proof {
            let pages = tree.space.pages();
            assert(sound_file(cut, view, h as nat));
            assert(sound_file(before, view, h as nat));
            assert forall|x: u32| #[trigger] owns(pages, view.root, h as nat, x) implies !tree.space.usable(x)
                && !tree.space.listed(x) && x < view.high_water by {
                lemma_owns_range(pages, view.root, h as nat, None, None, x);
                if tree.space.listed(x) {
                    let i = choose|i: int| 0 <= i < view.free.len() && (#[trigger] view.free[i]).page == x;
                    assert(!owns(pages, view.root, h as nat, view.free[i].page));
                }
                if tree.space.usable(x) {
                    let i = choose|i: int|
                        0 <= i < tree.space.free@.len() && (#[trigger] tree.space.free@[i]).page == x
                            && tree.space.reusable(tree.space.free@[i]);
                    assert(!owns(pages, view.root, h as nat, view.free[i].page));
                }
            }
            assert(tree.space.ok());
            assert(tree.wf());
            assert(tree@ == entries(resized(before, view.high_water), view.root, h as nat));
            assert(tree.committed_entries() == tree@);
            assert(chosen_meta(before) == Some(view));
            assert(exists|g: nat| #[trigger]
                sound_file(before, view, g) && tree@ == entries(
                    resized(before, view.high_water),
                    view.root,
                    g,
                ));
            assert(tree.generation() == view.generation);
            assert(tree.pages() == resized(before, view.high_water));
            assert(opened(before, Ok::<BTree, TreeError>(tree)));
        }
        Ok(tree)
    }

    /// Whether a file of as many pages as a meta record counts is sound;
    /// says how high its tree is.
    fn height_in(pager: &Pager, m: &MetaState) -> (r: Option<u64>)
        requires
            pager.wf(),
            pager@.len() == m.high_water,
        ensures
            match r {
                Some(h) => sound_file(pager@, m@, h as nat),
                None => forall|g: nat| !#[trigger] sound_file(pager@, m@, g),
            },
    {
        proof {
            assert(resized(pager@, m.high_water) =~= pager@);
        }
        if m.high_water < FIRST_DATA_PAGE {
            return None;
        }
        let slot: u32 = if m.generation % 2 == 0 {
            META_A
        } else {
            META_B
        };
        let other: u32 = 1 - slot;
        match pager.read(slot) {
            Some(page) => if !is_meta_page(page, m) {
                return None;
            },
            None => { return None },
        }
        match BTree::read_meta(pager, other) {
            Some(o) => if o.generation >= m.generation {
                return None;
            },
            None => {},
        }
        image_fits(pager, m)
    }
}

/// A file whose meta record `m` describes a tree of height `h`, and whose
/// other meta page holds nothing newer.
pub open spec fn sound_file(pages: Seq<PageView>, m: MetaView, h: nat) -> bool {
    let kept = resized(pages, m.high_water);
    &&& m.high_water >= FIRST_DATA_PAGE
    &&& image_ok(kept, m, h)
    &&& kept[meta_slot(m.generation) as int] == meta_page(m)
    &&& meta_at(kept, (1 - meta_slot(m.generation)) as u32) matches Some(o) ==> o.generation < m.generation
}

impl BTree {
    /// Visits the entries whose keys begin with `prefix`, in key order or
    /// reversed: all of them, or those strictly past `start_after`, up to and
    /// with the first one for which `visit` does not say to go on. What was
    /// visited comes back, and the visitor's error if it gave one.
    pub fn for_each_range<E, F: Fn(&Vec<u8>, &Vec<u8>) -> Result<bool, E>>(
        &self,
        prefix: &[u8],
        start_after: Option<&[u8]>,
        reverse: bool,
        visit: F,
    ) -> (r: (Vec<(Vec<u8>, Vec<u8>)>, Result<(), E>))
        requires
            self.wf(),
            forall|k: &Vec<u8>, v: &Vec<u8>| visit.requires((k, v)),
        ensures
            ({
                let start = match start_after {
                    Some(s) => Some(s@),
                    None => None,
                };
                let ks = walk_keys(self@, prefix@, start, reverse);
                let seen = r.0@;
                &&& in_range(ks, self@, prefix@, start, reverse)
                &&& seen.len() <= ks.len()
                &&& forall|i: int|
                    0 <= i < seen.len() ==> (#[trigger] seen[i]).0@ == ks[i] && seen[i].1@ == self@[ks[i]]
                &&& forall|i: int|
                    0 <= i < seen.len() - 1 ==> visit.ensures((&(#[trigger] seen[i]).0, &seen[i].1), Ok(true))
                &&& match r.1 {
                    Ok(()) => {
                        ||| seen.len() == ks.len() && (seen.len() > 0 ==> visit.ensures(
                            (&seen.last().0, &seen.last().1),
                            Ok(true),
                        ))
                        ||| seen.len() > 0 && visit.ensures((&seen.last().0, &seen.last().1), Ok(false))
                    },
                    Err(e) => seen.len() > 0 && visit.ensures((&seen.last().0, &seen.last().1), Err(e)),
                }
            }),
    {
        let ghost start = match start_after {
            Some(s) => Some(s@),
            None => None,
        };
        let ghost ks = walk_keys(self@, prefix@, start, reverse);
        proof {
            lemma_walk(self@, prefix@, start, reverse);
            lemma_in_range(self@, prefix@, start, reverse);
        }
        let mut cursor: Option<Vec<u8>> = match start_after {
            Some(s) => Some(copy_bytes(s)),
            None => None,
        };
        let mut out: Vec<(Vec<u8>, Vec<u8>)> = Vec::new();
        loop
            invariant
                self.wf(),
                forall|k: &Vec<u8>, v: &Vec<u8>| visit.requires((k, v)),
                is_walk(self@, prefix@, start, reverse, ks),
                in_range(ks, self@, prefix@, start, reverse),
                out@.len() <= ks.len(),
                cursor_view(cursor) == cursor_after(start, ks, out@.len() as int),
                forall|i: int|
                    0 <= i < out@.len() ==> (#[trigger] out@[i]).0@ == ks[i] && out@[i].1@ == self@[ks[i]],
                forall|i: int|
                    0 <= i < out@.len() ==> visit.ensures((&(#[trigger] out@[i]).0, &out@[i].1), Ok(true)),
                ks == walk_keys(self@, prefix@, start, reverse),
                start == (match start_after {
                    Some(s) => Some(s@),
                    None => None,
                }),
            decreases ks.len() - out@.len(),
        {
            match self.range_next(prefix, &cursor, reverse) {
                None => {
                    proof {
                        if out@.len() < ks.len() {
                            assert(walk_step(self@, prefix@, start, reverse, ks, out@.len() as int));
                        }
                    }
                    return (out, Ok(()));
                },
                Some((key, value)) => {
                    proof {
                        if out@.len() < ks.len() {
                            assert(walk_step(self@, prefix@, start, reverse, ks, out@.len() as int));
                            crate::btree::walk::lemma_next_unique(
                                self@,
                                prefix@,
                                cursor_view(cursor),
                                reverse,
                                key@,
                                ks[out@.len() as int],
                            );
                        }
                    }
                    let go_on = visit(&key, &value);
                    cursor = Some(copy_bytes(&key));
                    out.push((key, value));
                    match go_on {
                        Ok(true) => {},
                        Ok(false) => { return (out, Ok(())) },
                        Err(e) => { return (out, Err(e)) },
                    }
                },
            }
        }
    }
}

/// The keys are those with the prefix past the start, in the order of the
/// direction.
pub open spec fn in_range(
    ks: Seq<Seq<u8>>,
    m: Map<Seq<u8>, Seq<u8>>,
    prefix: Seq<u8>,
    start: Option<Seq<u8>>,
    reverse: bool,
) -> bool {
    &&& forall|i: int, j: int| 0 <= i < j < ks.len() ==> past(#[trigger] ks[i], #[trigger] ks[j], reverse)
    &&& forall|k: Seq<u8>| #[trigger]
        ks.contains(k) <==> m.contains_key(k) && has_prefix(k, prefix) && (start matches Some(s) ==> past(
            s,
            k,
            reverse,
        ))
}

proof fn lemma_in_range(m: Map<Seq<u8>, Seq<u8>>, prefix: Seq<u8>, start: Option<Seq<u8>>, reverse: bool)
    requires
        m.dom().finite(),
    ensures
        in_range(walk_keys(m, prefix, start, reverse), m, prefix, start, reverse),
{
    lemma_walk_facts(m, prefix, start, reverse);
    let ks = walk_keys(m, prefix, start, reverse);
    assert forall|k: Seq<u8>| #[trigger] ks.contains(k) implies m.contains_key(k) && has_prefix(k, prefix) && (
    start matches Some(s) ==> past(s, k, reverse)) by {
        let i = choose|i: int| 0 <= i < ks.len() && ks[i] == k;
        assert(m.contains_key(ks[i]));
    }
}

/// What opening a file of pages gives: the tree that the taken meta record
/// describes, if the pages hold it.
pub open spec fn opened(pages: Seq<PageView>, r: Result<BTree, TreeError>) -> bool {
    &&& pages.len() < FIRST_DATA_PAGE ==> {
        &&& r matches Ok(t)
        &&& t.wf()
        &&& t@ == Map::<Seq<u8>, Seq<u8>>::empty()
        &&& t.committed_entries() == t@
        &&& t.generation() == 1
    }
    &&& pages.len() >= FIRST_DATA_PAGE ==> match r {
        Ok(t) => {
            &&& chosen_meta(pages) matches Some(m)
            &&& t.wf()
            &&& t.generation() == m.generation
            &&& t.pages() == resized(pages, m.high_water)
            &&& t.committed_entries() == t@
            &&& exists|h: nat| #[trigger]
                sound_file(pages, m, h) && t@ == entries(resized(pages, m.high_water), m.root, h)
        },
        Err(TreeError::NoMeta) => chosen_meta(pages) is None,
        Err(TreeError::Damaged) => chosen_meta(pages) matches Some(m) && forall|h: nat| !#[trigger]
            sound_file(pages, m, h),
        Err(_) => false,
    }
}

/// Opening the pages of a tree finds what was committed, all of it and
/// nothing else, whatever was put in or removed since.
pub proof fn law_opening_finds_what_was_committed(t: BTree, r: Result<BTree, TreeError>)
    requires
        t.wf(),
        opened(t.pages(), r),
    ensures
        r matches Ok(u) && u.wf() && u@ == t.committed_entries() && u.committed_entries() == u@ && u.generation()
            == t.generation(),
{
    let c = t.committed_snapshot();
    let pages = t.pages();
    law_crash_keeps_committed(t, pages);
    assert(sound_file(pages, c.meta, c.height));
    assert(pages.len() >= FIRST_DATA_PAGE);
    assert(chosen_meta(pages) == Some(c.meta));
    if let Err(e) = r {
        if e == TreeError::Damaged {
            let m = chosen_meta(pages)->0;
            assert(!sound_file(pages, m, c.height));
        }
    }
    if let Ok(u) = r {
        let kept = resized(pages, c.meta.high_water);
        let h = choose|h: nat| #[trigger] sound_file(pages, c.meta, h) && u@ == entries(kept, c.meta.root, h);
        lemma_height_unique(kept, c.meta.root, h, c.height, None, None, None, None);
    }
}

/// A crash keeps the committed tree: whatever else a file holds, as long as
/// it still has the last meta page and the pages that it names, and nothing
/// newer in the other meta page, opening it takes that meta record and finds
/// the committed entries.
pub proof fn law_crash_keeps_committed(t: BTree, file: Seq<PageView>)
    requires
        t.wf(),
        file.len() >= t.committed_snapshot().meta.high_water,
        file[meta_slot(t.generation()) as int] == t.pages()[meta_slot(t.generation()) as int],
        same_snapshot(t.pages(), file, t.committed_snapshot()),
        meta_at(file, (1 - meta_slot(t.generation())) as u32) matches Some(m) ==> m.generation
            < t.generation(),
    ensures
        chosen_meta(file) == Some(t.committed_snapshot().meta),
        sound_file(file, t.committed_snapshot().meta, t.committed_snapshot().height),
        entries(
            resized(file, t.committed_snapshot().meta.high_water),
            t.committed_snapshot().meta.root,
            t.committed_snapshot().height,
        ) == t.committed_entries(),
{
    let c = t.committed_snapshot();
    let m = c.meta;
    let pages = t.pages();
    let kept = resized(file, m.high_water);
    let slot = meta_slot(t.generation());
    lemma_meta_round_trip(m);
    assert(kept_free(m.free) == m.free);
    assert forall|x: u32| #[trigger] owns(pages, m.root, c.height, x) implies x < kept.len() && pages[x as int]
        == kept[x as int] by {
        lemma_owns_range(pages, m.root, c.height, None, None, x);
    }
    lemma_frame(pages, kept, m.root, c.height, None, None);
    assert(entries(kept, m.root, c.height) =~= entries(pages, m.root, c.height)) by {
        assert forall|k: Seq<u8>| lookup(kept, m.root, c.height, k) == lookup(pages, m.root, c.height, k) by {
        }
    }
    assert(owns(pages, m.root, c.height, m.root));
    lemma_owns_range(pages, m.root, c.height, None, None, m.root);
    assert(m.high_water > m.root >= FIRST_DATA_PAGE);
    assert(kept[slot as int] == file[slot as int]);
    assert(meta_at(file, slot) == Some(m));
    let other = (1 - slot) as u32;
    assert(kept[other as int] == file[other as int]);
    assert(meta_at(kept, other) == meta_at(file, other));
    assert forall|i: int| 0 <= i < m.free.len() implies {
        &&& FIRST_DATA_PAGE <= (#[trigger] m.free[i]).page < kept.len()
        &&& !owns(kept, m.root, c.height, m.free[i].page)
    } by {
        assert(!owns(pages, m.root, c.height, m.free[i].page));
    }
    assert(image_ok(kept, m, c.height));
}

/// Reading a key that was put gives the value, and every other key reads as
/// before; reading a key that was taken out gives nothing.
pub proof fn law_read_after_write(before: Map<Seq<u8>, Seq<u8>>, key: Seq<u8>, value: Seq<u8>, other: Seq<u8>)
    requires
        other != key,
    ensures
        before.insert(key, value).contains_key(key) && before.insert(key, value)[key] == value,
        before.insert(key, value).contains_key(other) == before.contains_key(other),
        before.contains_key(other) ==> before.insert(key, value)[other] == before[other],
        !before.remove(key).contains_key(key),
        before.remove(key).contains_key(other) == before.contains_key(other),
        before.contains_key(other) ==> before.remove(key)[other] == before[other],
{
}

} // verus!
