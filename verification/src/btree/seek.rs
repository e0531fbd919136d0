//! Finding entries by the order of their keys.

use vstd::prelude::*;

use crate::btree::cell::{leaf_key, leaf_value};
use crate::btree::family::{children, family_lookup, family_ok, lemma_branch_family, member_hi, member_lo};
use crate::btree::model::{
    branch_keys, in_bounds, leaf_keys, lemma_leaf_lookup, lemma_lookup_bounds, lemma_route, lemma_route_unique, lookup,
    nonempty, route, routes, tree_ok,
};
use crate::btree::node::{branch_child_at, branch_child_for, leaf_search};
use crate::bytes::{bytes_le, bytes_lt, copy_bytes, group_order};
use crate::page::{PageKind, Pager, PageView};

verus! {

/// Which way to look, and whether the key itself may be the answer.
#[derive(Clone, Copy, PartialEq, Eq, Debug, Structural)]
pub enum SeekMode {
    /// First entry with `key >= target`.
    Ge,
    /// First entry with `key > target`.
    Gt,
    /// Last entry with `key <= target`.
    Le,
    /// Last entry with `key < target`.
    Lt,
}

impl SeekMode {
    pub open spec fn is_forward(self) -> bool {
        self == SeekMode::Ge || self == SeekMode::Gt
    }
}

/// `k` lies on the side of `target` that `mode` looks at.
pub open spec fn admits(mode: SeekMode, target: Seq<u8>, k: Seq<u8>) -> bool {
    match mode {
        SeekMode::Ge => bytes_le(target, k),
        SeekMode::Gt => bytes_lt(target, k),
        SeekMode::Le => bytes_le(k, target),
        SeekMode::Lt => bytes_lt(k, target),
    }
}

/// `k` comes no later than `other` when looking in this direction.
pub open spec fn first_of(forward: bool, k: Seq<u8>, other: Seq<u8>) -> bool {
    if forward {
        bytes_le(k, other)
    } else {
        bytes_le(other, k)
    }
}

/// `found` is the first entry that the tree holds in the direction of
/// `mode` from `target`; `None` says that it holds none there.
pub open spec fn nearest(
    pages: Seq<PageView>,
    id: u32,
    h: nat,
    target: Seq<u8>,
    mode: SeekMode,
    found: Option<(Seq<u8>, Seq<u8>)>,
) -> bool {
    match found {
        Some((k, v)) => {
            &&& lookup(pages, id, h, k) == Some(v)
            &&& admits(mode, target, k)
            &&& forall|o: Seq<u8>|
                (#[trigger] lookup(pages, id, h, o)) is Some && admits(mode, target, o) ==> first_of(
                    mode.is_forward(),
                    k,
                    o,
                )
        },
        None => forall|o: Seq<u8>|
            (#[trigger] lookup(pages, id, h, o)) is Some ==> !admits(mode, target, o),
    }
}

/// `found` is the first (or last) entry of the tree; `None` says that the
/// tree is empty.
pub open spec fn at_edge(
    pages: Seq<PageView>,
    id: u32,
    h: nat,
    first: bool,
    found: Option<(Seq<u8>, Seq<u8>)>,
) -> bool {
    match found {
        Some((k, v)) => {
            &&& lookup(pages, id, h, k) == Some(v)
            &&& forall|o: Seq<u8>|
                (#[trigger] lookup(pages, id, h, o)) is Some ==> first_of(first, k, o)
        },
        None => forall|o: Seq<u8>| (#[trigger] lookup(pages, id, h, o)) is None,
    }
}

/// An entry as a value.
pub open spec fn entry_view(entry: Option<(Vec<u8>, Vec<u8>)>) -> Option<(Seq<u8>, Seq<u8>)> {
    match entry {
        Some((k, v)) => Some((k@, v@)),
        None => None,
    }
}

/// A key within a member's bounds belongs to that member.
pub proof fn lemma_member_route(
    pages: Seq<PageView>,
    cs: Seq<u32>,
    keys: Seq<Seq<u8>>,
    g: nat,
    lo: Option<Seq<u8>>,
    hi: Option<Seq<u8>>,
    i: int,
    key: Seq<u8>,
)
    requires
        family_ok(pages, cs, keys, g, lo, hi),
        0 <= i < cs.len(),
        lookup(pages, cs[i], g, key) is Some,
    ensures
        route(keys, key) == i,
        in_bounds(key, member_lo(keys, i, lo), member_hi(keys, i, hi)),
        family_lookup(pages, cs, keys, g, key) == lookup(pages, cs[i], g, key),
{
    broadcast use group_order;

    reveal(family_ok);
    lemma_lookup_bounds(pages, cs[i], g, member_lo(keys, i, lo), member_hi(keys, i, hi), key);
    assert forall|j: int| 0 <= j < i implies bytes_le(#[trigger] keys[j], key) by {
        if j < i - 1 {
            assert(bytes_lt(keys[j], keys[i - 1]));
        }
    }
    assert(routes(keys, key, i));
    lemma_route_unique(keys, key, i);
}

/// Keys of an earlier member come before keys of a later one.
pub proof fn lemma_member_order(
    pages: Seq<PageView>,
    cs: Seq<u32>,
    keys: Seq<Seq<u8>>,
    g: nat,
    lo: Option<Seq<u8>>,
    hi: Option<Seq<u8>>,
    i: int,
    a: Seq<u8>,
    j: int,
    b: Seq<u8>,
)
    requires
        family_ok(pages, cs, keys, g, lo, hi),
        0 <= i < j < cs.len(),
        lookup(pages, cs[i], g, a) is Some,
        lookup(pages, cs[j], g, b) is Some,
    ensures
        bytes_lt(a, b),
{
    broadcast use group_order;

    lemma_member_route(pages, cs, keys, g, lo, hi, i, a);
    lemma_member_route(pages, cs, keys, g, lo, hi, j, b);
    reveal(family_ok);
    if i < j - 1 {
        assert(bytes_lt(keys[i], keys[j - 1]));
    }
}

/// A tree that is not an empty leaf holds an entry.
pub proof fn lemma_has_entry(
    pages: Seq<PageView>,
    id: u32,
    h: nat,
    lo: Option<Seq<u8>>,
    hi: Option<Seq<u8>>,
)
    requires
        tree_ok(pages, id, h, lo, hi),
        nonempty(pages, id),
    ensures
        exists|k: Seq<u8>| (#[trigger] lookup(pages, id, h, k)) is Some,
    decreases h,
{
    let page = pages[id as int];
    if h == 0 {
        reveal(tree_ok);
        lemma_leaf_lookup(page, lo, hi, 0);
        assert(lookup(pages, id, h, leaf_keys(page)[0]) is Some);
    } else {
        lemma_branch_family(pages, id, h, lo, hi);
        let (cs, keys) = (children(page), branch_keys(page));
        let g = (h - 1) as nat;
        assert(tree_ok(pages, cs[0], g, member_lo(keys, 0, lo), member_hi(keys, 0, hi)) && nonempty(
            pages,
            cs[0],
        )) by {
            reveal(family_ok);
        }
        lemma_has_entry(pages, cs[0], g, member_lo(keys, 0, lo), member_hi(keys, 0, hi));
        let k = choose|k: Seq<u8>| (#[trigger] lookup(pages, cs[0], g, k)) is Some;
        lemma_member_route(pages, cs, keys, g, lo, hi, 0, k);
        assert(lookup(pages, id, h, k) is Some);
    }
}

/// The first (or last) entry of the tree of height `h` at `page_id`.
///
/// A child without entries is passed over.
pub fn edge_entry(
    pager: &Pager,
    page_id: u32,
    first: bool,
    Ghost(h): Ghost<nat>,
    Ghost(lo): Ghost<Option<Seq<u8>>>,
    Ghost(hi): Ghost<Option<Seq<u8>>>,
) -> (r: Option<(Vec<u8>, Vec<u8>)>)
    requires
        pager.wf(),
        tree_ok(pager@, page_id, h, lo, hi),
    ensures
        at_edge(pager@, page_id, h, first, entry_view(r)),
    decreases h,
{
    broadcast use group_order;

    let ghost pages = pager@;
    let ghost page_view = pages[page_id as int];
    proof {
        reveal(tree_ok);
    }
    let page = match pager.read(page_id) {
        Some(page) => page,
        None => { return None },
    };
    match page.kind() {
        PageKind::Branch => {
            let ghost g = (h - 1) as nat;
            let ghost cs = children(page_view);
            let ghost keys = branch_keys(page_view);
            proof {
                lemma_branch_family(pages, page_id, h, lo, hi);
                assert(page@.cells.len() * crate::page::SLOT_LEN <= crate::page::PAGE_BODY_LEN) by {
                    page.lemma_wf();
                }
            }
            let count: usize = page.slot_count() + 1;
            let mut step: usize = 0;
            while step < count
                invariant
                    pager.wf(),
                    pages == pager@,
                    page_view == pages[page_id as int],
                    page@ == page_view,
                    h > 0,
                    g == (h - 1) as nat,
                    cs == children(page_view),
                    keys == branch_keys(page_view),
                    count == cs.len(),
                    step <= count,
                    family_ok(pages, cs, keys, g, lo, hi),
                    forall|key: Seq<u8>| #[trigger]
                        lookup(pages, page_id, h, key) == family_lookup(pages, cs, keys, g, key),
                    forall|i: int, o: Seq<u8>|
                        (if first { 0 <= i < step } else { count - step <= i < count }) ==> (
                        #[trigger] lookup(pages, cs[i], g, o)) is None,
                decreases count - step,
            {
                let slot: usize = if first { step } else { count - 1 - step };
                let c: u32 = branch_child_at(page, slot);
                proof {
                    assert(c == cs[slot as int]);
                    assert(tree_ok(
                        pages,
                        cs[slot as int],
                        g,
                        member_lo(keys, slot as int, lo),
                        member_hi(keys, slot as int, hi),
                    )) by {
                        reveal(family_ok);
                    }
                }
                let found = edge_entry(
                    pager,
                    c,
                    first,
                    Ghost(g),
                    Ghost(member_lo(keys, slot as int, lo)),
                    Ghost(member_hi(keys, slot as int, hi)),
                );
                if found.is_some() {
                    proof {
                        let (k, v) = entry_view(found)->0;
                        lemma_member_route(pages, cs, keys, g, lo, hi, slot as int, k);
                        assert forall|o: Seq<u8>|
                            (#[trigger] lookup(pages, page_id, h, o)) is Some implies first_of(first, k, o) by {
                            lemma_route(keys, o);
                            let i = route(keys, o);
                            assert(lookup(pages, cs[i], g, o) is Some);
                            if i < slot {
                                lemma_member_order(pages, cs, keys, g, lo, hi, i, o, slot as int, k);
                            } else if i > slot {
                                lemma_member_order(pages, cs, keys, g, lo, hi, slot as int, k, i, o);
                            }
                        }
                    }
                    return found;
                }
                step = step + 1;
            }
            proof {
                assert forall|o: Seq<u8>| (#[trigger] lookup(pages, page_id, h, o)) is None by {
                    lemma_route(keys, o);
                    reveal(family_ok);
                    assert(lookup(pages, cs[route(keys, o)], g, o) is None);
                }
            }
            None
        },
        _ => {
            let count: usize = page.slot_count();
            if count == 0 {
                return None;
            }
            let slot: usize = if first { 0 } else { count - 1 };
            match page.cell(slot) {
                Some(cell) => {
                    let r = (copy_bytes(leaf_key(cell)), copy_bytes(leaf_value(cell)));
                    proof {
                        let keys = leaf_keys(page_view);
                        assert(r.0@ == keys[slot as int]);
                        lemma_leaf_lookup(page_view, lo, hi, slot as int);
                        assert forall|o: Seq<u8>|
                            (#[trigger] lookup(pages, page_id, h, o)) is Some implies first_of(first, r.0@, o) by {
                            let i = choose|i: int| 0 <= i < page_view.cells.len() && #[trigger] keys[i] == o;
                            if i < slot {
                                assert(bytes_lt(keys[i], keys[slot as int]));
                            } else if i > slot {
                                assert(bytes_lt(keys[slot as int], keys[i]));
                            }
                        }
                    }
                    Some(r)
                },
                None => None,
            }
        },
    }
}

/// Which slot of a leaf answers a search that stopped at `index`.
fn leaf_candidate(index: usize, found: bool, count: usize, mode: SeekMode) -> (r: Option<usize>)
    requires
        index <= count,
        found ==> index < count,
    ensures
        r == (match mode {
            SeekMode::Ge => if index < count {
                Some(index)
            } else {
                None
            },
            SeekMode::Gt => if found {
                if index + 1 < count {
                    Some((index + 1) as usize)
                } else {
                    None
                }
            } else if index < count {
                Some(index)
            } else {
                None
            },
            SeekMode::Le => if found {
                Some(index)
            } else if index > 0 {
                Some((index - 1) as usize)
            } else {
                None
            },
            SeekMode::Lt => if index > 0 {
                Some((index - 1) as usize)
            } else {
                None
            },
        }),
{
    match mode {
        SeekMode::Ge | SeekMode::Gt => {
            let start: usize = if found && mode == SeekMode::Gt { index + 1 } else { index };
            if start < count {
                Some(start)
            } else {
                None
            }
        },
        SeekMode::Le | SeekMode::Lt => {
            if found && mode == SeekMode::Le {
                Some(index)
            } else if index > 0 {
                Some(index - 1)
            } else {
                None
            }
        },
    }
}

/// The entry nearest `key` in the direction of `mode`, in the tree of
/// height `h` at `page_id`.
///
/// The search goes down to the leaf that `key` belongs to. Where the answer
/// is not in it, the neighbouring subtree on the way back up has it.
#[verifier::rlimit(30)]
pub fn seek_from(
    pager: &Pager,
    page_id: u32,
    key: &[u8],
    mode: SeekMode,
    Ghost(h): Ghost<nat>,
    Ghost(lo): Ghost<Option<Seq<u8>>>,
    Ghost(hi): Ghost<Option<Seq<u8>>>,
) -> (r: Option<(Vec<u8>, Vec<u8>)>)
    requires
        pager.wf(),
        tree_ok(pager@, page_id, h, lo, hi),
    ensures
        nearest(pager@, page_id, h, key@, mode, entry_view(r)),
    decreases h,
{
    broadcast use group_order;

    let ghost pages = pager@;
    let ghost page_view = pages[page_id as int];
    proof {
        reveal(tree_ok);
    }
    let page = match pager.read(page_id) {
        Some(page) => page,
        None => { return None },
    };
    match page.kind() {
        PageKind::Branch => {
            let ghost g = (h - 1) as nat;
            let ghost cs = children(page_view);
            let ghost keys = branch_keys(page_view);
            proof {
                lemma_branch_family(pages, page_id, h, lo, hi);
            }
            let (slot, c) = branch_child_for(page, key);
            proof {
                assert(c == cs[slot as int]);
                reveal(family_ok);
            }
            let here = seek_from(
                pager,
                c,
                key,
                mode,
                Ghost(g),
                Ghost(member_lo(keys, slot as int, lo)),
                Ghost(member_hi(keys, slot as int, hi)),
            );
            proof {
                // What the other children hold lies on one side of the key.
                assert forall|o: Seq<u8>| (#[trigger] lookup(pages, page_id, h, o)) is Some implies {
                    let i = route(keys, o);
                    &&& 0 <= i < cs.len()
                    &&& lookup(pages, cs[i], g, o) is Some
                    &&& i < slot ==> bytes_lt(o, key@)
                    &&& i > slot ==> bytes_lt(key@, o)
                } by {
                    lemma_route(keys, o);
                    let i = route(keys, o);
                    lemma_member_route(pages, cs, keys, g, lo, hi, i, o);
                    if i < slot {
                        assert(bytes_le(keys[i], key@));
                    } else if i > slot {
                        assert(bytes_le(keys[i - 1], o));
                        if slot < i - 1 {
                            assert(bytes_lt(keys[slot as int], keys[i - 1]));
                        }
                    }
                }
            }
            if here.is_some() {
                proof {
                    let (k, v) = entry_view(here)->0;
                    lemma_member_route(pages, cs, keys, g, lo, hi, slot as int, k);
                    assert forall|o: Seq<u8>|
                        (#[trigger] lookup(pages, page_id, h, o)) is Some && admits(mode, key@, o) implies first_of(
                        mode.is_forward(),
                        k,
                        o,
                    ) by {
                        let i = route(keys, o);
                        if i < slot {
                            lemma_member_order(pages, cs, keys, g, lo, hi, i, o, slot as int, k);
                        } else if i > slot {
                            lemma_member_order(pages, cs, keys, g, lo, hi, slot as int, k, i, o);
                        }
                    }
                }
                return here;
            }
            let forward: bool = mode == SeekMode::Ge || mode == SeekMode::Gt;
            let beside: usize = if forward {
                if slot < page.slot_count() {
                    slot + 1
                } else {
                    proof {
                        assert forall|o: Seq<u8>|
                            (#[trigger] lookup(pages, page_id, h, o)) is Some implies !admits(mode, key@, o) by {
                            let i = route(keys, o);
                            assert(i <= slot);
                        }
                    }
                    return None;
                }
            } else {
                if slot > 0 {
                    slot - 1
                } else {
                    proof {
                        assert forall|o: Seq<u8>|
                            (#[trigger] lookup(pages, page_id, h, o)) is Some implies !admits(mode, key@, o) by {
                            let i = route(keys, o);
                            assert(i >= slot);
                        }
                    }
                    return None;
                }
            };
            let n: u32 = branch_child_at(page, beside);
            proof {
                assert(n == cs[beside as int]);
                lemma_has_entry(
                    pages,
                    n,
                    g,
                    member_lo(keys, beside as int, lo),
                    member_hi(keys, beside as int, hi),
                );
            }
            let found = edge_entry(
                pager,
                n,
                forward,
                Ghost(g),
                Ghost(member_lo(keys, beside as int, lo)),
                Ghost(member_hi(keys, beside as int, hi)),
            );
            proof {
                assert(entry_view(found) is Some);
                let (k, v) = entry_view(found)->0;
                lemma_member_route(pages, cs, keys, g, lo, hi, beside as int, k);
                assert(lookup(pages, page_id, h, k) is Some);
                assert forall|o: Seq<u8>|
                    (#[trigger] lookup(pages, page_id, h, o)) is Some && admits(mode, key@, o) implies first_of(
                    mode.is_forward(),
                    k,
                    o,
                ) by {
                    let i = route(keys, o);
                    if i < beside {
                        lemma_member_order(pages, cs, keys, g, lo, hi, i, o, beside as int, k);
                    } else if i > beside {
                        lemma_member_order(pages, cs, keys, g, lo, hi, beside as int, k, i, o);
                    }
                }
            }
            found
        },
        _ => {
            let (index, found) = leaf_search(page, key);
            let ghost keys = leaf_keys(page_view);
            proof {
                assert forall|o: Seq<u8>| (#[trigger] lookup(pages, page_id, h, o)) is Some implies exists|i: int|
                    0 <= i < page_view.cells.len() && #[trigger] keys[i] == o by {
                }
            }
            match leaf_candidate(index, found, page.slot_count(), mode) {
                Some(slot) => {
                    match page.cell(slot) {
                        Some(cell) => {
                            let r = (copy_bytes(leaf_key(cell)), copy_bytes(leaf_value(cell)));
                            proof {
                                assert(r.0@ == keys[slot as int]);
                                lemma_leaf_lookup(page_view, lo, hi, slot as int);
                                assert forall|o: Seq<u8>|
                                    (#[trigger] lookup(pages, page_id, h, o)) is Some && admits(mode, key@, o)
                                    implies first_of(mode.is_forward(), r.0@, o) by {
                                    let i = choose|i: int| 0 <= i < page_view.cells.len() && #[trigger] keys[i] == o;
                                    if i < slot {
                                        assert(bytes_lt(keys[i], keys[slot as int]));
                                    } else if i > slot {
                                        assert(bytes_lt(keys[slot as int], keys[i]));
                                    }
                                }
                            }
                            Some(r)
                        },
                        None => None,
                    }
                },
                None => {
                    proof {
                        assert forall|o: Seq<u8>|
                            (#[trigger] lookup(pages, page_id, h, o)) is Some implies !admits(mode, key@, o) by {
                            let i = choose|i: int| 0 <= i < page_view.cells.len() && #[trigger] keys[i] == o;
                        }
                    }
                    None
                },
            }
        },
    }
}

} // verus!
