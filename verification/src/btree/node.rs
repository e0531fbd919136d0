//! Searching, changing and rebuilding single tree pages.

use vstd::prelude::*;

use crate::btree::cell::{
    branch_cell, branch_cell_of, branch_child, branch_key, branch_key_of, leaf_key, lemma_branch_cell,
};
use crate::btree::family::children;
use crate::btree::model::{branch_keys, child, leaf_keys, routes, sorted};
use crate::bytes::{bytes_le, bytes_lt, compare, copy_bytes, group_order, lemma_lt_transitive, Order};
use crate::page::{
    cells_size, cells_view, lemma_size_concat, lemma_size_count, Page, PageKind, PageView, PAGE_BODY_LEN, SLOT_LEN,
};

verus! {

/// `index` is where `key` stands, or would be inserted, among `keys`.
pub open spec fn position_of(keys: Seq<Seq<u8>>, key: Seq<u8>, index: int, found: bool) -> bool {
    &&& 0 <= index <= keys.len()
    &&& forall|i: int| 0 <= i < index ==> bytes_lt(#[trigger] keys[i], key)
    &&& found ==> index < keys.len() && keys[index] == key
    &&& forall|i: int| index <= i < keys.len() && !(found && i == index) ==> bytes_lt(key, #[trigger] keys[i])
}

/// Position of `key` among a leaf's cells, and whether it is there.
pub fn leaf_search(page: &Page, key: &[u8]) -> (r: (usize, bool))
    requires
        sorted(leaf_keys(page@)),
    ensures
        position_of(leaf_keys(page@), key@, r.0 as int, r.1),
{
    broadcast use group_order;

    let ghost keys = leaf_keys(page@);
    let mut low: usize = 0;
    let mut high: usize = page.slot_count();
    while low < high
        invariant
            keys == leaf_keys(page@),
            sorted(keys),
            low <= high <= page@.cells.len(),
            page@.cells.len() <= usize::MAX,
            forall|i: int| 0 <= i < low ==> bytes_lt(#[trigger] keys[i], key@),
            forall|i: int| high <= i < keys.len() ==> bytes_lt(key@, #[trigger] keys[i]),
        decreases high - low,
    {
        let mid: usize = low + (high - low) / 2;
        let cell = match page.cell(mid) {
            Some(cell) => cell,
            None => { return (low, false) },
        };
        assert(keys[mid as int] == crate::btree::cell::leaf_key_of(page@.cells[mid as int]));
        match compare(leaf_key(cell), key) {
            Order::Less => {
                assert forall|i: int| 0 <= i < mid + 1 implies bytes_lt(#[trigger] keys[i], key@) by {
                    if i < mid {
                        lemma_lt_transitive(keys[i], keys[mid as int], key@);
                    }
                }
                low = mid + 1;
            },
            Order::Greater => {
                assert forall|i: int| mid <= i < keys.len() implies bytes_lt(key@, #[trigger] keys[i]) by {
                    if i > mid {
                        lemma_lt_transitive(key@, keys[mid as int], keys[i]);
                    }
                }
                high = mid;
            },
            Order::Equal => {
                return (mid, true);
            },
        }
    }
    (low, false)
}

/// Which child of a branch a key routes to, with its position.
pub fn branch_child_for(page: &Page, key: &[u8]) -> (r: (usize, u32))
    ensures
        routes(branch_keys(page@), key@, r.0 as int),
        r.1 == child(page@, r.0 as int),
{
    broadcast use group_order;

    let mut slot: usize = 0;
    let count: usize = page.slot_count();
    while slot < count
        invariant
            count == page@.cells.len(),
            slot <= count,
            forall|i: int| 0 <= i < slot ==> bytes_le(#[trigger] branch_keys(page@)[i], key@),
        decreases count - slot,
    {
        let cell = match page.cell(slot) {
            Some(cell) => cell,
            None => { return (slot, branch_child_at(page, slot)) },
        };
        assert(branch_keys(page@)[slot as int] == branch_key_of(cell@));
        match compare(branch_key(cell), key) {
            Order::Greater => {
                return (slot, branch_child_at(page, slot));
            },
            _ => {
                slot = slot + 1;
            },
        }
    }
    (slot, branch_child_at(page, slot))
}

/// The child at position `slot`, the leftmost being 0.
pub fn branch_child_at(page: &Page, slot: usize) -> (r: u32)
    requires
        slot <= page@.cells.len(),
    ensures
        r == child(page@, slot as int),
{
    if slot == 0 {
        return page.extra();
    }
    match page.cell(slot - 1) {
        Some(cell) => branch_child(cell),
        None => 0,
    }
}

/// A branch page with another child at position `slot`.
pub open spec fn with_child(page: PageView, slot: int, c: u32) -> PageView {
    if slot == 0 {
        PageView { extra: c, ..page }
    } else {
        PageView {
            cells: page.cells.update(slot - 1, branch_cell_of(branch_key_of(page.cells[slot - 1]), c)),
            ..page
        }
    }
}

/// Every cell of a branch page is as long as its separator asks for.
pub open spec fn cells_exact(page: PageView) -> bool {
    forall|i: int|
        0 <= i < page.cells.len() ==> {
            &&& (#[trigger] page.cells[i]).len() == 6 + branch_key_of(page.cells[i]).len()
            &&& branch_key_of(page.cells[i]).len() < 0x1_0000
        }
}

pub proof fn lemma_with_child(page: PageView, slot: int, c: u32)
    requires
        cells_exact(page),
        0 <= slot <= page.cells.len(),
    ensures
        cells_exact(with_child(page, slot, c)),
        branch_keys(with_child(page, slot, c)) == branch_keys(page),
        children(with_child(page, slot, c)) == children(page).update(slot, c),
        cells_size(with_child(page, slot, c).cells) == cells_size(page.cells),
        with_child(page, slot, c).kind == page.kind,
        with_child(page, slot, c).cells.len() == page.cells.len(),
{
    let next = with_child(page, slot, c);
    if slot > 0 {
        let key = branch_key_of(page.cells[slot - 1]);
        lemma_branch_cell(key, c);
        crate::page::lemma_size_update(page.cells, slot - 1, branch_cell_of(key, c));
    }
    assert(branch_keys(next) =~= branch_keys(page));
    assert(children(next) =~= children(page).update(slot, c));
}

/// Puts another child at position `slot`.
pub fn set_branch_child(page: &mut Page, slot: usize, c: u32)
    requires
        old(page).wf(),
        cells_exact(old(page)@),
        slot <= old(page)@.cells.len(),
    ensures
        final(page).wf(),
        final(page)@ == with_child(old(page)@, slot as int, c),
{
    if slot == 0 {
        page.set_extra(c);
        return;
    }
    proof {
        lemma_with_child(page@, slot as int, c);
        page.lemma_wf();
        lemma_branch_cell(branch_key_of(page@.cells[slot - 1]), c);
    }
    let updated: Vec<u8> = match page.cell(slot - 1) {
        Some(cell) => {
            branch_cell(branch_key(cell), c)
        },
        None => { return },
    };
    let _done = page.replace_cell(slot - 1, &updated);
}

/// The cells of a page as a list.
pub fn page_cells(page: &Page) -> (cells: Vec<Vec<u8>>)
    ensures
        cells_view(cells@) == page@.cells,
{
    let mut cells: Vec<Vec<u8>> = Vec::new();
    let count: usize = page.slot_count();
    let mut i: usize = 0;
    while i < count
        invariant
            count == page@.cells.len(),
            i <= count,
            cells@.len() == i,
            forall|j: int| 0 <= j < i ==> (#[trigger] cells@[j])@ == page@.cells[j],
        decreases count - i,
    {
        match page.cell(i) {
            Some(cell) => {
                cells.push(copy_bytes(cell));
            },
            None => {},
        }
        i = i + 1;
    }
    proof {
        assert(cells_view(cells@) =~= page@.cells);
    }
    cells
}

/// A cut that leaves something on both sides, each side fitting a page.
pub open spec fn cut_ok(cells: Seq<Seq<u8>>, at: int) -> bool {
    &&& 0 < at < cells.len()
    &&& cells_size(cells.take(at)) <= PAGE_BODY_LEN
    &&& cells_size(cells.skip(at)) <= PAGE_BODY_LEN
}

/// The position of the first cell with which at least half of the bytes are
/// reached, but not the first cell of all.
pub open spec fn midpoint(cells: Seq<Seq<u8>>, from: int) -> int
    decreases cells.len() - from,
{
    if from >= cells.len() {
        1
    } else if cells_size(cells.take(from + 1)) * 2 >= cells_size(cells) {
        if from == 0 {
            1
        } else {
            from
        }
    } else {
        midpoint(cells, from + 1)
    }
}

pub open spec fn distance(a: int, b: int) -> int {
    if a <= b {
        b - a
    } else {
        a - b
    }
}

/// The byte size of the cells before position `to`.
fn prefix_size(cells: &Vec<Vec<u8>>, from: usize, to: usize) -> (r: usize)
    requires
        from <= to <= cells@.len(),
        cells_size(cells_view(cells@)) <= 100_000,
    ensures
        r == cells_size(cells_view(cells@).subrange(from as int, to as int)),
        r <= 100_000,
{
    let ghost view = cells_view(cells@);
    let mut total: usize = 0;
    let mut i: usize = from;
    proof {
        assert(view.subrange(from as int, from as int) =~= Seq::<Seq<u8>>::empty());
    }
    while i < to
        invariant
            from <= i <= to <= cells@.len(),
            view == cells_view(cells@),
            cells_size(view) <= 100_000,
            total == cells_size(view.subrange(from as int, i as int)),
            total <= 100_000,
        decreases to - i,
    {
        proof {
            let part = view.subrange(from as int, i + 1);
            assert(part.drop_last() =~= view.subrange(from as int, i as int));
            assert(part.last() == cells@[i as int]@);
            assert(view =~= view.take(from as int) + part + view.skip(i + 1));
            lemma_size_concat(view.take(from as int) + part, view.skip(i + 1));
            lemma_size_concat(view.take(from as int), part);
        }
        total = total + cells[i].len() + SLOT_LEN;
        i = i + 1;
    }
    total
}

/// Whether the cells from `from` up to `to` fit in one page.
pub fn fits(cells: &Vec<Vec<u8>>, from: usize, to: usize) -> (r: bool)
    requires
        from <= to <= cells@.len(),
        cells_size(cells_view(cells@)) <= 100_000,
    ensures
        r == (cells_size(cells_view(cells@).subrange(from as int, to as int)) <= PAGE_BODY_LEN),
{
    prefix_size(cells, from, to) <= PAGE_BODY_LEN
}

fn cut_fits(cells: &Vec<Vec<u8>>, at: usize) -> (r: bool)
    requires
        cells_size(cells_view(cells@)) <= 100_000,
    ensures
        r == cut_ok(cells_view(cells@), at as int),
{
    if at == 0 || at >= cells.len() {
        return false;
    }
    proof {
        let view = cells_view(cells@);
        assert(view.take(at as int) =~= view.subrange(0, at as int));
        assert(view.skip(at as int) =~= view.subrange(at as int, view.len() as int));
    }
    fits(cells, 0, at) && fits(cells, at, cells.len())
}

/// Where to cut an overfull cell list so that both parts fit a page: the
/// cut nearest the balanced midpoint, the later one of two as near.
pub fn split_point(cells: &Vec<Vec<u8>>) -> (r: Option<usize>)
    requires
        cells_size(cells_view(cells@)) <= 100_000,
    ensures
        ({
            let view = cells_view(cells@);
            match r {
                Some(p) => {
                    &&& cut_ok(view, p as int)
                    &&& forall|q: int| #[trigger] cut_ok(view, q) ==> {
                        ||| q == p
                        ||| distance(q, midpoint(view, 0)) > distance(p as int, midpoint(view, 0))
                        ||| distance(q, midpoint(view, 0)) == distance(p as int, midpoint(view, 0)) && q < p
                    }
                },
                None => forall|q: int| !#[trigger] cut_ok(view, q),
            }
        }),
{
    let ghost view = cells_view(cells@);
    proof {
        lemma_size_count(view);
    }
    if cells.len() < 2 {
        return None;
    }
    let total: usize = prefix_size(cells, 0, cells.len());
    proof {
        assert(view.subrange(0, view.len() as int) =~= view);
    }
    let mut mid: usize = 1;
    let mut running: usize = 0;
    let mut index: usize = 0;
    let mut looking: bool = true;
    proof {
        assert(view.take(0) =~= Seq::<Seq<u8>>::empty());
    }
    while looking && index < cells.len()
        invariant
            view == cells_view(cells@),
            cells_size(view) <= 100_000,
            view.len() <= 100_000,
            total == cells_size(view),
            index <= cells.len(),
            running == cells_size(view.take(index as int)),
            running <= 100_000,
            looking ==> midpoint(view, 0) == midpoint(view, index as int) && mid == 1,
            !looking ==> mid == midpoint(view, 0),
            1 <= mid < cells.len(),
        decreases (if looking { 1int } else { 0int }), cells.len() - index,
    {
        proof {
            let part = view.take(index + 1);
            assert(part.drop_last() =~= view.take(index as int));
            assert(part.last() == cells@[index as int]@);
            assert(view =~= part + view.skip(index + 1));
            lemma_size_concat(part, view.skip(index + 1));
        }
        running = running + cells[index].len() + SLOT_LEN;
        if running * 2 >= total {
            mid = if index > 1 { index } else { 1 };
            looking = false;
        }
        index = index + 1;
    }
    let mut offset: usize = 0;
    while offset < cells.len()
        invariant
            view == cells_view(cells@),
            cells_size(view) <= 100_000,
            view.len() <= 100_000,
            mid == midpoint(view, 0),
            1 <= mid <= 100_000,
            offset <= cells.len(),
            mid < cells.len(),
            forall|q: int| #[trigger] cut_ok(view, q) ==> distance(q, mid as int) >= offset,
        decreases cells.len() - offset,
    {
        if cut_fits(cells, mid + offset) {
            return Some(mid + offset);
        }
        let low: usize = if mid >= offset { mid - offset } else { 0 };
        if cut_fits(cells, low) {
            proof {
                assert(!cut_ok(view, mid + offset));
            }
            return Some(low);
        }
        proof {
            assert forall|q: int| #[trigger] cut_ok(view, q) implies distance(q, mid as int) >= offset + 1 by {
                if distance(q, mid as int) == offset {
                    assert(q == mid + offset || q == mid - offset);
                }
            }
        }
        offset = offset + 1;
    }
    None
}

/// A list a little longer than a page, of cells much smaller than one, can
/// be cut.
pub proof fn lemma_cut_exists(cells: Seq<Seq<u8>>, most: nat)
    requires
        forall|i: int| 0 <= i < cells.len() ==> (#[trigger] cells[i]).len() + SLOT_LEN <= most,
        2 * most <= PAGE_BODY_LEN,
        PAGE_BODY_LEN < cells_size(cells) <= PAGE_BODY_LEN + most,
    ensures
        exists|at: int| #[trigger] cut_ok(cells, at),
{
    assert(cells.take(0) =~= Seq::<Seq<u8>>::empty());
    lemma_cut_from(cells, most, 0);
}

proof fn lemma_cut_from(cells: Seq<Seq<u8>>, most: nat, at: int)
    requires
        forall|i: int| 0 <= i < cells.len() ==> (#[trigger] cells[i]).len() + SLOT_LEN <= most,
        2 * most <= PAGE_BODY_LEN,
        PAGE_BODY_LEN < cells_size(cells) <= PAGE_BODY_LEN + most,
        0 <= at <= cells.len(),
        cells_size(cells.take(at)) <= PAGE_BODY_LEN,
    ensures
        exists|at: int| #[trigger] cut_ok(cells, at),
    decreases cells.len() - at,
{
    if at == cells.len() {
        assert(cells.take(at) =~= cells);
    } else {
        let next = cells.take(at + 1);
        assert(next.drop_last() =~= cells.take(at));
        assert(next.last() == cells[at]);
        if cells_size(next) <= PAGE_BODY_LEN {
            lemma_cut_from(cells, most, at + 1);
        } else {
            lemma_size_concat(cells.take(at), cells.skip(at));
            assert(cells =~= cells.take(at) + cells.skip(at));
            if at == 0 {
                assert(cells.take(0) =~= Seq::<Seq<u8>>::empty());
            }
            assert(cut_ok(cells, at));
        }
    }
}

/// A page of the cells from `from` up to `to`, unless they do not fit.
pub fn build_page(kind: PageKind, extra: u32, cells: &Vec<Vec<u8>>, from: usize, to: usize) -> (r: Option<Page>)
    requires
        from <= to <= cells@.len(),
    ensures
        ({
            let part = cells_view(cells@).subrange(from as int, to as int);
            match r {
                Some(page) => page.wf() && page@ == (PageView { kind, extra, cells: part }),
                None => cells_size(part) > PAGE_BODY_LEN,
            }
        }),
{
    let ghost view = cells_view(cells@);
    let ghost part = view.subrange(from as int, to as int);
    let mut page = Page::new(kind);
    page.set_extra(extra);
    let mut i: usize = from;
    proof {
        assert(page@.cells =~= view.subrange(from as int, from as int));
    }
    while i < to
        invariant
            from <= i <= to <= cells@.len(),
            view == cells_view(cells@),
            part == view.subrange(from as int, to as int),
            page.wf(),
            page@ == (PageView { kind, extra, cells: view.subrange(from as int, i as int) }),
        decreases to - i,
    {
        proof {
            let next = view.subrange(from as int, i + 1);
            assert(next =~= page@.cells.push(cells@[i as int]@));
            assert(next.drop_last() =~= page@.cells);
            assert(part =~= next + view.subrange(i + 1, to as int));
            lemma_size_concat(next, view.subrange(i + 1, to as int));
        }
        match page.push_cell(&cells[i]) {
            Some(_) => {},
            None => {
                return None;
            },
        }
        i = i + 1;
    }
    Some(page)
}

/// The first key past every key that begins with `prefix`.
pub open spec fn upper_bound_of(prefix: Seq<u8>) -> Option<Seq<u8>>
    decreases prefix.len(),
{
    if prefix.len() == 0 {
        None
    } else if prefix.last() != 0xff {
        Some(prefix.drop_last().push((prefix.last() + 1) as u8))
    } else {
        upper_bound_of(prefix.drop_last())
    }
}

/// The first key past every key that begins with `prefix`; none if the
/// prefix is empty or all `0xff`.
pub fn prefix_upper_bound(prefix: &[u8]) -> (r: Option<Vec<u8>>)
    ensures
        match r {
            Some(bound) => upper_bound_of(prefix@) == Some(bound@),
            None => upper_bound_of(prefix@) is None,
        },
{
    let mut bound: Vec<u8> = copy_bytes(prefix);
    while bound.len() > 0
        invariant
            upper_bound_of(prefix@) == upper_bound_of(bound@),
        decreases bound@.len(),
    {
        let ghost before = bound@;
        let last: u8 = match bound.pop() {
            Some(last) => last,
            None => 0,
        };
        proof {
            assert(bound@ =~= before.drop_last());
        }
        if last != 0xff {
            bound.push(last + 1);
            return Some(bound);
        }
    }
    None
}

} // verus!
