//! Slotted pages and the files made of them.
//!
//! A page holds cells of bytes in slot order, a kind, and one spare number
//! whose meaning is the owner's. A [`Pager`] is the page image of one file.

use vstd::prelude::*;

use crate::bytes::copy_bytes;

verus! {

/// Bytes in one page of a file.
pub const PAGE_SIZE: u32 = 16_384;

/// Bytes of a page that cells and their slots share.
pub const PAGE_BODY_LEN: usize = 16_352;

/// Bytes of a page's body that one cell costs beyond its contents.
pub const SLOT_LEN: usize = 4;

/// Longest cell an empty page takes.
pub const MAX_CELL_LEN: usize = 16_348;

/// What a page is for.
#[derive(Clone, Copy, PartialEq, Eq, Debug, Structural)]
pub enum PageKind {
    Free,
    Meta,
    Leaf,
    Branch,
    Heap,
    Overflow,
}

/// The contents of a page.
#[verifier::ext_equal]
pub struct PageView {
    pub kind: PageKind,
    pub extra: u32,
    pub cells: Seq<Seq<u8>>,
}

/// One page.
#[derive(Debug)]
pub struct Page {
    kind: PageKind,
    extra: u32,
    cells: Vec<Vec<u8>>,
    used: usize,
}

/// Body bytes that a list of cells takes.
pub open spec fn cells_size(cells: Seq<Seq<u8>>) -> nat
    decreases cells.len(),
{
    if cells.len() == 0 {
        0
    } else {
        cells_size(cells.drop_last()) + cells.last().len() + SLOT_LEN as nat
    }
}

/// The byte strings that a list of cells holds.
pub open spec fn cells_view(cells: Seq<Vec<u8>>) -> Seq<Seq<u8>> {
    Seq::new(cells.len(), |i: int| cells[i]@)
}

pub proof fn lemma_size_concat(a: Seq<Seq<u8>>, b: Seq<Seq<u8>>)
    ensures
        cells_size(a + b) == cells_size(a) + cells_size(b),
    decreases b.len(),
{
    if b.len() == 0 {
        assert(a + b =~= a);
    } else {
        lemma_size_concat(a, b.drop_last());
        assert((a + b).drop_last() =~= a + b.drop_last());
    }
}

pub proof fn lemma_size_one(c: Seq<u8>)
    ensures
        cells_size(seq![c]) == c.len() + SLOT_LEN,
{
    reveal_with_fuel(cells_size, 2);
    assert(seq![c].drop_last() =~= Seq::<Seq<u8>>::empty());
}

pub proof fn lemma_size_insert(cells: Seq<Seq<u8>>, i: int, c: Seq<u8>)
    requires
        0 <= i <= cells.len(),
    ensures
        cells_size(cells.insert(i, c)) == cells_size(cells) + c.len() + SLOT_LEN,
{
    assert(cells.insert(i, c) =~= cells.take(i) + seq![c] + cells.skip(i));
    assert(cells =~= cells.take(i) + cells.skip(i));
    lemma_size_concat(cells.take(i) + seq![c], cells.skip(i));
    lemma_size_concat(cells.take(i), seq![c]);
    lemma_size_concat(cells.take(i), cells.skip(i));
    lemma_size_one(c);
}

pub proof fn lemma_size_remove(cells: Seq<Seq<u8>>, i: int)
    requires
        0 <= i < cells.len(),
    ensures
        cells_size(cells) == cells_size(cells.remove(i)) + cells[i].len() + SLOT_LEN,
{
    lemma_size_insert(cells.remove(i), i, cells[i]);
    assert(cells.remove(i).insert(i, cells[i]) =~= cells);
}

pub proof fn lemma_size_update(cells: Seq<Seq<u8>>, i: int, c: Seq<u8>)
    requires
        0 <= i < cells.len(),
    ensures
        cells_size(cells.update(i, c)) == cells_size(cells) - cells[i].len() + c.len(),
        cells_size(cells) >= cells[i].len() + SLOT_LEN,
{
    lemma_size_remove(cells, i);
    lemma_size_remove(cells.update(i, c), i);
    assert(cells.update(i, c).remove(i) =~= cells.remove(i));
}

/// A page never holds more cells than its body has slots for.
pub proof fn lemma_size_count(cells: Seq<Seq<u8>>)
    ensures
        cells_size(cells) >= cells.len() * SLOT_LEN,
    decreases cells.len(),
{
    if cells.len() > 0 {
        lemma_size_count(cells.drop_last());
    }
}

impl View for Page {
    type V = PageView;

    closed spec fn view(&self) -> PageView {
        PageView { kind: self.kind, extra: self.extra, cells: cells_view(self.cells@) }
    }
}

impl Page {
    /// The page's cells fit in its body.
    pub closed spec fn wf(&self) -> bool {
        &&& self.used == cells_size(self@.cells)
        &&& self.used <= PAGE_BODY_LEN
    }

    pub proof fn lemma_wf(&self)
        requires
            self.wf(),
        ensures
            cells_size(self@.cells) <= PAGE_BODY_LEN,
            self@.cells.len() * SLOT_LEN <= PAGE_BODY_LEN,
    {
        lemma_size_count(self@.cells);
    }

    /// An empty page.
    pub fn new(kind: PageKind) -> (page: Page)
        ensures
            page.wf(),
            page@ == (PageView { kind, extra: 0, cells: Seq::empty() }),
    {
        Page { kind, extra: 0, cells: Vec::new(), used: 0 }
    }

    /// A page of the same contents.
    pub fn copy(&self) -> (page: Page)
        requires
            self.wf(),
        ensures
            page.wf(),
            page@ == self@,
    {
        let mut cells: Vec<Vec<u8>> = Vec::with_capacity(self.cells.len());
        let mut i: usize = 0;
        while i < self.cells.len()
            invariant
                i <= self.cells.len(),
                cells.len() == i,
                forall|j: int| 0 <= j < i ==> (#[trigger] cells[j])@ == self.cells[j]@,
            decreases self.cells.len() - i,
        {
            cells.push(copy_bytes(&self.cells[i]));
            i = i + 1;
        }
        let page = Page { kind: self.kind, extra: self.extra, cells, used: self.used };
        proof {
            assert(page@.cells =~= self@.cells);
        }
        page
    }

    pub fn kind(&self) -> (r: PageKind)
        ensures
            r == self@.kind,
    {
        self.kind
    }

    pub fn extra(&self) -> (r: u32)
        ensures
            r == self@.extra,
    {
        self.extra
    }

    pub fn set_extra(&mut self, extra: u32)
        requires
            old(self).wf(),
        ensures
            final(self).wf(),
            final(self)@ == (PageView { extra, ..old(self)@ }),
    {
        self.extra = extra;
    }

    pub fn slot_count(&self) -> (r: usize)
        ensures
            r == self@.cells.len(),
    {
        self.cells.len()
    }

    /// The cell in slot `slot`, if there is one.
    pub fn cell(&self, slot: usize) -> (r: Option<&[u8]>)
        ensures
            match r {
                Some(c) => slot < self@.cells.len() && c@ == self@.cells[slot as int],
                None => slot >= self@.cells.len(),
            },
    {
        if slot < self.cells.len() {
            Some(self.cells[slot].as_slice())
        } else {
            None
        }
    }

    /// Body bytes that no cell takes.
    pub fn reclaimable_space(&self) -> (r: usize)
        requires
            self.wf(),
        ensures
            r == PAGE_BODY_LEN - cells_size(self@.cells),
    {
        PAGE_BODY_LEN - self.used
    }

    /// Adds a cell in the next slot, or nothing if it does not fit.
    pub fn push_cell(&mut self, cell: &[u8]) -> (r: Option<usize>)
        requires
            old(self).wf(),
        ensures
            final(self).wf(),
            match r {
                Some(slot) => {
                    &&& slot == old(self)@.cells.len()
                    &&& final(self)@ == (PageView {
                        cells: old(self)@.cells.push(cell@),
                        ..old(self)@
                    })
                },
                None => {
                    &&& final(self)@ == old(self)@
                    &&& cells_size(old(self)@.cells) + cell@.len() + SLOT_LEN > PAGE_BODY_LEN
                },
            },
    {
        let slot = self.cells.len();
        if self.insert_cell(slot, cell) {
            proof {
                assert(old(self)@.cells.insert(slot as int, cell@) =~= old(self)@.cells.push(cell@));
            }
            Some(slot)
        } else {
            None
        }
    }

    /// Inserts a cell before slot `slot` if it fits; says whether it did.
    pub fn insert_cell(&mut self, slot: usize, cell: &[u8]) -> (done: bool)
        requires
            old(self).wf(),
            slot <= old(self)@.cells.len(),
        ensures
            final(self).wf(),
            done <==> cells_size(old(self)@.cells) + cell@.len() + SLOT_LEN <= PAGE_BODY_LEN,
            done ==> final(self)@ == (PageView {
                cells: old(self)@.cells.insert(slot as int, cell@),
                ..old(self)@
            }),
            !done ==> final(self)@ == old(self)@,
    {
        if cell.len() > MAX_CELL_LEN || self.used > PAGE_BODY_LEN - (cell.len() + SLOT_LEN) {
            return false;
        }
        proof {
            lemma_size_insert(self@.cells, slot as int, cell@);
        }
        self.cells.insert(slot, copy_bytes(cell));
        self.used = self.used + cell.len() + SLOT_LEN;
        proof {
            assert(self@.cells =~= old(self)@.cells.insert(slot as int, cell@));
        }
        true
    }

    /// Puts another cell in slot `slot` if it fits; says whether it did.
    pub fn replace_cell(&mut self, slot: usize, cell: &[u8]) -> (done: bool)
        requires
            old(self).wf(),
            slot < old(self)@.cells.len(),
        ensures
            final(self).wf(),
            done <==> cells_size(old(self)@.cells) - old(self)@.cells[slot as int].len() + cell@.len()
                <= PAGE_BODY_LEN,
            done ==> final(self)@ == (PageView {
                cells: old(self)@.cells.update(slot as int, cell@),
                ..old(self)@
            }),
            !done ==> final(self)@ == old(self)@,
    {
        proof {
            lemma_size_update(self@.cells, slot as int, cell@);
        }
        let rest: usize = self.used - self.cells[slot].len();
        if cell.len() > PAGE_BODY_LEN || rest > PAGE_BODY_LEN - cell.len() {
            return false;
        }
        self.cells[slot] = copy_bytes(cell);
        self.used = rest + cell.len();
        proof {
            assert(self@.cells =~= old(self)@.cells.update(slot as int, cell@));
        }
        true
    }

    /// Takes the cell in slot `slot` out; later cells move down.
    pub fn remove_cell(&mut self, slot: usize)
        requires
            old(self).wf(),
            slot < old(self)@.cells.len(),
        ensures
            final(self).wf(),
            final(self)@ == (PageView {
                cells: old(self)@.cells.remove(slot as int),
                ..old(self)@
            }),
    {
        proof {
            lemma_size_remove(self@.cells, slot as int);
        }
        let gone: Vec<u8> = self.cells.remove(slot);
        self.used = self.used - (gone.len() + SLOT_LEN);
        proof {
            assert(self@.cells =~= old(self)@.cells.remove(slot as int));
        }
    }
}

/// A file of pages, addressed by position.
#[derive(Debug)]
pub struct Pager {
    pages: Vec<Page>,
}

impl View for Pager {
    type V = Seq<PageView>;

    closed spec fn view(&self) -> Seq<PageView> {
        Seq::new(self.pages@.len(), |i: int| self.pages@[i]@)
    }
}

/// A page nothing has been written to.
pub open spec fn blank_page() -> PageView {
    PageView { kind: PageKind::Free, extra: 0, cells: Seq::empty() }
}

impl Pager {
    /// Every page is well formed and every page id is a `u32`.
    pub closed spec fn wf(&self) -> bool {
        &&& self.pages@.len() <= u32::MAX
        &&& forall|i: int| 0 <= i < self.pages@.len() ==> (#[trigger] self.pages@[i]).wf()
    }

    pub proof fn lemma_wf(&self)
        requires
            self.wf(),
        ensures
            self@.len() <= u32::MAX,
            forall|i: int|
                0 <= i < self@.len() ==> cells_size((#[trigger] self@[i]).cells) <= PAGE_BODY_LEN,
    {
        assert forall|i: int| 0 <= i < self@.len() implies cells_size((#[trigger] self@[i]).cells)
            <= PAGE_BODY_LEN by {
            assert(self.pages@[i].wf());
        }
    }

    /// A file without pages.
    pub fn new() -> (pager: Pager)
        ensures
            pager.wf(),
            pager@ == Seq::<PageView>::empty(),
    {
        let pager = Pager { pages: Vec::new() };
        proof {
            assert(pager@ =~= Seq::<PageView>::empty());
        }
        pager
    }

    pub fn page_count(&self) -> (r: u32)
        requires
            self.wf(),
        ensures
            r == self@.len(),
    {
        self.pages.len() as u32
    }

    /// Makes the file hold `count` pages: what lies past that goes, what is
    /// missing is blank.
    pub fn set_page_count(&mut self, count: u32)
        requires
            old(self).wf(),
        ensures
            final(self).wf(),
            final(self)@.len() == count,
            forall|i: int|
                0 <= i < count ==> #[trigger] final(self)@[i] == (if i < old(self)@.len() {
                    old(self)@[i]
                } else {
                    blank_page()
                }),
    {
        while self.pages.len() > count as usize
            invariant
                self.wf(),
                self@.len() <= old(self)@.len(),
                self@.len() >= count || self@.len() == old(self)@.len(),
                forall|i: int| 0 <= i < self@.len() ==> #[trigger] self@[i] == old(self)@[i],
            decreases self.pages.len(),
        {
            let ghost before = self@;
            let _gone = self.pages.pop();
            proof {
                assert(self@ =~= before.drop_last());
            }
        }
        while self.pages.len() < count as usize
            invariant
                self.wf(),
                self@.len() <= count,
                forall|i: int|
                    0 <= i < self@.len() ==> #[trigger] self@[i] == (if i < old(self)@.len() {
                        old(self)@[i]
                    } else {
                        blank_page()
                    }),
                self@.len() < count ==> self@.len() >= old(self)@.len(),
            decreases count - self.pages.len(),
        {
            let ghost before = self@;
            self.pages.push(Page::new(PageKind::Free));
            proof {
                assert(self@ =~= before.push(blank_page()));
            }
        }
    }

    /// Makes room for one more page at the end and says which it is; none
    /// if every id is taken.
    pub fn allocate(&mut self) -> (r: Option<u32>)
        requires
            old(self).wf(),
        ensures
            final(self).wf(),
            match r {
                Some(id) => {
                    &&& id == old(self)@.len()
                    &&& final(self)@ == old(self)@.push(blank_page())
                },
                None => old(self)@.len() == u32::MAX && final(self)@ == old(self)@,
            },
    {
        if self.pages.len() >= u32::MAX as usize {
            return None;
        }
        let id: u32 = self.pages.len() as u32;
        self.pages.push(Page::new(PageKind::Free));
        proof {
            assert(self@ =~= old(self)@.push(blank_page()));
        }
        Some(id)
    }

    /// The page with this id, if the file holds it.
    pub fn read(&self, id: u32) -> (r: Option<&Page>)
        requires
            self.wf(),
        ensures
            match r {
                Some(page) => id < self@.len() && page.wf() && page@ == self@[id as int],
                None => id >= self@.len(),
            },
    {
        if (id as usize) < self.pages.len() {
            Some(&self.pages[id as usize])
        } else {
            None
        }
    }

    /// Puts `page` at `id`, which is a page of the file or the first id past
    /// its end.
    pub fn write(&mut self, id: u32, page: Page)
        requires
            old(self).wf(),
            page.wf(),
            id <= old(self)@.len(),
            id < u32::MAX,
        ensures
            final(self).wf(),
            final(self)@ == (if id < old(self)@.len() {
                old(self)@.update(id as int, page@)
            } else {
                old(self)@.push(page@)
            }),
    {
        if (id as usize) < self.pages.len() {
            self.pages[id as usize] = page;
            proof {
                assert(self@ =~= old(self)@.update(id as int, page@));
            }
        } else {
            self.pages.push(page);
            proof {
                assert(self@ =~= old(self)@.push(page@));
            }
        }
    }
}

} // verus!
