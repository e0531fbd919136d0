//! The pages a tree works in, and which of them may be written.
//!
//! A page written once in the generation being built may be written again
//! in it. A page superseded in some generation is listed as free and may be
//! taken again two generations later. Any other page is left alone.

use std::collections::HashSet;
use vstd::prelude::*;

use crate::btree::meta::{FreeEntry, MAX_FREE_ENTRIES};
use crate::btree::model::FIRST_DATA_PAGE;
use crate::page::{blank_page, Page, Pager, PageView};

verus! {

broadcast use vstd::std_specs::hash::group_hash_axioms;

/// The pages of a tree's file with the state of their allocation.
pub struct Space {
    pub pager: Pager,
    /// Generation of the last committed meta.
    pub generation: u64,
    /// Superseded pages that are not taken again yet.
    pub free: Vec<FreeEntry>,
    /// Pages written in the generation being built.
    pub dirty: HashSet<u32>,
}

impl Space {
    pub open spec fn pages(&self) -> Seq<PageView> {
        self.pager@
    }

    /// The generation being built: one past the committed one.
    pub open spec fn building_spec(&self) -> int {
        self.generation + 1
    }

    /// A superseded page that may be taken in the generation being built.
    pub open spec fn reusable(&self, entry: FreeEntry) -> bool {
        entry.generation + 2 <= self.building_spec()
    }

    /// The page `x` may be handed out next.
    pub open spec fn usable(&self, x: u32) -> bool {
        x >= self.pages().len() || exists|i: int|
            0 <= i < self.free@.len() && (#[trigger] self.free@[i]).page == x && self.reusable(
                self.free@[i],
            )
    }

    /// The page `x` is listed as superseded.
    pub open spec fn listed(&self, x: u32) -> bool {
        exists|i: int| 0 <= i < self.free@.len() && (#[trigger] self.free@[i]).page == x
    }

    pub open spec fn is_dirty(&self, x: u32) -> bool {
        self.dirty@.contains(x)
    }

    /// The free list names data pages of the file, each once.
    pub open spec fn ok(&self) -> bool {
        &&& self.pager.wf()
        &&& self.generation < u64::MAX
        &&& FIRST_DATA_PAGE <= self.pages().len() <= u32::MAX
        &&& self.free@.len() <= MAX_FREE_ENTRIES
        &&& forall|i: int|
            0 <= i < self.free@.len() ==> {
                &&& FIRST_DATA_PAGE <= (#[trigger] self.free@[i]).page < self.pages().len()
                &&& self.free@[i].generation <= self.building_spec()
            }
        &&& forall|i: int, j: int|
            0 <= i < j < self.free@.len() ==> (#[trigger] self.free@[i]).page != (
            #[trigger] self.free@[j]).page
    }
}

/// `b` follows from `a` by taking pages and writing to them.
pub open spec fn evolves(a: Space, b: Space) -> bool {
    &&& b.generation == a.generation
    &&& b.pages().len() >= a.pages().len()
    &&& forall|x: u32| #[trigger] b.usable(x) ==> a.usable(x)
    &&& forall|x: u32| #[trigger] a.is_dirty(x) ==> b.is_dirty(x)
    &&& forall|x: u32| #[trigger]
        b.is_dirty(x) ==> a.is_dirty(x) || (a.usable(x) && !b.usable(x))
}

/// `b` follows from `a` by taking page `id` to write.
pub open spec fn took(a: Space, b: Space, id: u32) -> bool {
    &&& b.ok()
    &&& evolves(a, b)
    &&& a.usable(id)
    &&& !b.usable(id)
    &&& !b.listed(id)
    &&& b.is_dirty(id)
    &&& FIRST_DATA_PAGE <= id < b.pages().len()
    &&& forall|x: u32| #[trigger] b.is_dirty(x) <==> a.is_dirty(x) || x == id
    &&& forall|x: u32| #[trigger] b.listed(x) ==> a.listed(x)
    &&& forall|i: int| 0 <= i < b.free@.len() ==> a.free@.contains(#[trigger] b.free@[i])
    &&& b.pages().len() <= a.pages().len() + 1
    &&& forall|i: int| 0 <= i < a.pages().len() ==> #[trigger] b.pages()[i] == a.pages()[i]
}

/// `b` follows from `a` by making page `page_id` writable at `id`.
pub open spec fn cowed(a: Space, b: Space, page_id: u32, id: u32) -> bool {
    &&& b.ok()
    &&& evolves(a, b)
    &&& b.is_dirty(id)
    &&& !b.usable(id)
    &&& !b.listed(id)
    &&& FIRST_DATA_PAGE <= id < b.pages().len()
    &&& b.pages().len() <= a.pages().len() + 1
    &&& forall|i: int| 0 <= i < a.pages().len() ==> #[trigger] b.pages()[i] == a.pages()[i]
    &&& a.is_dirty(page_id) ==> id == page_id
    &&& !a.is_dirty(page_id) ==> a.usable(id) && id != page_id
    &&& forall|x: u32| #[trigger] b.is_dirty(x) ==> a.is_dirty(x) || x == id
    &&& forall|x: u32| #[trigger] b.listed(x) ==> a.listed(x) || (x == page_id && id != page_id)
    &&& forall|i: int|
        0 <= i < b.free@.len() ==> {
            ||| a.free@.contains(#[trigger] b.free@[i])
            ||| (id != page_id && b.free@[i] == FreeEntry {
                generation: (a.generation + 1) as u64,
                page: page_id,
            })
        }
}

/// `b` follows from `a` by writing `page` at `id`.
pub open spec fn wrote(a: Space, b: Space, id: u32, page: PageView) -> bool {
    &&& b.ok()
    &&& b.free@ == a.free@
    &&& b.dirty@ == a.dirty@
    &&& b.generation == a.generation
    &&& b.pages() == a.pages().update(id as int, page)
    &&& forall|x: u32| #[trigger] b.usable(x) <==> a.usable(x)
    &&& forall|x: u32| #[trigger] b.listed(x) <==> a.listed(x)
    &&& forall|x: u32| #[trigger] b.is_dirty(x) <==> a.is_dirty(x)
}

impl Space {
    pub fn building(&self) -> (r: u64)
        requires
            self.generation < u64::MAX,
        ensures
            r == self.building_spec(),
    {
        self.generation + 1
    }

    /// A page that is safe to write: one superseded at least two generations
    /// ago, or a new one at the end of the file.
    pub fn allocate(&mut self) -> (id: u32)
        requires
            old(self).ok(),
            old(self).pages().len() < u32::MAX,
        ensures
            final(self).ok(),
            old(self).usable(id),
            FIRST_DATA_PAGE <= id < final(self).pages().len(),
            forall|x: u32| #[trigger] final(self).usable(x) <==> old(self).usable(x) && x != id,
            forall|x: u32| #[trigger] final(self).listed(x) <==> old(self).listed(x) && x != id,
            forall|i: int|
                0 <= i < final(self).free@.len() ==> old(self).free@.contains(
                    #[trigger] final(self).free@[i],
                ),
            final(self).dirty@ == old(self).dirty@,
            final(self).generation == old(self).generation,
            final(self).pages() == old(self).pages() || final(self).pages() == old(self).pages().push(
                blank_page(),
            ),
    {
        let building: u64 = self.building();
        let mut index: usize = 0;
        while index < self.free.len()
            invariant
                index <= self.free.len(),
                *self == *old(self),
                self.ok(),
                building == self.building_spec(),
                forall|i: int| 0 <= i < index ==> !self.reusable(#[trigger] self.free@[i]),
                self.pages().len() < u32::MAX,
            decreases self.free.len() - index,
        {
            let entry: FreeEntry = self.free[index];
            if building >= 2 && entry.generation <= building - 2 {
                let ghost before = self.free@;
                let taken: FreeEntry = self.free.swap_remove(index);
                proof {
                    let after = self.free@;
                    let last = before.len() - 1;
                    assert forall|i: int| 0 <= i < after.len() implies {
                        &&& before.contains(#[trigger] after[i])
                        &&& after[i] == before[if i == index { last } else { i }]
                    } by {
                        assert(after[i] == before[if i == index { last } else { i }]);
                    }
                    assert forall|x: u32| #[trigger] self.usable(x) <==> old(self).usable(x) && x != taken.page by {
                        if self.usable(x) && x < self.pages().len() {
                            let i = choose|i: int|
                                0 <= i < after.len() && (#[trigger] after[i]).page == x && self.reusable(after[i]);
                            assert(after[i] == before[if i == index { last } else { i }]);
                        }
                        if old(self).usable(x) && x != taken.page && x < self.pages().len() {
                            let i = choose|i: int|
                                0 <= i < before.len() && (#[trigger] before[i]).page == x && old(self).reusable(before[i]);
                            assert(after[if i == last { index as int } else { i }] == before[i]);
                        }
                    }
                    assert forall|x: u32| #[trigger] self.listed(x) <==> old(self).listed(x) && x != taken.page by {
                        if self.listed(x) {
                            let i = choose|i: int| 0 <= i < after.len() && (#[trigger] after[i]).page == x;
                            assert(after[i] == before[if i == index { last } else { i }]);
                        }
                        if old(self).listed(x) && x != taken.page {
                            let i = choose|i: int| 0 <= i < before.len() && (#[trigger] before[i]).page == x;
                            assert(after[if i == last { index as int } else { i }] == before[i]);
                        }
                    }
                    assert(old(self).reusable(before[index as int]));
                }
                return taken.page;
            }
            index = index + 1;
        }
        let ghost before = *self;
        match self.pager.allocate() {
            Some(id) => {
                proof {
                    assert forall|x: u32| #[trigger] self.usable(x) <==> before.usable(x) && x != id by {
                        if self.usable(x) && x < self.pages().len() {
                            let i = choose|i: int|
                                0 <= i < self.free@.len() && (#[trigger] self.free@[i]).page == x && self.reusable(self.free@[i]);
                            assert(before.reusable(before.free@[i]));
                        }
                        if before.usable(x) && x < before.pages().len() {
                            let i = choose|i: int|
                                0 <= i < before.free@.len() && (#[trigger] before.free@[i]).page == x && before.reusable(before.free@[i]);
                            assert(self.reusable(self.free@[i]));
                        }
                    }
                    assert forall|x: u32| #[trigger] self.listed(x) <==> before.listed(x) && x != id by {
                        if self.listed(x) {
                            let i = choose|i: int| 0 <= i < self.free@.len() && (#[trigger] self.free@[i]).page == x;
                            assert(before.free@[i].page == x);
                        }
                        if before.listed(x) {
                            let i = choose|i: int| 0 <= i < before.free@.len() && (#[trigger] before.free@[i]).page == x;
                            assert(self.free@[i].page == x);
                        }
                    }
                }
                id
            },
            None => 0,
        }
    }

    /// Takes a page to write in the generation being built.
    pub fn take(&mut self) -> (id: u32)
        requires
            old(self).ok(),
            old(self).pages().len() < u32::MAX,
        ensures
            took(*old(self), *final(self), id),
    {
        let id: u32 = self.allocate();
        let ghost mid = *self;
        self.dirty.insert(id);
        proof {
            assert(self.free@ == mid.free@);
            assert forall|x: u32| #[trigger] self.usable(x) implies mid.usable(x) by {
                if x < self.pages().len() {
                    let i = choose|i: int|
                        0 <= i < self.free@.len() && (#[trigger] self.free@[i]).page == x && self.reusable(self.free@[i]);
                    assert(mid.reusable(mid.free@[i]));
                }
            }
            assert forall|x: u32| #[trigger] self.listed(x) implies mid.listed(x) by {
                let i = choose|i: int| 0 <= i < self.free@.len() && (#[trigger] self.free@[i]).page == x;
                assert(mid.free@[i].page == x);
            }
            assert forall|x: u32| #[trigger] old(self).is_dirty(x) implies self.is_dirty(x) by {
            }
        }
        id
    }

    /// Lists a superseded page for later use; a full list drops it.
    pub fn release(&mut self, page: u32)
        requires
            old(self).ok(),
            FIRST_DATA_PAGE <= page < old(self).pages().len(),
            !old(self).listed(page),
        ensures
            final(self).ok(),
            final(self).pager == old(self).pager,
            final(self).dirty@ == old(self).dirty@,
            final(self).generation == old(self).generation,
            final(self).free@ == (if old(self).free@.len() < MAX_FREE_ENTRIES {
                old(self).free@.push(
                    FreeEntry { generation: (old(self).generation + 1) as u64, page },
                )
            } else {
                old(self).free@
            }),
            forall|x: u32| #[trigger] final(self).usable(x) <==> old(self).usable(x),
            forall|x: u32| #[trigger] final(self).listed(x) ==> old(self).listed(x) || x == page,
    {
        if self.free.len() >= MAX_FREE_ENTRIES {
            return;
        }
        let generation: u64 = self.building();
        self.free.push(FreeEntry { generation, page });
        proof {
            let (a, b) = (old(self).free@, self.free@);
            assert forall|x: u32| #[trigger] self.usable(x) <==> old(self).usable(x) by {
                if self.usable(x) && x < self.pages().len() {
                    let i = choose|i: int| 0 <= i < b.len() && (#[trigger] b[i]).page == x && self.reusable(b[i]);
                    assert(i < a.len());
                    assert(a[i] == b[i]);
                    assert(old(self).reusable(a[i]));
                }
                if old(self).usable(x) && x < self.pages().len() {
                    let i = choose|i: int| 0 <= i < a.len() && (#[trigger] a[i]).page == x && old(self).reusable(a[i]);
                    assert(b[i] == a[i]);
                    assert(self.reusable(b[i]));
                }
            }
            assert forall|x: u32| #[trigger] self.listed(x) implies old(self).listed(x) || x == page by {
                let i = choose|i: int| 0 <= i < b.len() && (#[trigger] b[i]).page == x;
                if i < a.len() {
                    assert(a[i] == b[i]);
                }
            }
            assert forall|i: int, j: int| 0 <= i < j < b.len() implies (#[trigger] b[i]).page != (#[trigger] b[j]).page by {
                assert(a[i] == b[i]);
                if j < a.len() {
                    assert(a[j] == b[j]);
                }
            }
        }
    }

    /// A copy of page `page_id` to change, with the id to write it to. The
    /// first time in a generation that is another page, and the first one is
    /// released.
    pub fn cow(&mut self, page_id: u32) -> (r: (u32, Page))
        requires
            old(self).ok(),
            old(self).pages().len() < u32::MAX,
            FIRST_DATA_PAGE <= page_id < old(self).pages().len(),
            !old(self).listed(page_id),
            !old(self).usable(page_id),
        ensures
            r.1.wf(),
            r.1@ == old(self).pages()[page_id as int],
            cowed(*old(self), *final(self), page_id, r.0),
    {
        let page: Page = match self.pager.read(page_id) {
            Some(page) => page.copy(),
            None => Page::new(crate::page::PageKind::Free),
        };
        if self.dirty.contains(&page_id) {
            proof {
                assert forall|i: int| 0 <= i < self.free@.len() implies old(self).free@.contains(
                    #[trigger] self.free@[i],
                ) by {
                    assert(old(self).free@[i] == self.free@[i]);
                }
            }
            return (page_id, page);
        }
        let fresh: u32 = self.take();
        let ghost mid = *self;
        self.release(page_id);
        proof {
            assert forall|i: int| 0 <= i < self.free@.len() implies {
                ||| old(self).free@.contains(#[trigger] self.free@[i])
                ||| self.free@[i] == FreeEntry { generation: (old(self).generation + 1) as u64, page: page_id }
            } by {
                if i < mid.free@.len() {
                    assert(mid.free@[i] == self.free@[i]);
                }
            }
            assert forall|x: u32| #[trigger] self.is_dirty(x) implies (old(self).is_dirty(x) || x == fresh) && (
            old(self).is_dirty(x) || (old(self).usable(x) && !self.usable(x))) by {
                assert(mid.is_dirty(x));
            }
            assert forall|x: u32| #[trigger] old(self).is_dirty(x) implies self.is_dirty(x) by {
                assert(mid.is_dirty(x));
            }
            assert forall|x: u32| #[trigger] self.usable(x) implies old(self).usable(x) by {
                assert(mid.usable(x));
            }
        }
        (fresh, page)
    }

    /// Writes a page of the file.
    pub fn write(&mut self, id: u32, page: Page)
        requires
            old(self).ok(),
            page.wf(),
            id < old(self).pages().len(),
        ensures
            wrote(*old(self), *final(self), id, page@),
    {
        self.pager.write(id, page);
        proof {
            assert forall|x: u32| #[trigger] self.usable(x) <==> old(self).usable(x) by {
                if self.usable(x) && x < self.pages().len() {
                    let i = choose|i: int|
                        0 <= i < self.free@.len() && (#[trigger] self.free@[i]).page == x && self.reusable(self.free@[i]);
                    assert(old(self).reusable(old(self).free@[i]));
                }
                if old(self).usable(x) && x < self.pages().len() {
                    let i = choose|i: int|
                        0 <= i < old(self).free@.len() && (#[trigger] old(self).free@[i]).page == x && old(self).reusable(old(self).free@[i]);
                    assert(self.reusable(self.free@[i]));
                }
            }
            assert forall|x: u32| #[trigger] self.listed(x) <==> old(self).listed(x) by {
                if self.listed(x) {
                    let i = choose|i: int| 0 <= i < self.free@.len() && (#[trigger] self.free@[i]).page == x;
                    assert(old(self).free@[i].page == x);
                }
                if old(self).listed(x) {
                    let i = choose|i: int| 0 <= i < old(self).free@.len() && (#[trigger] old(self).free@[i]).page == x;
                    assert(self.free@[i].page == x);
                }
            }
        }
    }
}

} // verus!
