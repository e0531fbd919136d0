//! The record heap: where records are.
//!
//! Records are appended to the active segment and never changed in place.
//! One that does not fit in a page is kept as a chain of overflow pages,
//! found through a short stub in an ordinary page of the same segment.

use vstd::prelude::*;
use vstd::string::*;

use crate::binary::{
    decode_frame, encode_frame, frame_at, frame_of, law_frame_round_trip, FrameView, RecordError, MAX_RECORD_FRAME_LEN,
    MAX_RECORD_PAYLOAD_LEN,
};
use crate::bytes::{
    copy_bytes, copy_range, get_le, le_bytes, le_value, lemma_le_round_trip, lemma_le_value_bytes, lemma_radix_values,
    put_bytes, put_le,
};
use crate::catalog::{fresh_catalog, Catalog, CatalogView, SegmentMeta};
use crate::decimal::{digits_of, is_digit, lemma_digits_round_trip, to_digits};
use crate::page::{blank_page, cells_size, Page, PageKind, PageView, Pager, MAX_CELL_LEN, PAGE_BODY_LEN, SLOT_LEN};
use crate::record::{heap_fields, heap_of, packed};
use crate::text::{ascii_text, lemma_ascii_text, own, text_of_bytes};
use crate::types::RecordLocation;

pub use crate::record::{HeapRecord, HeapView};

verus! {

/// Pages a segment holds before the next append starts a fresh one.
pub const MAX_PAGES_PER_SEGMENT: u32 = 4096;

/// Bytes of a stub: its mark, the record's length, the first chain page.
pub const OVERFLOW_STUB_LEN: usize = 12;

/// The mark of a stub.
pub open spec fn overflow_magic() -> Seq<u8> {
    seq![0x46u8, 0x51u8, 0x4fu8, 0x56u8]
}

/// What can go wrong in the heap.
#[derive(Clone, Copy, PartialEq, Eq, Debug, Structural)]
pub enum StoreError {
    /// The catalog does not know the segment.
    UnknownSegment { segment: u32 },
    NoPage { page: u32 },
    NoCell,
    /// A stub declares more bytes than a frame can have.
    StubLength { declared: u64 },
    /// A chain goes on past the pages that its record needs.
    ChainTooLong { links: u64 },
    /// A chain runs into a page of another kind.
    NotOverflow,
    /// A page of a chain holds nothing.
    NoChunk,
    ChainLength { found: u64, expected: u64 },
    /// The record's frame does not check out, or cannot be made.
    Frame(RecordError),
    /// The frame's contents are no record.
    Contents,
    /// There are no page or segment ids left.
    Full,
}

/// The contents of a heap.
#[verifier::ext_equal]
pub struct StoreView {
    pub catalog: CatalogView,
    /// The pages of each segment, in the catalog's order.
    pub files: Seq<Seq<PageView>>,
}

pub open spec fn has_segment(segments: Seq<SegmentMeta>, id: u32) -> bool {
    exists|i: int| 0 <= i < segments.len() && (#[trigger] segments[i]).id == id
}

/// Position of the segment with this id.
pub open spec fn segment_index(segments: Seq<SegmentMeta>, id: u32) -> int {
    choose|i: int| 0 <= i < segments.len() && (#[trigger] segments[i]).id == id
}

/// The segments have ids of their own, all handed out before.
pub open spec fn segments_ok(c: CatalogView) -> bool {
    &&& forall|i: int, j: int|
        0 <= i < j < c.segments.len() ==> (#[trigger] c.segments[i]).id != (#[trigger] c.segments[j]).id
    &&& forall|i: int| 0 <= i < c.segments.len() ==> (#[trigger] c.segments[i]).id < c.next_segment
}

/// The segment takes no records any more.
pub open spec fn inactive(v: StoreView, segment: u32) -> bool {
    segment < v.catalog.next_segment && segment != v.catalog.active_segment
}

/// Segments that take no records any more have the pages they had, and the
/// active segment is known if it was, or is a fresh one.
#[verifier::opaque]
pub open spec fn undisturbed(u: StoreView, v: StoreView) -> bool {
    &&& forall|i: int|
        0 <= i < u.catalog.segments.len() && inactive(u, (#[trigger] u.catalog.segments[i]).id) ==> i
            < v.catalog.segments.len() && v.catalog.segments[i].id == u.catalog.segments[i].id && v.files[i] == u.files[i]
    &&& v.catalog.next_segment >= u.catalog.next_segment
    &&& v.catalog.active_segment == u.catalog.active_segment || v.catalog.active_segment >= u.catalog.next_segment
    &&& has_segment(v.catalog.segments, v.catalog.active_segment) || (v.catalog.active_segment
        == u.catalog.active_segment && !has_segment(u.catalog.segments, u.catalog.active_segment))
}

pub proof fn lemma_undisturbed_refl(u: StoreView)
    ensures
        undisturbed(u, u),
{
    reveal(undisturbed);
}

pub proof fn lemma_undisturbed_trans(u: StoreView, v: StoreView, w: StoreView)
    requires
        undisturbed(u, v),
        undisturbed(v, w),
    ensures
        undisturbed(u, w),
{
    reveal(undisturbed);
    assert forall|i: int|
        0 <= i < u.catalog.segments.len() && inactive(u, (#[trigger] u.catalog.segments[i]).id) implies i
        < w.catalog.segments.len() && w.catalog.segments[i].id == u.catalog.segments[i].id && w.files[i] == u.files[i] by {
        assert(inactive(v, v.catalog.segments[i].id));
    }
}

/// A segment that takes no records any more is known, and has the records it
/// had, where they were.
pub proof fn lemma_undisturbed(u: StoreView, v: StoreView, segment: u32)
    requires
        undisturbed(u, v),
        segments_ok(u.catalog),
        segments_ok(v.catalog),
        inactive(u, segment),
        has_segment(u.catalog.segments, segment),
    ensures
        has_segment(v.catalog.segments, segment),
        locations(v, segment) == locations(u, segment),
        forall|l: RecordLocation| l.segment == segment ==> #[trigger] record_at(v, l) == record_at(u, l),
{
    reveal(undisturbed);
    let i = segment_index(u.catalog.segments, segment);
    assert(u.catalog.segments[i].id == segment);
    assert(v.catalog.segments[i].id == segment);
    lemma_segment_index(v.catalog, i);
    lemma_segment_index(u.catalog, i);
}

/// What takes no records any more stays so.
#[verifier::opaque]
pub open spec fn stays_inactive(u: StoreView, v: StoreView) -> bool {
    forall|s: u32| #[trigger] inactive(u, s) ==> inactive(v, s)
}

pub proof fn lemma_segment_index(c: CatalogView, i: int)
    requires
        segments_ok(c),
        0 <= i < c.segments.len(),
    ensures
        has_segment(c.segments, c.segments[i].id),
        segment_index(c.segments, c.segments[i].id) == i,
{
    let k = segment_index(c.segments, c.segments[i].id);
    assert(c.segments[i].id == c.segments[i].id);
    assert(c.segments[k].id == c.segments[i].id);
}

// ---------------------------------------------------------------------
// Frames in pages
// ---------------------------------------------------------------------

pub open spec fn is_stub(cell: Seq<u8>) -> bool {
    cell.len() == OVERFLOW_STUB_LEN && cell.take(4) == overflow_magic()
}

/// Pages that a chain of `total` bytes takes.
pub open spec fn max_links(total: nat) -> nat {
    if total <= MAX_CELL_LEN {
        1
    } else {
        ((total + MAX_CELL_LEN - 1) / MAX_CELL_LEN as int) as nat
    }
}

/// What a chain gives from page `next` on, with `got` read on the first
/// `links` pages.
pub open spec fn chain_from(
    pages: Seq<PageView>,
    next: u32,
    got: Seq<u8>,
    total: nat,
    links: nat,
) -> Result<Seq<u8>, StoreError>
    decreases max_links(total) - links,
{
    if got.len() >= total {
        if got.len() == total {
            Ok(got)
        } else {
            Err(StoreError::ChainLength { found: got.len() as u64, expected: total as u64 })
        }
    } else if links >= max_links(total) {
        Err(StoreError::ChainTooLong { links: max_links(total) as u64 })
    } else if next >= pages.len() {
        Err(StoreError::NoPage { page: next })
    } else if pages[next as int].kind != PageKind::Overflow {
        Err(StoreError::NotOverflow)
    } else if pages[next as int].cells.len() == 0 {
        Err(StoreError::NoChunk)
    } else {
        chain_from(pages, pages[next as int].extra, got + pages[next as int].cells[0], total, links + 1)
    }
}

/// The frame that a slot of a page leads to.
pub open spec fn frame_in(pages: Seq<PageView>, page: u32, slot: u16) -> Result<Seq<u8>, StoreError> {
    if page >= pages.len() {
        Err(StoreError::NoPage { page })
    } else if slot >= pages[page as int].cells.len() {
        Err(StoreError::NoCell)
    } else {
        let cell = pages[page as int].cells[slot as int];
        if !is_stub(cell) {
            Ok(cell)
        } else {
            let total = le_value(cell.subrange(4, 8));
            if total > MAX_RECORD_FRAME_LEN {
                Err(StoreError::StubLength { declared: total as u64 })
            } else {
                chain_from(pages, le_value(cell.subrange(8, 12)) as u32, Seq::empty(), total, 0)
            }
        }
    }
}

/// The frame at a location. The location's length plays no part.
pub open spec fn frame_for(v: StoreView, l: RecordLocation) -> Result<Seq<u8>, StoreError> {
    if has_segment(v.catalog.segments, l.segment) {
        frame_in(v.files[segment_index(v.catalog.segments, l.segment)], l.page, l.slot)
    } else {
        Err(StoreError::UnknownSegment { segment: l.segment })
    }
}

/// The record in a frame.
pub open spec fn record_in(frame: Seq<u8>) -> Result<HeapView, StoreError> {
    match frame_at(frame, 0) {
        FrameView::Record { payload } => match heap_of(payload) {
            Some(r) => Ok(r),
            None => Err(StoreError::Contents),
        },
        FrameView::Truncated(shortage) => Err(
            StoreError::Frame(RecordError::Truncated { offset: 0, shortage }),
        ),
        FrameView::Corrupt(damage) => Err(StoreError::Frame(RecordError::Corrupt { offset: 0, damage })),
        FrameView::UnsupportedVersion { found } => Err(
            StoreError::Frame(RecordError::UnsupportedVersion { offset: 0, found }),
        ),
    }
}

/// The record at a location.
pub open spec fn record_at(v: StoreView, l: RecordLocation) -> Result<HeapView, StoreError> {
    match frame_for(v, l) {
        Ok(frame) => record_in(frame),
        Err(e) => Err(e),
    }
}

/// The location is that of the record: it can be read there, in a slot of a
/// heap page, and is as long as the location says.
pub open spec fn holds(v: StoreView, l: RecordLocation, r: HeapView) -> bool {
    &&& record_at(v, l) == Ok::<HeapView, StoreError>(r)
    &&& frame_for(v, l)->Ok_0.len() == l.length
    &&& v.files[segment_index(v.catalog.segments, l.segment)][l.page as int].kind == PageKind::Heap
}

/// Every record of `u` is in `v`, at its location.
pub open spec fn keeps(u: StoreView, v: StoreView) -> bool {
    &&& forall|l: RecordLocation, r: HeapView| #[trigger] holds(u, l, r) ==> holds(v, l, r)
    &&& forall|l: RecordLocation|
        record_at(u, l) is Ok ==> #[trigger] record_at(v, l) == record_at(u, l)
}

// -- growth -----------------------------------------------------------

spec fn page_grown(p: PageView, q: PageView) -> bool {
    &&& q.kind == p.kind
    &&& q.extra == p.extra
    &&& q.cells.len() >= p.cells.len()
    &&& forall|j: int| 0 <= j < p.cells.len() ==> #[trigger] q.cells[j] == p.cells[j]
}

spec fn grown(a: Seq<PageView>, b: Seq<PageView>) -> bool {
    &&& b.len() >= a.len()
    &&& forall|i: int| 0 <= i < a.len() ==> page_grown(a[i], #[trigger] b[i])
}

spec fn store_grown(u: StoreView, v: StoreView) -> bool {
    &&& store_kept(u, v)
    &&& forall|i: int|
        0 <= i < u.catalog.segments.len() ==> (#[trigger] v.catalog.segments[i]).obsolete_bytes
            == u.catalog.segments[i].obsolete_bytes
    &&& forall|i: int|
        u.catalog.segments.len() <= i < v.catalog.segments.len() ==> (#[trigger] v.catalog.segments[i]).obsolete_bytes
            == 0
}

/// The same, whatever is obsolete.
spec fn store_kept(u: StoreView, v: StoreView) -> bool {
    &&& u.files.len() <= v.files.len()
    &&& u.catalog.segments.len() <= v.catalog.segments.len()
    &&& forall|i: int|
        0 <= i < u.catalog.segments.len() ==> (#[trigger] v.catalog.segments[i]).id == u.catalog.segments[i].id
    &&& forall|i: int| 0 <= i < u.files.len() ==> grown(u.files[i], #[trigger] v.files[i])
    &&& v.catalog.next_segment >= u.catalog.next_segment
    &&& v.catalog.active_segment == u.catalog.active_segment || v.catalog.active_segment >= u.catalog.next_segment
}

proof fn lemma_chain_grown(
    a: Seq<PageView>,
    b: Seq<PageView>,
    next: u32,
    got: Seq<u8>,
    total: nat,
    links: nat,
)
    requires
        grown(a, b),
        chain_from(a, next, got, total, links) is Ok,
    ensures
        chain_from(b, next, got, total, links) == chain_from(a, next, got, total, links),
    decreases max_links(total) - links,
{
    if got.len() < total {
        assert(page_grown(a[next as int], b[next as int]));
        assert(b[next as int].cells[0] == a[next as int].cells[0]);
        lemma_chain_grown(a, b, a[next as int].extra, got + a[next as int].cells[0], total, links + 1);
    }
}

proof fn lemma_frame_grown(a: Seq<PageView>, b: Seq<PageView>, page: u32, slot: u16)
    requires
        grown(a, b),
        frame_in(a, page, slot) is Ok,
    ensures
        frame_in(b, page, slot) == frame_in(a, page, slot),
        b[page as int].kind == a[page as int].kind,
{
    assert(page_grown(a[page as int], b[page as int]));
    let cell = a[page as int].cells[slot as int];
    assert(b[page as int].cells[slot as int] == cell);
    if is_stub(cell) {
        let total = le_value(cell.subrange(4, 8));
        lemma_chain_grown(a, b, le_value(cell.subrange(8, 12)) as u32, Seq::empty(), total, 0);
    }
}

proof fn lemma_store_grown(u: StoreView, v: StoreView)
    requires
        store_kept(u, v),
        segments_ok(u.catalog),
        segments_ok(v.catalog),
        u.files.len() == u.catalog.segments.len(),
    ensures
        keeps(u, v),
{
    assert forall|l: RecordLocation| record_at(u, l) is Ok implies #[trigger] record_at(v, l) == record_at(u, l)
        && v.files[segment_index(v.catalog.segments, l.segment)][l.page as int].kind == u.files[segment_index(
        u.catalog.segments,
        l.segment,
    )][l.page as int].kind && frame_for(v, l) == frame_for(u, l) by {
        let i = segment_index(u.catalog.segments, l.segment);
        assert(u.catalog.segments[i].id == l.segment);
        assert(v.catalog.segments[i].id == l.segment);
        lemma_segment_index(v.catalog, i);
        assert(grown(u.files[i], v.files[i]));
        lemma_frame_grown(u.files[i], v.files[i], l.page, l.slot);
    }
    assert forall|l: RecordLocation, r: HeapView| #[trigger] holds(u, l, r) implies holds(v, l, r) by {
        assert(record_at(v, l) == record_at(u, l));
    }
}

proof fn lemma_grown_trans(u: StoreView, v: StoreView, w: StoreView)
    requires
        store_grown(u, v),
        store_grown(v, w),
    ensures
        store_grown(u, w),
{
    assert forall|i: int| 0 <= i < u.catalog.segments.len() implies (#[trigger] w.catalog.segments[i]).id
        == u.catalog.segments[i].id by {
        assert(v.catalog.segments[i].id == u.catalog.segments[i].id);
    }
    assert forall|i: int| 0 <= i < u.catalog.segments.len() implies (#[trigger] w.catalog.segments[i]).obsolete_bytes
        == u.catalog.segments[i].obsolete_bytes by {
        assert(v.catalog.segments[i].obsolete_bytes == u.catalog.segments[i].obsolete_bytes);
    }
    assert forall|i: int|
        u.catalog.segments.len() <= i < w.catalog.segments.len() implies (#[trigger] w.catalog.segments[i]).obsolete_bytes
        == 0 by {
        if i < v.catalog.segments.len() {
            assert(v.catalog.segments[i].obsolete_bytes == 0);
        }
    }
    assert forall|i: int| 0 <= i < u.files.len() implies grown(u.files[i], #[trigger] w.files[i]) by {
        assert(grown(u.files[i], v.files[i]));
        assert(grown(v.files[i], w.files[i]));
        assert forall|k: int| 0 <= k < u.files[i].len() implies page_grown(
            u.files[i][k],
            #[trigger] w.files[i][k],
        ) by {
            assert(page_grown(u.files[i][k], v.files[i][k]));
            assert(page_grown(v.files[i][k], w.files[i][k]));
            assert forall|j: int| 0 <= j < u.files[i][k].cells.len() implies #[trigger] w.files[i][k].cells[j]
                == u.files[i][k].cells[j] by {
                assert(v.files[i][k].cells[j] == u.files[i][k].cells[j]);
            }
        }
    }
}

proof fn lemma_grown_refl(u: StoreView)
    ensures
        store_grown(u, u),
{
    assert forall|i: int| 0 <= i < u.files.len() implies grown(u.files[i], #[trigger] u.files[i]) by {
        assert forall|k: int| 0 <= k < u.files[i].len() implies page_grown(
            u.files[i][k],
            #[trigger] u.files[i][k],
        ) by {}
    }
}

// -- chains -----------------------------------------------------------

/// Part `j` of a frame cut to the size of a page.
spec fn chunk(frame: Seq<u8>, j: int) -> Seq<u8> {
    frame.subrange(
        j * MAX_CELL_LEN,
        if (j + 1) * MAX_CELL_LEN < frame.len() {
            (j + 1) * MAX_CELL_LEN
        } else {
            frame.len() as int
        },
    )
}

/// The page of a chain from `base` on that holds part `j` of `n`.
spec fn chain_page(frame: Seq<u8>, j: int, base: int, n: int) -> PageView {
    PageView {
        kind: PageKind::Overflow,
        extra: if j + 1 < n {
            (base + n - 2 - j) as u32
        } else {
            0
        },
        cells: seq![chunk(frame, j)],
    }
}

/// Parts `k` on of a chain from `base` on are in place.
spec fn chained(pages: Seq<PageView>, frame: Seq<u8>, base: int, n: int, k: int) -> bool {
    forall|j: int| k <= j < n ==> #[trigger] chain_part(pages, frame, base, n, j)
}

spec fn chain_part(pages: Seq<PageView>, frame: Seq<u8>, base: int, n: int, j: int) -> bool {
    pages[base + n - 1 - j] == chain_page(frame, j, base, n)
}

proof fn lemma_chain_reads(pages: Seq<PageView>, frame: Seq<u8>, base: int, n: int, k: int)
    requires
        chained(pages, frame, base, n, 0),
        MAX_CELL_LEN < frame.len(),
        n == max_links(frame.len()),
        0 <= base,
        base + n <= pages.len(),
        base + n <= u32::MAX,
        0 <= k < n,
    ensures
        chain_from(pages, (base + n - 1 - k) as u32, frame.take(k * MAX_CELL_LEN), frame.len(), k as nat) == Ok::<
            Seq<u8>,
            StoreError,
        >(frame),
    decreases n - k,
{
    reveal_with_fuel(chain_from, 2);
    assert(chain_part(pages, frame, base, n, k));
    let page = pages[base + n - 1 - k];
    let got = frame.take(k * MAX_CELL_LEN);
    let more = got + chunk(frame, k);
    assert(page.cells[0] == chunk(frame, k));
    if k + 1 < n {
        assert(more =~= frame.take((k + 1) * MAX_CELL_LEN));
        lemma_chain_reads(pages, frame, base, n, k + 1);
    } else {
        assert(more =~= frame);
    }
}

/// The stub of a chain.
spec fn stub_of(total: nat, first: nat) -> Seq<u8> {
    overflow_magic() + le_bytes(total, 4) + le_bytes(first, 4)
}

proof fn lemma_stub(total: nat, first: nat)
    requires
        total <= u32::MAX,
        first <= u32::MAX,
    ensures
        is_stub(stub_of(total, first)),
        le_value(stub_of(total, first).subrange(4, 8)) == total,
        le_value(stub_of(total, first).subrange(8, 12)) == first,
{
    lemma_radix_values();
    lemma_le_round_trip(total, 4);
    lemma_le_round_trip(first, 4);
    let s = stub_of(total, first);
    assert(s.take(4) =~= overflow_magic());
    assert(s.subrange(4, 8) =~= le_bytes(total, 4));
    assert(s.subrange(8, 12) =~= le_bytes(first, 4));
}

fn is_overflow_stub(cell: &[u8]) -> (r: bool)
    ensures
        r == is_stub(cell@),
{
    if cell.len() != OVERFLOW_STUB_LEN {
        return false;
    }
    let r = cell[0] == 0x46u8 && cell[1] == 0x51u8 && cell[2] == 0x4fu8 && cell[3] == 0x56u8;
    proof {
        let head = cell@.take(4);
        let magic = overflow_magic();
        if r {
            assert(head =~= magic);
        } else {
            assert(head[0] == cell@[0] && head[1] == cell@[1] && head[2] == cell@[2] && head[3] == cell@[3]);
        }
    }
    r
}

// ---------------------------------------------------------------------
// The store
// ---------------------------------------------------------------------

/// The heap of an open database.
pub struct RecordStore {
    catalog: Catalog,
    files: Vec<Pager>,
}

/// What the application does to bring files up to date, one after the
/// other.
#[derive(Clone, Copy, PartialEq, Eq, Debug, Structural)]
pub enum StoreStep {
    /// Write the pages of this segment.
    Flush(u32),
    /// Write the catalog.
    SaveCatalog,
    /// Delete the file of this segment.
    Remove(u32),
}

/// A page of a file, blank past the file's end.
pub open spec fn page_or_blank(pages: Seq<PageView>, k: int) -> PageView {
    if k < pages.len() {
        pages[k]
    } else {
        blank_page()
    }
}

/// The active segment is known, and there are ids for any one record more.
pub open spec fn roomy(v: StoreView) -> bool {
    &&& v.catalog.next_segment < u32::MAX
    &&& has_segment(v.catalog.segments, v.catalog.active_segment)
    &&& v.files[segment_index(v.catalog.segments, v.catalog.active_segment)].len() < u32::MAX - 5000
}

impl View for RecordStore {
    type V = StoreView;

    closed spec fn view(&self) -> StoreView {
        StoreView {
            catalog: self.catalog@,
            files: Seq::new(self.files@.len(), |i: int| self.files@[i]@),
        }
    }
}

impl RecordStore {
    /// Catalog and files agree, and segments have ids of their own.
    pub closed spec fn wf(&self) -> bool {
        &&& self.files@.len() == self.catalog@.segments.len()
        &&& segments_ok(self.catalog@)
        &&& forall|i: int| 0 <= i < self.files@.len() ==> (#[trigger] self.files@[i]).wf()
        &&& forall|i: int|
            0 <= i < self.files@.len() ==> (#[trigger] self.files@[i])@.len() == self.catalog@.segments[i].pages
    }

    pub proof fn lemma_wf(&self)
        requires
            self.wf(),
        ensures
            self@.files.len() == self@.catalog.segments.len(),
            segments_ok(self@.catalog),
            forall|i: int|
                0 <= i < self@.files.len() ==> (#[trigger] self@.files[i]).len() == self@.catalog.segments[i].pages,
    {
        assert forall|i: int| 0 <= i < self@.files.len() implies (#[trigger] self@.files[i]).len()
            == self@.catalog.segments[i].pages by {
            assert(self.files@[i]@.len() == self.catalog@.segments[i].pages);
        }
    }

    /// Opens the heap that a catalog describes, from the pages of its
    /// segments in the catalog's order. Each file is brought to the length
    /// that the catalog gives. None where the catalog's segments do not have
    /// ids of their own, handed out before, or where a file is missing.
    pub fn open(catalog: Catalog, files: Vec<Pager>) -> (r: Option<RecordStore>)
        requires
            forall|i: int| 0 <= i < files@.len() ==> (#[trigger] files@[i]).wf(),
        ensures
            match r {
                Some(store) => {
                    &&& store.wf()
                    &&& segments_ok(catalog@)
                    &&& files@.len() == catalog@.segments.len()
                    &&& store@.catalog == catalog@
                    &&& forall|i: int, k: int|
                        0 <= i < files@.len() && 0 <= k < catalog@.segments[i].pages ==> #[trigger]
                            store@.files[i][k] == page_or_blank(files@[i]@, k)
                },
                None => !segments_ok(catalog@) || files@.len() != catalog@.segments.len(),
            },
    {
        if files.len() != catalog.segment_count() {
            return None;
        }
        if !RecordStore::ids_in_order(&catalog) {
            return None;
        }
        let mut files = files;
        let ghost given = files@;
        let n: usize = files.len();
        let mut i: usize = 0;
        while i < n
            invariant
                n == files@.len(),
                n == given.len(),
                n == catalog@.segments.len(),
                i <= n,
                forall|j: int| 0 <= j < n ==> (#[trigger] files@[j]).wf(),
                forall|j: int| 0 <= j < i ==> (#[trigger] files@[j])@.len() == catalog@.segments[j].pages,
                forall|j: int, k: int|
                    0 <= j < i && 0 <= k < catalog@.segments[j].pages ==> #[trigger] files@[j]@[k] == page_or_blank(
                        given[j]@,
                        k,
                    ),
                forall|j: int| i <= j < n ==> #[trigger] files@[j] == given[j],
            decreases n - i,
        {
            let pages: u32 = catalog.segment(i).pages;
            files[i].set_page_count(pages);
            i = i + 1;
        }
        Some(RecordStore { catalog, files })
    }

    fn ids_in_order(catalog: &Catalog) -> (r: bool)
        ensures
            r == segments_ok(catalog@),
    {
        let n: usize = catalog.segment_count();
        let next: u32 = catalog.next_segment();
        let ghost segments = catalog@.segments;
        let mut i: usize = 0;
        while i < n
            invariant
                n == segments.len(),
                segments == catalog@.segments,
                next == catalog@.next_segment,
                i <= n,
                forall|j: int| 0 <= j < i ==> (#[trigger] segments[j]).id < next,
                forall|j: int, k: int| 0 <= j < k < i ==> (#[trigger] segments[j]).id != (#[trigger] segments[k]).id,
            decreases n - i,
        {
            let id: u32 = catalog.segment(i).id;
            if id >= next {
                proof {
                    assert(segments[i as int].id >= catalog@.next_segment);
                }
                return false;
            }
            let mut k: usize = 0;
            while k < i
                invariant
                    k <= i < n,
                    n == segments.len(),
                    segments == catalog@.segments,
                    id == segments[i as int].id,
                    forall|j: int| 0 <= j < k ==> (#[trigger] segments[j]).id != id,
                decreases i - k,
            {
                if catalog.segment(k).id == id {
                    proof {
                        assert(segments[k as int].id == segments[i as int].id);
                    }
                    return false;
                }
                k = k + 1;
            }
            i = i + 1;
        }
        true
    }

    /// The heap of a database that holds nothing.
    pub fn fresh() -> (r: RecordStore)
        ensures
            r.wf(),
            r@.catalog == fresh_catalog(),
            roomy(r@),
    {
        let mut files: Vec<Pager> = Vec::new();
        files.push(Pager::new());
        let r = RecordStore { catalog: Catalog::fresh(), files };
        proof {
            assert forall|i: int| 0 <= i < r.files@.len() implies (#[trigger] r.files@[i]).wf()
                && r.files@[i]@.len() == r.catalog@.segments[i].pages by {}
            assert(r@.catalog.segments[0].id == 0);
            assert(r@.files[0] == r.files@[0]@);
        }
        r
    }

    pub fn catalog(&self) -> (r: &Catalog)
        ensures
            r@ == self@.catalog,
    {
        &self.catalog
    }

    /// File name of a segment.
    pub fn segment_path(id: u32) -> (r: String)
        ensures
            r@ == segment_name(id),
    {
        let digits: Vec<u8> = to_digits(id as u64);
        proof {
            lemma_digits_round_trip(id as nat);
        }
        let mut number: Vec<u8> = Vec::new();
        let ghost width = 6 - digits@.len();
        while number.len() + digits.len() < 6
            invariant
                digits@.len() >= 1,
                width == 6 - digits@.len(),
                number@.len() <= if width > 0 { width } else { 0 },
                number@ =~= Seq::new(number@.len(), |i: int| 0x30u8),
            decreases 6 - number.len() - digits.len(),
        {
            number.push(0x30u8);
        }
        put_bytes(&mut number, &digits);
        proof {
            assert(number@ =~= padded(digits_of(id as nat)));
            lemma_digits_round_trip(id as nat);
            assert forall|i: int| 0 <= i < number@.len() implies (#[trigger] number@[i]) < 0x80 by {
                let d = digits_of(id as nat);
                if number@[i] != 0x30 {
                    assert(is_digit(d[i - (number@.len() - d.len())]));
                }
            }
            lemma_ascii_text(number@);
        }
        let text = text_of_bytes(&number);
        let name = own("facetql.heap.");
        let name = name.concat(&text);
        name.concat(".seg")
    }
}

impl RecordStore {
    // -- appending ----------------------------------------------------

    /// Adds a page at the end of the segment at position `at`.
    fn extend(&mut self, at: usize, page: Page) -> (r: Result<u32, StoreError>)
        requires
            old(self).wf(),
            at < old(self)@.files.len(),
            page.wf(),
        ensures
            final(self).wf(),
            match r {
                Ok(id) => {
                    &&& id == old(self)@.files[at as int].len()
                    &&& id < u32::MAX
                    &&& final(self)@ == extended(old(self)@, at as int, page@)
                },
                Err(e) => {
                    &&& e == StoreError::Full
                    &&& final(self)@ == old(self)@
                    &&& old(self)@.files[at as int].len() == u32::MAX
                },
            },
    {
        let meta = self.catalog.segment(at);
        if meta.pages == u32::MAX {
            return Err(StoreError::Full);
        }
        let id: u32 = meta.pages;
        self.files[at].write(id, page);
        self.catalog.set_segment(at, SegmentMeta { pages: id + 1, ..meta });
        proof {
            assert(self@.files =~= extended(old(self)@, at as int, page@).files);
            assert(self@.catalog.segments =~= extended(old(self)@, at as int, page@).catalog.segments);
        }
        Ok(id)
    }

    /// Makes a fresh, empty segment active; says its position.
    fn roll(&mut self) -> (r: Result<usize, StoreError>)
        requires
            old(self).wf(),
        ensures
            final(self).wf(),
            match r {
                Ok(at) => {
                    &&& at == old(self)@.files.len()
                    &&& final(self)@.files == old(self)@.files.push(Seq::empty())
                    &&& final(self)@.catalog.segments == old(self)@.catalog.segments.push(
                        SegmentMeta { id: old(self)@.catalog.next_segment, pages: 0, obsolete_bytes: 0 },
                    )
                    &&& final(self)@.catalog.active_segment == old(self)@.catalog.next_segment
                    &&& final(self)@.catalog.next_segment == old(self)@.catalog.next_segment + 1
                },
                Err(e) => {
                    &&& e == StoreError::Full
                    &&& final(self)@ == old(self)@
                    &&& old(self)@.catalog.next_segment == u32::MAX
                },
            },
    {
        let at: usize = self.files.len();
        match self.catalog.roll() {
            Some(_) => {},
            None => { return Err(StoreError::Full) },
        }
        self.files.push(Pager::new());
        proof {
            assert(self@.files =~= old(self)@.files.push(Seq::empty()));
            assert forall|i: int, j: int| 0 <= i < j < self.catalog@.segments.len() implies (
            #[trigger] self.catalog@.segments[i]).id != (#[trigger] self.catalog@.segments[j]).id by {
                assert(old(self).catalog@.segments[i].id < old(self).catalog@.next_segment);
            }
        }
        Ok(at)
    }

    /// Adds a page to the segment at position `at`, or to a fresh one if
    /// that is full; says where the page went.
    fn grow(&mut self, at: usize, page: Page) -> (r: Result<(usize, u32), StoreError>)
        requires
            old(self).wf(),
            at < old(self)@.files.len(),
            page.wf(),
        ensures
            final(self).wf(),
            store_grown(old(self)@, final(self)@),
            match r {
                Ok((to, id)) => {
                    &&& to < final(self)@.files.len()
                    &&& id < final(self)@.files[to as int].len()
                    &&& final(self)@.files[to as int][id as int] == page@
                    &&& only_at(old(self)@, final(self)@, at as int)
                    &&& id == if old(self)@.files[at as int].len() >= MAX_PAGES_PER_SEGMENT {
                        0
                    } else {
                        old(self)@.files[at as int].len()
                    }
                    &&& final(self)@.catalog.segments[to as int].id == if old(self)@.files[at as int].len()
                        >= MAX_PAGES_PER_SEGMENT {
                        old(self)@.catalog.next_segment
                    } else {
                        old(self)@.catalog.segments[at as int].id
                    }
                    &&& old(self)@.catalog.segments[at as int].id == old(self)@.catalog.active_segment
                        ==> final(self)@.catalog.segments[to as int].id == final(self)@.catalog.active_segment
                },
                Err(e) => {
                    &&& e == StoreError::Full
                    &&& final(self)@ == old(self)@
                    &&& old(self)@.files[at as int].len() == u32::MAX || old(self)@.catalog.next_segment == u32::MAX
                },
            },
    {
        proof {
            self.lemma_wf();
            assert(self@.files[at as int].len() == self@.catalog.segments[at as int].pages);
        }
        if self.catalog.segment(at).pages >= MAX_PAGES_PER_SEGMENT {
            proof {
                lemma_grown_refl(old(self)@);
            }
            let fresh: usize = match self.roll() {
                Ok(fresh) => fresh,
                Err(e) => { return Err(e) },
            };
            let ghost rolled = self@;
            proof {
                assert(rolled.catalog.segments.drop_last() =~= old(self)@.catalog.segments);
                lemma_rolled(old(self)@, rolled);
            }
            let r = self.extend(fresh, page);
            proof {
                if r is Ok {
                    lemma_extended(rolled, fresh as int, page@);
                }
                lemma_grown_refl(rolled);
                lemma_grown_trans(old(self)@, rolled, self@);
            }
            match r {
                Ok(id) => Ok((fresh, id)),
                Err(e) => Err(e),
            }
        } else {
            let r = self.extend(at, page);
            proof {
                lemma_grown_refl(old(self)@);
                if r is Ok {
                    lemma_extended(old(self)@, at as int, page@);
                }
            }
            match r {
                Ok(id) => Ok((at, id)),
                Err(e) => Err(e),
            }
        }
    }

    /// Puts one cell in the segment at position `at`: in its last page if
    /// there is room, else in a page more. Only where `allow_roll` says so
    /// may that page be in a fresh segment.
    fn append_cell_to(&mut self, at: usize, cell: &[u8], allow_roll: bool) -> (r: Result<
        (usize, u32, u16),
        StoreError,
    >)
        requires
            old(self).wf(),
            at < old(self)@.files.len(),
            cell@.len() <= MAX_CELL_LEN,
        ensures
            final(self).wf(),
            store_grown(old(self)@, final(self)@),
            match r {
                Ok((to, page, slot)) => {
                    &&& to < final(self)@.files.len()
                    &&& !allow_roll ==> to == at
                    &&& only_at(old(self)@, final(self)@, at as int)
                    &&& allow_roll ==> page == page_for(old(self)@, at as int, cell@.len())
                    &&& !allow_roll && !takes_cell(old(self)@.files[at as int], cell@.len()) ==> page
                        == old(self)@.files[at as int].len()
                    &&& allow_roll ==> final(self)@.catalog.segments[to as int].id == if goes_on_fresh(
                        old(self)@,
                        at as int,
                        cell@.len(),
                    ) {
                        old(self)@.catalog.next_segment
                    } else {
                        old(self)@.catalog.segments[at as int].id
                    }
                    &&& old(self)@.catalog.segments[at as int].id == old(self)@.catalog.active_segment
                        ==> final(self)@.catalog.segments[to as int].id == final(self)@.catalog.active_segment
                    &&& page < final(self)@.files[to as int].len()
                    &&& final(self)@.files[to as int][page as int].kind == PageKind::Heap
                    &&& slot < final(self)@.files[to as int][page as int].cells.len()
                    &&& final(self)@.files[to as int][page as int].cells[slot as int] == cell@
                },
                Err(e) => {
                    &&& e == StoreError::Full
                    &&& final(self)@ == old(self)@
                    &&& old(self)@.files[at as int].len() == u32::MAX || (allow_roll && old(self)@.catalog.next_segment
                        == u32::MAX)
                },
            },
    {
        proof {
            lemma_grown_refl(self@);
            self.lemma_wf();
            assert(self@.files[at as int].len() == self@.catalog.segments[at as int].pages);
        }
        let pages: u32 = self.catalog.segment(at).pages;
        if pages > 0 {
            let last: u32 = pages - 1;
            let read = self.files[at].read(last);
            match read {
                Some(found) => {
                    let mut page = found.copy();
                    let ghost before = page@;
                    match page.kind() {
                        PageKind::Heap => {
                            proof {
                                page.lemma_wf();
                            }
                            match page.push_cell(cell) {
                                Some(slot) => {
                                    let ghost after = page@;
                                    proof {
                                        page.lemma_wf();
                                    }
                                    self.files[at].write(last, page);
                                    proof {
                                        let v = StoreView {
                                            files: old(self)@.files.update(
                                                at as int,
                                                old(self)@.files[at as int].update(last as int, after),
                                            ),
                                            ..old(self)@
                                        };
                                        assert(self@ =~= v);
                                        assert(page_grown(before, after));
                                        assert(after.cells.drop_last() =~= before.cells);
                                        assert(cells_size(after.cells) <= PAGE_BODY_LEN);
                                        assert(takes_cell(old(self)@.files[at as int], cell@.len()));
                                        lemma_page_replaced(old(self)@, at as int, last as int, after);
                                    }
                                    return Ok((at, last, slot as u16));
                                },
                                None => {},
                            }
                        },
                        _ => {},
                    }
                },
                None => {},
            }
        }
        let mut page = Page::new(PageKind::Heap);
        match page.push_cell(cell) {
            Some(_) => {},
            None => {
                proof {
                    reveal_with_fuel(cells_size, 1);
                    assert(false);
                }
            },
        }
        let ghost made = page@;
        proof {
            assert(made.cells[0] == cell@);
            assert(!takes_cell(self@.files[at as int], cell@.len()));
        }
        let r = if allow_roll {
            self.grow(at, page)
        } else {
            match self.extend(at, page) {
                Ok(id) => {
                    proof {
                        lemma_extended(old(self)@, at as int, made);
                    }
                    Ok((at, id))
                },
                Err(e) => Err(e),
            }
        };
        match r {
            Ok((to, id)) => Ok((to, id, 0)),
            Err(e) => Err(e),
        }
    }
}

impl RecordStore {
    /// Stores a frame too long for one page: a chain of pages, last part
    /// first so that each page knows the next, and a stub beside it.
    fn append_overflow(&mut self, active: usize, frame: &[u8]) -> (r: Result<RecordLocation, StoreError>)
        requires
            old(self).wf(),
            active < old(self)@.files.len(),
            old(self)@.catalog.segments[active as int].id == old(self)@.catalog.active_segment,
            MAX_CELL_LEN < frame@.len() <= MAX_RECORD_FRAME_LEN,
        ensures
            final(self).wf(),
            store_grown(old(self)@, final(self)@),
            match r {
                Ok(l) => {
                    &&& located(final(self)@, l, frame@)
                    &&& l.segment == final(self)@.catalog.active_segment
                    &&& only_at(old(self)@, final(self)@, active as int)
                    &&& l.page == page_for(old(self)@, active as int, frame@.len())
                    &&& l.segment == if goes_on_fresh(old(self)@, active as int, frame@.len()) {
                        old(self)@.catalog.next_segment
                    } else {
                        old(self)@.catalog.active_segment
                    }
                },
                Err(e) => {
                    &&& e == StoreError::Full
                    &&& !roomy(final(self)@)
                    &&& old(self)@.files[active as int].len() >= u32::MAX - 5000
                        || old(self)@.catalog.next_segment == u32::MAX
                },
            },
    {
        proof {
            lemma_grown_refl(self@);
            self.lemma_wf();
            assert(self@.files[active as int].len() == self@.catalog.segments[active as int].pages);
        }
        let at: usize = if self.catalog.segment(active).pages >= MAX_PAGES_PER_SEGMENT {
            match self.roll() {
                Ok(fresh) => {
                    proof {
                        assert(self@.catalog.segments.drop_last() =~= old(self)@.catalog.segments);
                        lemma_rolled(old(self)@, self@);
                    }
                    fresh
                },
                Err(e) => { return Err(e) },
            }
        } else {
            active
        };
        proof {
            self.lemma_wf();
        }
        let ghost start = self@;
        let ghost base = start.files[at as int].len() as int;
        let total: usize = frame.len();
        let n: usize = (total - 1) / MAX_CELL_LEN + 1;
        let mut next: u32 = 0;
        let mut k: usize = n;
        proof {
            assert(n == max_links(total as nat));
            lemma_grown_refl(start);
        }
        while k > 0
            invariant
                self.wf(),
                at < start.files.len(),
                base == start.files[at as int].len(),
                total == frame@.len(),
                n == max_links(total as nat),
                MAX_CELL_LEN < total <= MAX_RECORD_FRAME_LEN,
                n <= 4106,
                k <= n,
                store_grown(start, self@),
                self@.catalog.active_segment == start.catalog.active_segment,
                start.catalog.segments[at as int].id == start.catalog.active_segment,
                at < start.catalog.segments.len(),
                self@.files.len() == start.files.len(),
                self@.files[at as int].len() == base + n - k,
                self@.catalog.next_segment == start.catalog.next_segment,
                chained(self@.files[at as int], frame@, base, n as int, k as int),
                k < n ==> next == base + n - 1 - k,
                k == n ==> next == 0,
                store_grown(old(self)@, start),
                base < u32::MAX - 5000 || (base == old(self)@.files[active as int].len()),
                base + n - k <= u32::MAX,
                only_at(old(self)@, self@, active as int),
                at == active || at == old(self)@.files.len(),
                old(self)@.files.len() <= start.files.len(),
            decreases k,
        {
            let ghost before = self@;
            k = k - 1;
            let from: usize = k * MAX_CELL_LEN;
            let to: usize = if total - from > MAX_CELL_LEN {
                from + MAX_CELL_LEN
            } else {
                total
            };
            let part: Vec<u8> = copy_range(frame, from, to);
            proof {
                assert(part@ =~= chunk(frame@, k as int));
            }
            let mut page = Page::new(PageKind::Overflow);
            page.set_extra(next);
            match page.push_cell(&part) {
                Some(_) => {},
                None => {
                    proof {
                        reveal_with_fuel(cells_size, 1);
                        assert(false);
                    }
                },
            }
            let ghost made = page@;
            proof {
                assert(made =~= chain_page(frame@, k as int, base, n as int));
                self.lemma_wf();
            }
            let id: u32 = match self.extend(at, page) {
                Ok(id) => id,
                Err(e) => {
                    proof {
                        lemma_grown_trans(old(self)@, start, self@);
                        lemma_full(*self, at as int);
                    }
                    return Err(e);
                },
            };
            next = id;
            proof {
                lemma_extended(before, at as int, made);
                lemma_grown_trans(start, before, self@);
                let pages = self@.files[at as int];
                assert forall|j: int| k <= j < n implies #[trigger] chain_part(pages, frame@, base, n as int, j) by {
                    if j > k {
                        assert(chain_part(before.files[at as int], frame@, base, n as int, j));
                    }
                }
            }
        }
        let ghost mid = self@;
        let mut stub: Vec<u8> = vec![0x46u8, 0x51u8, 0x4fu8, 0x56u8];
        put_le(&mut stub, total as u64, 4);
        put_le(&mut stub, next as u64, 4);
        proof {
            assert(stub@ =~= stub_of(total as nat, next as nat));
            lemma_stub(total as nat, next as nat);
            lemma_grown_trans(old(self)@, start, mid);
        }
        proof {
            assert(chain_part(mid.files[at as int], frame@, base, n as int, 0));
            assert(!takes_cell(mid.files[at as int], stub@.len()));
        }
        let placed = self.append_cell_to(at, &stub, false);
        proof {
            lemma_grown_trans(old(self)@, mid, self@);
        }
        match placed {
            Ok((to, page, slot)) => {
                let segment: u32 = self.catalog.segment(to).id;
                let l = RecordLocation { segment, page, slot, length: total as u32 };
                proof {
                    self.lemma_wf();
                    lemma_segment_index(self@.catalog, to as int);
                    lemma_chain_reads(mid.files[at as int], frame@, base, n as int, 0);
                    assert(frame@.take(0) =~= Seq::<u8>::empty());
                    assert(grown(mid.files[at as int], self@.files[at as int]));
                    lemma_chain_grown(
                        mid.files[at as int],
                        self@.files[at as int],
                        next,
                        Seq::empty(),
                        total as nat,
                        0,
                    );
                    assert(frame_in(self@.files[at as int], page, slot) == Ok::<Seq<u8>, StoreError>(frame@));
                }
                Ok(l)
            },
            Err(e) => {
                proof {
                    lemma_full(*self, at as int);
                }
                Err(e)
            },
        }
    }

    /// Stores a record; says where it is.
    pub fn append(&mut self, record: &HeapRecord) -> (r: Result<RecordLocation, StoreError>)
        requires
            old(self).wf(),
        ensures
            final(self).wf(),
            keeps(old(self)@, final(self)@),
            match r {
                Ok(l) => {
                    &&& appendable(old(self)@, record@)
                    &&& holds(final(self)@, l, record@)
                    &&& l.segment == final(self)@.catalog.active_segment
                    &&& l.segment == segment_for(old(self)@, record@)
                    &&& l.page == page_for(
                        old(self)@,
                        segment_index(old(self)@.catalog.segments, old(self)@.catalog.active_segment),
                        frame_of(packed(heap_fields(record@))).len(),
                    )
                    &&& undisturbed(old(self)@, final(self)@)
                    &&& wears(old(self)@, final(self)@, None)
                    &&& forall|s: u32| #[trigger] inactive(old(self)@, s) ==> inactive(final(self)@, s)
                },
                Err(e) => {
                    let len = packed(heap_fields(record@)).len();
                    if len > MAX_RECORD_PAYLOAD_LEN {
                        &&& e == StoreError::Frame(RecordError::TooLong { len: len as usize })
                        &&& final(self)@ == old(self)@
                    } else if !has_segment(old(self)@.catalog.segments, old(self)@.catalog.active_segment) {
                        &&& e == (StoreError::UnknownSegment { segment: old(self)@.catalog.active_segment })
                        &&& final(self)@ == old(self)@
                    } else {
                        e == StoreError::Full && !roomy(old(self)@) && !roomy(final(self)@)
                    }
                },
            },
    {
        proof {
            self.lemma_wf();
            lemma_grown_refl(self@);
            lemma_store_grown(self@, self@);
        }
        let plain: Vec<u8> = record.encode();
        let frame: Vec<u8> = match encode_frame(&plain) {
            Ok(frame) => frame,
            Err(e) => { return Err(StoreError::Frame(e)) },
        };
        proof {
            law_frame_round_trip(Seq::empty(), plain@, Seq::empty());
            assert(Seq::<u8>::empty() + frame@ + Seq::<u8>::empty() =~= frame@);
            assert(record_in(frame@) == Ok::<HeapView, StoreError>(record@));
        }
        let active: u32 = self.catalog.active_segment();
        let at: usize = match self.catalog.position(active) {
            Some(at) => at,
            None => { return Err(StoreError::UnknownSegment { segment: active }) },
        };
        proof {
            lemma_segment_index(self@.catalog, at as int);
        }
        if frame.len() > MAX_CELL_LEN {
            let r = self.append_overflow(at, &frame);
            proof {
                self.lemma_wf();
                lemma_store_grown(old(self)@, self@);
                lemma_grown_wears(old(self)@, self@);
                if r is Ok {
                    lemma_only_active(old(self)@, self@, at as int);
                }
            }
            return r;
        }
        let placed = self.append_cell_to(at, &frame, true);
        proof {
            self.lemma_wf();
            lemma_store_grown(old(self)@, self@);
            lemma_grown_wears(old(self)@, self@);
        }
        match placed {
            Ok((to, page, slot)) => {
                let segment: u32 = self.catalog.segment(to).id;
                proof {
                    lemma_segment_index(self@.catalog, to as int);
                    lemma_only_active(old(self)@, self@, at as int);
                }
                Ok(RecordLocation { segment, page, slot, length: frame.len() as u32 })
            },
            Err(e) => Err(e),
        }
    }

    // -- reading ------------------------------------------------------

    /// The frame at a location, put together from its chain where it has
    /// one.
    fn read_frame(&self, location: RecordLocation) -> (r: Result<Vec<u8>, StoreError>)
        requires
            self.wf(),
        ensures
            match r {
                Ok(frame) => frame_for(self@, location) == Ok::<Seq<u8>, StoreError>(frame@),
                Err(e) => frame_for(self@, location) == Err::<Seq<u8>, StoreError>(e),
            },
    {
        proof {
            self.lemma_wf();
        }
        let at: usize = match self.catalog.position(location.segment) {
            Some(at) => at,
            None => { return Err(StoreError::UnknownSegment { segment: location.segment }) },
        };
        proof {
            lemma_segment_index(self@.catalog, at as int);
        }
        let ghost pages = self@.files[at as int];
        let file = &self.files[at];
        let page = match file.read(location.page) {
            Some(page) => page,
            None => { return Err(StoreError::NoPage { page: location.page }) },
        };
        let cell = match page.cell(location.slot as usize) {
            Some(cell) => cell,
            None => { return Err(StoreError::NoCell) },
        };
        if !is_overflow_stub(cell) {
            return Ok(copy_bytes(cell));
        }
        proof {
            lemma_radix_values();
            lemma_le_value_bytes(cell@.subrange(4, 8));
            lemma_le_value_bytes(cell@.subrange(8, 12));
        }
        let total: u64 = get_le(cell, 4, 4);
        let mut next: u32 = get_le(cell, 8, 4) as u32;
        if total > MAX_RECORD_FRAME_LEN as u64 {
            return Err(StoreError::StubLength { declared: total });
        }
        let most: u64 = if total <= MAX_CELL_LEN as u64 {
            1
        } else {
            (total - 1) / MAX_CELL_LEN as u64 + 1
        };
        proof {
            assert(most == max_links(total as nat));
        }
        let mut links: u64 = 0;
        let mut frame: Vec<u8> = Vec::new();
        let ghost whole = chain_from(pages, next, Seq::empty(), total as nat, 0);
        proof {
            assert(frame@ =~= Seq::<u8>::empty());
        }
        while (frame.len() as u64) < total
            invariant
                file.wf(),
                pages == file@,
                total <= MAX_RECORD_FRAME_LEN,
                most == max_links(total as nat),
                links <= most,
                chain_from(pages, next, frame@, total as nat, links as nat) == whole,
                frame_for(self@, location) == whole,
            decreases most - links,
        {
            if links >= most {
                return Err(StoreError::ChainTooLong { links: most });
            }
            links = links + 1;
            let chain = match file.read(next) {
                Some(chain) => chain,
                None => { return Err(StoreError::NoPage { page: next }) },
            };
            match chain.kind() {
                PageKind::Overflow => {},
                _ => { return Err(StoreError::NotOverflow) },
            }
            let part = match chain.cell(0) {
                Some(part) => part,
                None => { return Err(StoreError::NoChunk) },
            };
            put_bytes(&mut frame, part);
            next = chain.extra();
        }
        if frame.len() as u64 != total {
            return Err(StoreError::ChainLength { found: frame.len() as u64, expected: total });
        }
        Ok(frame)
    }

    /// The record at a location.
    pub fn read(&self, location: RecordLocation) -> (r: Result<HeapRecord, StoreError>)
        requires
            self.wf(),
        ensures
            match r {
                Ok(record) => record_at(self@, location) == Ok::<HeapView, StoreError>(record@),
                Err(e) => record_at(self@, location) == Err::<HeapView, StoreError>(e),
            },
    {
        let frame = match self.read_frame(location) {
            Ok(frame) => frame,
            Err(e) => { return Err(e) },
        };
        let payload = match decode_frame(&frame) {
            Ok(payload) => payload,
            Err(e) => { return Err(StoreError::Frame(e)) },
        };
        match HeapRecord::decode(&payload) {
            Some(record) => Ok(record),
            None => Err(StoreError::Contents),
        }
    }
}

impl RecordStore {
    /// The record at a location, if the location is that of a record.
    pub(crate) fn read_whole(&self, location: RecordLocation) -> (r: Option<HeapRecord>)
        requires
            self.wf(),
        ensures
            match r {
                Some(record) => holds(self@, location, record@),
                None => forall|v: HeapView| !#[trigger] holds(self@, location, v),
            },
    {
        proof {
            self.lemma_wf();
        }
        let at: usize = match self.catalog.position(location.segment) {
            Some(at) => at,
            None => { return None },
        };
        proof {
            lemma_segment_index(self@.catalog, at as int);
        }
        let frame = match self.read_frame(location) {
            Ok(frame) => frame,
            Err(_) => { return None },
        };
        if frame.len() != location.length as usize {
            return None;
        }
        match self.files[at].read(location.page) {
            Some(page) => match page.kind() {
                PageKind::Heap => {},
                _ => { return None },
            },
            None => { return None },
        }
        match self.read(location) {
            Ok(record) => Some(record),
            Err(_) => None,
        }
    }
}

impl RecordStore {
    // -- space accounting and compaction ------------------------------

    /// Notes that nothing refers to the record at a location any more.
    pub fn mark_obsolete(&mut self, location: RecordLocation)
        requires
            old(self).wf(),
        ensures
            final(self).wf(),
            final(self)@ == marked(old(self)@, location),
            wears(old(self)@, final(self)@, Some(location)),
            keeps(old(self)@, final(self)@),
            roomy(old(self)@) ==> roomy(final(self)@),
    {
        proof {
            self.lemma_wf();
            lemma_grown_refl(self@);
            lemma_store_grown(self@, self@);
        }
        proof {
            if !has_segment(self@.catalog.segments, location.segment) {
                lemma_marked_wears(self@, location);
            }
        }
        match self.catalog.position(location.segment) {
            Some(at) => {
                let meta = self.catalog.segment(at);
                proof {
                    lemma_segment_index(self@.catalog, at as int);
                }
                let dead: u64 = if meta.obsolete_bytes > u64::MAX - location.length as u64 {
                    u64::MAX
                } else {
                    meta.obsolete_bytes + location.length as u64
                };
                self.catalog.set_segment(at, SegmentMeta { obsolete_bytes: dead, ..meta });
                proof {
                    assert(self@ =~= marked(old(self)@, location));
                    self.lemma_wf();
                    lemma_marked_wears(old(self)@, location);
                    assert(store_kept(old(self)@, self@)) by {
                        lemma_grown_refl(old(self)@);
                        assert forall|k: int| 0 <= k < self@.files.len() implies grown(
                            old(self)@.files[k],
                            #[trigger] self@.files[k],
                        ) by {
                            assert(grown(old(self)@.files[k], old(self)@.files[k]));
                        }
                    }
                    lemma_store_grown(old(self)@, self@);
                    let a = old(self)@.catalog.active_segment;
                    if has_segment(old(self)@.catalog.segments, a) {
                        let k = segment_index(old(self)@.catalog.segments, a);
                        assert(self@.catalog.segments[k].id == a);
                        lemma_segment_index(self@.catalog, k);
                    }
                }
            },
            None => {},
        }
    }

    /// The segments worth draining, in the catalog's order: those that are
    /// not appended to, hold a page, and of whose room at least the share
    /// `part` in `whole` is obsolete.
    pub fn compaction_candidates(&self, part: u32, whole: u32) -> (r: Vec<u32>)
        ensures
            r@ == candidates(self@.catalog, part as nat, whole as nat),
    {
        let n: usize = self.catalog.segment_count();
        let active: u32 = self.catalog.active_segment();
        let mut out: Vec<u32> = Vec::new();
        let mut i: usize = 0;
        proof {
            assert(self@.catalog.segments.take(0).filter(worth(self@.catalog, part as nat, whole as nat))
                =~= Seq::<SegmentMeta>::empty()) by {
                reveal(Seq::filter);
            }
            assert(out@ =~= ids_of(Seq::<SegmentMeta>::empty()));
        }
        while i < n
            invariant
                n == self@.catalog.segments.len(),
                active == self@.catalog.active_segment,
                i <= n,
                out@ == ids_of(
                    self@.catalog.segments.take(i as int).filter(
                        worth(self@.catalog, part as nat, whole as nat),
                    ),
                ),
            decreases n - i,
        {
            let meta = self.catalog.segment(i);
            proof {
                assert(0 <= meta.pages * PAGE_BODY_LEN <= 0xffff_ffff * 16_352) by (nonlinear_arith)
                    requires
                        0 <= meta.pages <= 0xffff_ffff,
                        PAGE_BODY_LEN == 16_352,
                ;
            }
            let capacity: u128 = meta.pages as u128 * PAGE_BODY_LEN as u128;
            let ghost test = worth(self@.catalog, part as nat, whole as nat);
            proof {
                reveal(Seq::filter);
                let next = self@.catalog.segments.take(i + 1);
                assert(next.drop_last() =~= self@.catalog.segments.take(i as int));
                assert(next.last() == meta);
                assert(meta.obsolete_bytes * whole <= 0xffff_ffff_ffff_ffff * 0xffff_ffff) by (nonlinear_arith)
                    requires
                        meta.obsolete_bytes <= 0xffff_ffff_ffff_ffff,
                        whole <= 0xffff_ffff,
                ;
                assert(capacity * part <= 0xffff_ffff * 16_352 * 0xffff_ffff) by (nonlinear_arith)
                    requires
                        0 <= capacity <= 0xffff_ffff * 16_352,
                        part <= 0xffff_ffff,
                ;
            }
            let ghost before = out@;
            let ghost kept = self@.catalog.segments.take(i as int).filter(test);
            if meta.id != active && meta.pages > 0 && meta.obsolete_bytes as u128 * whole as u128 >= capacity
                * part as u128 {
                out.push(meta.id);
                proof {
                    assert(test(meta));
                    assert(out@ =~= ids_of(kept.push(meta)));
                }
            } else {
                proof {
                    assert(!test(meta));
                }
            }
            i = i + 1;
        }
        proof {
            assert(self@.catalog.segments.take(n as int) =~= self@.catalog.segments);
        }
        out
    }

    /// Every record of a segment with its location, by page and slot.
    pub fn scan_segment(&self, segment: u32) -> (r: Result<Vec<(RecordLocation, HeapRecord)>, StoreError>)
        requires
            self.wf(),
        ensures
            match r {
                Ok(found) => {
                    &&& has_segment(self@.catalog.segments, segment)
                    &&& found@.len() == locations(self@, segment).len()
                    &&& forall|i: int|
                        0 <= i < found@.len() ==> (#[trigger] found@[i]).0 == locations(self@, segment)[i]
                            && record_at(self@, found@[i].0) == Ok::<HeapView, StoreError>(found@[i].1@)
                },
                Err(e) => if has_segment(self@.catalog.segments, segment) {
                    exists|i: int| {
                        &&& 0 <= i < locations(self@, segment).len()
                        &&& record_at(self@, #[trigger] locations(self@, segment)[i]) == Err::<
                            HeapView,
                            StoreError,
                        >(e)
                        &&& forall|j: int|
                            0 <= j < i ==> record_at(self@, #[trigger] locations(self@, segment)[j]) is Ok
                    }
                } else {
                    e == (StoreError::UnknownSegment { segment })
                },
            },
    {
        proof {
            self.lemma_wf();
        }
        let at: usize = match self.catalog.position(segment) {
            Some(at) => at,
            None => { return Err(StoreError::UnknownSegment { segment }) },
        };
        proof {
            lemma_segment_index(self@.catalog, at as int);
        }
        let ghost pages = self@.files[at as int];
        let ghost all = locations(self@, segment);
        let file = &self.files[at];
        let count: u32 = file.page_count();
        let mut found: Vec<(RecordLocation, HeapRecord)> = Vec::new();
        let mut id: u32 = 0;
        while id < count
            invariant
                self.wf(),
                file.wf(),
                pages == file@,
                count == pages.len(),
                id <= count,
                all == locations(self@, segment),
                all == page_run(pages, segment, count as int),
                has_segment(self@.catalog.segments, segment),
                found@.len() == page_run(pages, segment, id as int).len(),
                forall|i: int|
                    0 <= i < found@.len() ==> (#[trigger] found@[i]).0 == page_run(pages, segment, id as int)[i]
                        && record_at(self@, found@[i].0) == Ok::<HeapView, StoreError>(found@[i].1@),
            decreases count - id,
        {
            let ghost done = page_run(pages, segment, id as int);
            let ghost here = page_locations(pages, segment, id as int);
            proof {
                assert(page_run(pages, segment, id + 1) =~= done + here);
                lemma_page_run(pages, segment, id + 1, count as int);
            }
            let page = match file.read(id) {
                Some(page) => page,
                None => {
                    proof {
                        assert(false);
                    }
                    return Err(StoreError::NoPage { page: id });
                },
            };
            match page.kind() {
                PageKind::Heap => {},
                _ => {
                    proof {
                        assert(page_run(pages, segment, id + 1) =~= done);
                    }
                    id = id + 1;
                    continue;
                },
            }
            let slots: usize = page.slot_count();
            proof {
                page.lemma_wf();
            }
            let mut slot: usize = 0;
            while slot < slots
                invariant
                    self.wf(),
                    id < count,
                    count == pages.len(),
                    page.wf(),
                    page@ == pages[id as int],
                    page@.kind == PageKind::Heap,
                    slots == page@.cells.len(),
                    slots <= 4088,
                    slot <= slots,
                    done == page_run(pages, segment, id as int),
                    here == page_locations(pages, segment, id as int),
                    all == locations(self@, segment),
                    has_segment(self@.catalog.segments, segment),
                    done.len() + here.len() <= all.len(),
                    forall|i: int| 0 <= i < done.len() + here.len() ==> #[trigger] all[i] == (done + here)[i],
                    found@.len() == done.len() + slot,
                    forall|i: int|
                        0 <= i < found@.len() ==> (#[trigger] found@[i]).0 == (done + here)[i] && record_at(
                            self@,
                            found@[i].0,
                        ) == Ok::<HeapView, StoreError>(found@[i].1@),
                decreases slots - slot,
            {
                match page.cell(slot) {
                    Some(cell) => {
                        proof {
                            lemma_radix_values();
                            if is_stub(cell@) {
                                lemma_le_value_bytes(cell@.subrange(4, 8));
                            }
                            crate::page::lemma_size_remove(page@.cells, slot as int);
                            page.lemma_wf();
                        }
                        let length: u32 = if is_overflow_stub(cell) {
                            get_le(cell, 4, 4) as u32
                        } else {
                            cell.len() as u32
                        };
                        let location = RecordLocation { segment, page: id, slot: slot as u16, length };
                        let ghost k = done.len() + slot;
                        proof {
                            assert(here[slot as int] == location);
                            assert((done + here)[k as int] == location);
                            assert(all[k as int] == location);
                        }
                        match self.read(location) {
                            Ok(record) => {
                                found.push((location, record));
                            },
                            Err(e) => {
                                proof {
                                    assert forall|j: int| 0 <= j < k implies record_at(
                                        self@,
                                        #[trigger] all[j],
                                    ) is Ok by {
                                        assert(found@[j].0 == (done + here)[j]);
                                    }
                                }
                                return Err(e);
                            },
                        }
                    },
                    None => {},
                }
                slot = slot + 1;
            }
            proof {
                assert(here.len() == slots);
            }
            id = id + 1;
        }
        Ok(found)
    }

    /// Retires a drained segment: the catalog forgets it, and the steps say
    /// what is to happen to the files, in this order.
    pub fn drop_segment(&mut self, segment: u32) -> (r: Vec<StoreStep>)
        requires
            old(self).wf(),
        ensures
            final(self).wf(),
            final(self)@ == dropped(old(self)@, segment),
            forall|l: RecordLocation, x: HeapView|
                l.segment != segment && #[trigger] holds(old(self)@, l, x) ==> holds(final(self)@, l, x),
            forall|l: RecordLocation|
                l.segment != segment ==> #[trigger] record_at(final(self)@, l) == record_at(old(self)@, l),
            forall|l: RecordLocation|
                l.segment == segment ==> #[trigger] record_at(final(self)@, l) == Err::<HeapView, StoreError>(
                    StoreError::UnknownSegment { segment },
                ),
            roomy(old(self)@) && old(self)@.catalog.active_segment != segment ==> roomy(final(self)@),
            r@ == seq![StoreStep::SaveCatalog, StoreStep::Remove(segment)],
    {
        proof {
            self.lemma_wf();
        }
        match self.catalog.position(segment) {
            Some(at) => {
                proof {
                    lemma_segment_index(self@.catalog, at as int);
                }
                self.catalog.remove_segment(at);
                let _gone = self.files.remove(at);
                proof {
                    assert(self@ =~= dropped(old(self)@, segment));
                    assert(self.wf()) by {
                        assert forall|i: int| 0 <= i < self.files@.len() implies (#[trigger] self.files@[i]).wf()
                            && self.files@[i]@.len() == self.catalog@.segments[i].pages by {
                            let k = if i < at {
                                i
                            } else {
                                i + 1
                            };
                            assert(self.files@[i] == old(self).files@[k]);
                        }
                    }
                }
            },
            None => {},
        }
        proof {
            lemma_dropped(old(self)@, segment);
            self.lemma_wf();
        }
        let mut steps: Vec<StoreStep> = Vec::new();
        steps.push(StoreStep::SaveCatalog);
        steps.push(StoreStep::Remove(segment));
        proof {
            assert(steps@ =~= seq![StoreStep::SaveCatalog, StoreStep::Remove(segment)]);
        }
        steps
    }

    /// What brings the files up to date: the pages of every segment, and
    /// only then the catalog that describes them.
    pub fn sync(&self) -> (r: Vec<StoreStep>)
        ensures
            r@ == sync_steps(self@),
    {
        let n: usize = self.catalog.segment_count();
        let mut steps: Vec<StoreStep> = Vec::new();
        let mut i: usize = 0;
        while i < n
            invariant
                n == self@.catalog.segments.len(),
                i <= n,
                steps@.len() == i,
                forall|j: int| 0 <= j < i ==> #[trigger] steps@[j] == StoreStep::Flush(self@.catalog.segments[j].id),
            decreases n - i,
        {
            steps.push(StoreStep::Flush(self.catalog.segment(i).id));
            i = i + 1;
        }
        steps.push(StoreStep::SaveCatalog);
        proof {
            assert(steps@ =~= sync_steps(self@));
        }
        steps
    }

    /// The pages of a segment, for the application to write.
    pub fn segment_pages(&self, segment: u32) -> (r: Option<&Pager>)
        requires
            self.wf(),
        ensures
            match r {
                Some(pager) => {
                    &&& has_segment(self@.catalog.segments, segment)
                    &&& pager@ == self@.files[segment_index(self@.catalog.segments, segment)]
                    &&& pager.wf()
                },
                None => !has_segment(self@.catalog.segments, segment),
            },
    {
        match self.catalog.position(segment) {
            Some(at) => {
                proof {
                    lemma_segment_index(self@.catalog, at as int);
                }
                Some(&self.files[at])
            },
            None => None,
        }
    }
}

/// Bytes of a segment that are counted as obsolete.
pub open spec fn dead_in(v: StoreView, segment: u32) -> nat {
    if has_segment(v.catalog.segments, segment) {
        v.catalog.segments[segment_index(v.catalog.segments, segment)].obsolete_bytes as nat
    } else {
        0
    }
}

/// The same after the record at `l` became obsolete.
pub open spec fn dead_after(v: StoreView, l: Option<RecordLocation>, segment: u32) -> nat {
    match l {
        Some(l) => if l.segment == segment && has_segment(v.catalog.segments, segment) {
            if dead_in(v, segment) + l.length > u64::MAX {
                u64::MAX as nat
            } else {
                dead_in(v, segment) + l.length as nat
            }
        } else {
            dead_in(v, segment)
        },
        None => dead_in(v, segment),
    }
}

/// Just the record at `l` became obsolete, or none; and no segment is gone.
#[verifier::opaque]
pub open spec fn wears(u: StoreView, v: StoreView, l: Option<RecordLocation>) -> bool {
    &&& forall|s: u32| #[trigger] dead_in(v, s) == dead_after(u, l, s)
    &&& forall|s: u32| #[trigger] has_segment(u.catalog.segments, s) ==> has_segment(v.catalog.segments, s)
}

pub proof fn lemma_wears_same(u: StoreView)
    ensures
        wears(u, u, None),
{
    reveal(wears);
}

/// One record becomes obsolete after others came.
pub proof fn lemma_wears_late(u: StoreView, v: StoreView, w: StoreView, l: RecordLocation)
    requires
        wears(u, v, None),
        wears(v, w, Some(l)),
        has_segment(u.catalog.segments, l.segment),
    ensures
        wears(u, w, Some(l)),
{
    reveal(wears);
    assert forall|s: u32| #[trigger] dead_in(w, s) == dead_after(u, Some(l), s) by {
        assert(dead_in(v, s) == dead_after(u, None, s));
    }
}

/// One record becomes obsolete before others come.
pub proof fn lemma_wears_early(u: StoreView, v: StoreView, w: StoreView, l: Option<RecordLocation>)
    requires
        wears(u, v, l),
        wears(v, w, None),
    ensures
        wears(u, w, l),
{
    reveal(wears);
    assert forall|s: u32| #[trigger] dead_in(w, s) == dead_after(u, l, s) by {
        assert(dead_in(v, s) == dead_after(u, l, s));
    }
}

proof fn lemma_grown_wears(u: StoreView, v: StoreView)
    requires
        store_grown(u, v),
        segments_ok(u.catalog),
        segments_ok(v.catalog),
    ensures
        wears(u, v, None),
{
    reveal(wears);
    assert forall|s: u32| #[trigger] has_segment(u.catalog.segments, s) implies has_segment(v.catalog.segments, s) by {
        let i = segment_index(u.catalog.segments, s);
        assert(u.catalog.segments[i].id == s);
        assert(v.catalog.segments[i].id == s);
    }
    assert forall|s: u32| #[trigger] dead_in(v, s) == dead_after(u, None, s) by {
        if has_segment(v.catalog.segments, s) {
            let i = segment_index(v.catalog.segments, s);
            assert(v.catalog.segments[i].id == s);
            if i < u.catalog.segments.len() {
                assert(u.catalog.segments[i].id == s);
                lemma_segment_index(u.catalog, i);
            } else if has_segment(u.catalog.segments, s) {
                let j = segment_index(u.catalog.segments, s);
                assert(u.catalog.segments[j].id == s);
                assert(v.catalog.segments[j].id == s);
            }
        }
    }
}

proof fn lemma_marked_wears(v: StoreView, l: RecordLocation)
    requires
        segments_ok(v.catalog),
        segments_ok(marked(v, l).catalog),
    ensures
        wears(v, marked(v, l), Some(l)),
{
    reveal(wears);
    let w = marked(v, l);
    assert forall|s: u32| #[trigger] has_segment(v.catalog.segments, s) implies has_segment(w.catalog.segments, s) by {
        let i = segment_index(v.catalog.segments, s);
        assert(v.catalog.segments[i].id == s);
        assert(w.catalog.segments[i].id == s);
    }
    assert forall|s: u32| #[trigger] dead_in(w, s) == dead_after(v, Some(l), s) by {
        if has_segment(w.catalog.segments, s) {
            let i = segment_index(w.catalog.segments, s);
            assert(w.catalog.segments[i].id == s);
            assert(v.catalog.segments[i].id == s);
            lemma_segment_index(v.catalog, i);
            if has_segment(v.catalog.segments, l.segment) {
                let a = segment_index(v.catalog.segments, l.segment);
                assert(v.catalog.segments[a].id == l.segment);
            }
        }
    }
}

/// The heap with the record at `l` counted as obsolete.
pub open spec fn marked(v: StoreView, l: RecordLocation) -> StoreView {
    if has_segment(v.catalog.segments, l.segment) {
        let at = segment_index(v.catalog.segments, l.segment);
        let meta = v.catalog.segments[at];
        let dead = meta.obsolete_bytes + l.length;
        StoreView {
            catalog: CatalogView {
                segments: v.catalog.segments.update(
                    at,
                    SegmentMeta {
                        obsolete_bytes: if dead > u64::MAX {
                            u64::MAX
                        } else {
                            dead as u64
                        },
                        ..meta
                    },
                ),
                ..v.catalog
            },
            ..v
        }
    } else {
        v
    }
}

/// The heap without a segment.
pub open spec fn dropped(v: StoreView, segment: u32) -> StoreView {
    if has_segment(v.catalog.segments, segment) {
        let at = segment_index(v.catalog.segments, segment);
        StoreView {
            catalog: CatalogView { segments: v.catalog.segments.remove(at), ..v.catalog },
            files: v.files.remove(at),
        }
    } else {
        v
    }
}

proof fn lemma_dropped(v: StoreView, segment: u32)
    requires
        segments_ok(v.catalog),
        v.files.len() == v.catalog.segments.len(),
    ensures
        segments_ok(dropped(v, segment).catalog),
        forall|l: RecordLocation, x: HeapView|
            l.segment != segment && #[trigger] holds(v, l, x) ==> holds(dropped(v, segment), l, x),
        forall|l: RecordLocation|
            l.segment != segment ==> #[trigger] record_at(dropped(v, segment), l) == record_at(v, l),
        !has_segment(dropped(v, segment).catalog.segments, segment),
        roomy(v) && v.catalog.active_segment != segment ==> roomy(dropped(v, segment)),
{
    let w = dropped(v, segment);
    if has_segment(v.catalog.segments, segment) {
        let at = segment_index(v.catalog.segments, segment);
        lemma_segment_index(v.catalog, at);
        assert forall|i: int, j: int| 0 <= i < j < w.catalog.segments.len() implies (
        #[trigger] w.catalog.segments[i]).id != (#[trigger] w.catalog.segments[j]).id by {
            assert(w.catalog.segments[i] == v.catalog.segments[if i < at {
                i
            } else {
                i + 1
            }]);
            assert(w.catalog.segments[j] == v.catalog.segments[if j < at {
                j
            } else {
                j + 1
            }]);
        }
        assert forall|i: int| 0 <= i < w.catalog.segments.len() implies (#[trigger] w.catalog.segments[i]).id
            < w.catalog.next_segment && w.catalog.segments[i].id != segment by {
            let k = if i < at {
                i
            } else {
                i + 1
            };
            assert(w.catalog.segments[i] == v.catalog.segments[k]);
            assert(v.catalog.segments[at].id == segment);
            assert(v.catalog.segments[k].id != v.catalog.segments[at].id);
        }
        assert forall|id: u32| id != segment && #[trigger] has_segment(v.catalog.segments, id) implies has_segment(
            w.catalog.segments,
            id,
        ) && w.files[segment_index(w.catalog.segments, id)] == v.files[segment_index(v.catalog.segments, id)] by {
            let k = segment_index(v.catalog.segments, id);
            let i = if k < at {
                k
            } else {
                k - 1
            };
            assert(w.catalog.segments[i] == v.catalog.segments[k]);
            lemma_segment_index(w.catalog, i);
        }
        assert forall|l: RecordLocation| l.segment != segment implies #[trigger] record_at(w, l) == record_at(v, l) by {
            if has_segment(w.catalog.segments, l.segment) {
                let i = segment_index(w.catalog.segments, l.segment);
                assert(w.catalog.segments[i] == v.catalog.segments[if i < at {
                    i
                } else {
                    i + 1
                }]);
                assert(has_segment(v.catalog.segments, l.segment));
            } else {
                assert(!has_segment(v.catalog.segments, l.segment));
            }
        }
        assert forall|l: RecordLocation, x: HeapView| l.segment != segment && #[trigger] holds(v, l, x) implies holds(
            w,
            l,
            x,
        ) by {
            assert(has_segment(v.catalog.segments, l.segment));
        }
    }
}

/// The steps that bring the files of a heap up to date.
pub open spec fn sync_steps(v: StoreView) -> Seq<StoreStep> {
    ids_of(v.catalog.segments).map_values(|id: u32| StoreStep::Flush(id)).push(StoreStep::SaveCatalog)
}

pub open spec fn ids_of(segments: Seq<SegmentMeta>) -> Seq<u32> {
    Seq::new(segments.len(), |i: int| segments[i].id)
}

/// The segment is worth draining.
pub open spec fn worth(c: CatalogView, part: nat, whole: nat) -> spec_fn(SegmentMeta) -> bool {
    |meta: SegmentMeta|
        meta.id != c.active_segment && meta.pages > 0 && meta.obsolete_bytes * whole >= meta.pages
            * PAGE_BODY_LEN * part
}

/// The ids of the segments worth draining.
pub open spec fn candidates(c: CatalogView, part: nat, whole: nat) -> Seq<u32> {
    ids_of(c.segments.filter(worth(c, part, whole)))
}

/// Bytes of the record that a cell leads to, by the cell alone.
pub open spec fn cell_length(cell: Seq<u8>) -> u32 {
    if is_stub(cell) {
        le_value(cell.subrange(4, 8)) as u32
    } else {
        cell.len() as u32
    }
}

/// The locations in one page of a segment.
pub open spec fn page_locations(pages: Seq<PageView>, segment: u32, id: int) -> Seq<RecordLocation> {
    if pages[id].kind == PageKind::Heap {
        Seq::new(
            pages[id].cells.len(),
            |s: int|
                RecordLocation {
                    segment,
                    page: id as u32,
                    slot: s as u16,
                    length: cell_length(pages[id].cells[s]),
                },
        )
    } else {
        Seq::empty()
    }
}

/// The locations in the first `n` pages of a segment.
pub open spec fn page_run(pages: Seq<PageView>, segment: u32, n: int) -> Seq<RecordLocation>
    decreases n,
{
    if n <= 0 {
        Seq::empty()
    } else {
        page_run(pages, segment, n - 1) + page_locations(pages, segment, n - 1)
    }
}

proof fn lemma_page_run(pages: Seq<PageView>, segment: u32, n: int, m: int)
    requires
        0 <= n <= m,
    ensures
        page_run(pages, segment, n).len() <= page_run(pages, segment, m).len(),
        forall|i: int|
            0 <= i < page_run(pages, segment, n).len() ==> #[trigger] page_run(pages, segment, m)[i] == page_run(
                pages,
                segment,
                n,
            )[i],
    decreases m - n,
{
    if n < m {
        lemma_page_run(pages, segment, n, m - 1);
    }
}

/// The locations in a segment.
pub open spec fn locations(v: StoreView, segment: u32) -> Seq<RecordLocation> {
    let pages = v.files[segment_index(v.catalog.segments, segment)];
    page_run(pages, segment, pages.len() as int)
}

proof fn lemma_chain_length(pages: Seq<PageView>, next: u32, got: Seq<u8>, total: nat, links: nat)
    requires
        chain_from(pages, next, got, total, links) is Ok,
    ensures
        chain_from(pages, next, got, total, links)->Ok_0.len() == total,
    decreases max_links(total) - links,
{
    if got.len() < total {
        lemma_chain_length(
            pages,
            pages[next as int].extra,
            got + pages[next as int].cells[0],
            total,
            links + 1,
        );
    }
}

/// The locations of a segment are in it.
pub proof fn lemma_locations_in(v: StoreView, segment: u32, j: int)
    requires
        0 <= j < locations(v, segment).len(),
    ensures
        locations(v, segment)[j].segment == segment,
{
    let pages = v.files[segment_index(v.catalog.segments, segment)];
    lemma_run_in(pages, segment, pages.len() as int, j);
}

proof fn lemma_run_in(pages: Seq<PageView>, segment: u32, n: int, j: int)
    requires
        0 <= j < page_run(pages, segment, n).len(),
    ensures
        page_run(pages, segment, n)[j].segment == segment,
    decreases n,
{
    if n > 0 {
        let before = page_run(pages, segment, n - 1);
        if j < before.len() {
            lemma_run_in(pages, segment, n - 1, j);
        } else {
            assert(page_run(pages, segment, n)[j] == page_locations(pages, segment, n - 1)[j - before.len()]);
        }
    }
}

/// A segment worth draining takes no records any more.
pub proof fn lemma_candidate(v: StoreView, part: nat, whole: nat, k: int)
    requires
        segments_ok(v.catalog),
        0 <= k < candidates(v.catalog, part, whole).len(),
    ensures
        inactive(v, candidates(v.catalog, part, whole)[k]),
        has_segment(v.catalog.segments, candidates(v.catalog, part, whole)[k]),
{
    let pick = worth(v.catalog, part, whole);
    let list = v.catalog.segments.filter(pick);
    crate::seqs::lemma_filter_member(v.catalog.segments, pick, k);
    let i = choose|i: int| 0 <= i < v.catalog.segments.len() && v.catalog.segments[i] == list[k];
    assert(v.catalog.segments[i].id < v.catalog.next_segment);
}

/// A scan of a segment meets every record that is in it, at the record's
/// location: a segment whose scanned records have all moved holds nothing
/// that is still needed.
pub proof fn law_scan_is_complete(v: StoreView, l: RecordLocation, r: HeapView)
    requires
        holds(v, l, r),
        v.files[segment_index(v.catalog.segments, l.segment)].len() <= u32::MAX,
    ensures
        locations(v, l.segment).contains(l),
{
    let pages = v.files[segment_index(v.catalog.segments, l.segment)];
    let here = page_locations(pages, l.segment, l.page as int);
    let cell = pages[l.page as int].cells[l.slot as int];
    if is_stub(cell) {
        let total = le_value(cell.subrange(4, 8));
        lemma_chain_length(pages, le_value(cell.subrange(8, 12)) as u32, Seq::empty(), total, 0);
    }
    assert(here[l.slot as int] == l);
    let n = l.page + 1;
    let before = page_run(pages, l.segment, n - 1);
    assert(page_run(pages, l.segment, n) =~= before + here);
    let k = before.len() + l.slot;
    assert((before + here)[k] == l);
    lemma_page_run(pages, l.segment, n, pages.len() as int);
    assert(locations(v, l.segment)[k] == l);
}

/// A heap whose active segment has taken every page id has no room.
proof fn lemma_full(store: RecordStore, at: int)
    requires
        store.wf(),
        0 <= at < store@.files.len(),
        store@.catalog.segments[at].id == store@.catalog.active_segment,
        store@.files[at].len() == u32::MAX,
    ensures
        !roomy(store@),
{
    store.lemma_wf();
    lemma_segment_index(store@.catalog, at);
}

/// The location leads to this frame, from a slot of a heap page.
spec fn located(v: StoreView, l: RecordLocation, frame: Seq<u8>) -> bool {
    &&& frame_for(v, l) == Ok::<Seq<u8>, StoreError>(frame)
    &&& l.length == frame.len()
    &&& v.files[segment_index(v.catalog.segments, l.segment)][l.page as int].kind == PageKind::Heap
}

/// The last page takes a cell of this length.
pub open spec fn takes_cell(pages: Seq<PageView>, len: nat) -> bool {
    &&& pages.len() > 0
    &&& pages.last().kind == PageKind::Heap
    &&& cells_size(pages.last().cells) + len + SLOT_LEN <= PAGE_BODY_LEN
}

/// A frame of this length goes to a fresh segment: the one at `at` has all
/// the pages it may have, and its last page does not take the frame.
pub open spec fn goes_on_fresh(v: StoreView, at: int, len: nat) -> bool {
    v.files[at].len() >= MAX_PAGES_PER_SEGMENT && (len > MAX_CELL_LEN || !takes_cell(v.files[at], len))
}

/// The segment that a record goes to.
pub open spec fn segment_for(v: StoreView, r: HeapView) -> u32 {
    let at = segment_index(v.catalog.segments, v.catalog.active_segment);
    if goes_on_fresh(v, at, frame_of(packed(heap_fields(r))).len()) {
        v.catalog.next_segment
    } else {
        v.catalog.active_segment
    }
}

/// The page that a frame of this length goes to, in the segment at `at` or in
/// a fresh one: the last page if that takes it, else the next. A frame too
/// long for a page goes to a chain of pages, and the page after that leads
/// to it.
pub open spec fn page_for(v: StoreView, at: int, len: nat) -> nat {
    let base: nat = if goes_on_fresh(v, at, len) {
        0
    } else {
        v.files[at].len()
    };
    if len > MAX_CELL_LEN {
        base + max_links(len)
    } else if takes_cell(v.files[at], len) {
        (v.files[at].len() - 1) as nat
    } else {
        base
    }
}

/// Of the files that there were, at most the one at `at` differs.
spec fn only_at(u: StoreView, v: StoreView, at: int) -> bool {
    forall|i: int| 0 <= i < u.files.len() && i != at ==> #[trigger] v.files[i] == u.files[i]
}

/// The record is short enough, and there is an active segment.
pub open spec fn appendable(v: StoreView, r: HeapView) -> bool {
    &&& packed(heap_fields(r)).len() <= MAX_RECORD_PAYLOAD_LEN
    &&& has_segment(v.catalog.segments, v.catalog.active_segment)
}

proof fn lemma_only_active(u: StoreView, v: StoreView, at: int)
    requires
        store_grown(u, v),
        only_at(u, v, at),
        u.files.len() == u.catalog.segments.len(),
        0 <= at < u.catalog.segments.len(),
        u.catalog.segments[at].id == u.catalog.active_segment,
        has_segment(v.catalog.segments, v.catalog.active_segment),
    ensures
        undisturbed(u, v),
{
    reveal(undisturbed);
    assert forall|i: int|
        0 <= i < u.catalog.segments.len() && inactive(u, (#[trigger] u.catalog.segments[i]).id) implies i
        < v.catalog.segments.len() && v.catalog.segments[i].id == u.catalog.segments[i].id && v.files[i] == u.files[i] by {
        assert(v.catalog.segments[i].id == u.catalog.segments[i].id);
        assert(v.files[i] == u.files[i]);
    }
}

/// The heap with a page more at the end of the segment at `at`.
spec fn extended(v: StoreView, at: int, page: PageView) -> StoreView {
    let meta = v.catalog.segments[at];
    StoreView {
        catalog: CatalogView {
            segments: v.catalog.segments.update(at, SegmentMeta { pages: (meta.pages + 1) as u32, ..meta }),
            ..v.catalog
        },
        files: v.files.update(at, v.files[at].push(page)),
    }
}

proof fn lemma_extended(v: StoreView, at: int, page: PageView)
    requires
        0 <= at < v.files.len(),
        v.files.len() == v.catalog.segments.len(),
    ensures
        store_grown(v, extended(v, at, page)),
{
    let w = extended(v, at, page);
    assert forall|i: int| 0 <= i < v.files.len() implies grown(v.files[i], #[trigger] w.files[i]) by {
        assert forall|k: int| 0 <= k < v.files[i].len() implies page_grown(
            v.files[i][k],
            #[trigger] w.files[i][k],
        ) by {
            assert(w.files[i][k] == v.files[i][k]);
        }
    }
}

proof fn lemma_rolled(v: StoreView, w: StoreView)
    requires
        w.files == v.files.push(Seq::empty()),
        v.files.len() == v.catalog.segments.len(),
        w.catalog.segments.len() == v.catalog.segments.len() + 1,
        w.catalog.segments.drop_last() == v.catalog.segments,
        w.catalog.segments.last().obsolete_bytes == 0,
        w.catalog.next_segment >= v.catalog.next_segment,
        w.catalog.active_segment >= v.catalog.next_segment,
    ensures
        store_grown(v, w),
{
    lemma_grown_refl(v);
    assert forall|i: int| 0 <= i < v.catalog.segments.len() implies (#[trigger] w.catalog.segments[i]).id
        == v.catalog.segments[i].id && w.catalog.segments[i].obsolete_bytes == v.catalog.segments[i].obsolete_bytes by {
        assert(w.catalog.segments.drop_last()[i] == v.catalog.segments[i]);
    }
    assert forall|i: int| 0 <= i < v.files.len() implies grown(v.files[i], #[trigger] w.files[i]) by {
        assert(grown(v.files[i], v.files[i]));
    }
}

proof fn lemma_page_replaced(v: StoreView, at: int, k: int, page: PageView)
    requires
        0 <= at < v.files.len(),
        0 <= k < v.files[at].len(),
        page_grown(v.files[at][k], page),
    ensures
        store_grown(v, StoreView { files: v.files.update(at, v.files[at].update(k, page)), ..v }),
{
    let w = StoreView { files: v.files.update(at, v.files[at].update(k, page)), ..v };
    assert forall|i: int| 0 <= i < v.files.len() implies grown(v.files[i], #[trigger] w.files[i]) by {
        assert forall|m: int| 0 <= m < v.files[i].len() implies page_grown(
            v.files[i][m],
            #[trigger] w.files[i][m],
        ) by {}
    }
}

/// At least six digits.
pub open spec fn padded(digits: Seq<u8>) -> Seq<u8> {
    if digits.len() < 6 {
        Seq::new((6 - digits.len()) as nat, |i: int| 0x30u8) + digits
    } else {
        digits
    }
}

/// File name of a segment.
pub open spec fn segment_name(id: u32) -> Seq<char> {
    "facetql.heap."@ + ascii_text(padded(digits_of(id as nat))) + ".seg"@
}

} // verus!
