//! The catalog: which heap segments there are and which one grows.
//!
//! It is small and written whole. Nothing in it grows with the number of
//! records.

use vstd::prelude::*;

use crate::binary::{decode_frame, encode_frame, frame_at, frame_of, FrameView, RecordError, MAX_RECORD_PAYLOAD_LEN};
use crate::bytes::le_bytes;
use crate::page::PAGE_SIZE;

verus! {

/// Generation of the physical format. Another one is refused.
pub const DATABASE_FORMAT_VERSION: u32 = 1;

/// One heap segment.
#[derive(Clone, Copy, PartialEq, Eq, Debug, Structural)]
pub struct SegmentMeta {
    pub id: u32,
    /// Pages that the segment holds.
    pub pages: u32,
    /// Bytes of records that nothing refers to any more; a hint for
    /// compaction only.
    pub obsolete_bytes: u64,
}

#[derive(Debug)]
pub struct CatalogData {
    pub format_version: u32,
    pub page_size: u32,
    /// Next segment id to hand out; ids are not used twice.
    pub next_segment: u32,
    /// Segment that records are appended to.
    pub active_segment: u32,
    pub segments: Vec<SegmentMeta>,
}

#[verifier::ext_equal]
pub struct CatalogView {
    pub format_version: u32,
    pub page_size: u32,
    pub next_segment: u32,
    pub active_segment: u32,
    pub segments: Seq<SegmentMeta>,
}

impl View for CatalogData {
    type V = CatalogView;

    open spec fn view(&self) -> CatalogView {
        CatalogView {
            format_version: self.format_version,
            page_size: self.page_size,
            next_segment: self.next_segment,
            active_segment: self.active_segment,
            segments: self.segments@,
        }
    }
}

/// Why a catalog could not be opened.
#[derive(Clone, Copy, PartialEq, Eq, Debug, Structural)]
pub enum CatalogError {
    /// The frame does not check out.
    Frame(RecordError),
    /// The frame's contents could not be opened.
    Sealed,
    /// The opened contents are no catalog.
    Contents,
    FormatVersion { found: u32 },
    PageSize { found: u32 },
}

/// The catalog of a database without records.
pub open spec fn fresh_catalog() -> CatalogView {
    CatalogView {
        format_version: DATABASE_FORMAT_VERSION,
        page_size: PAGE_SIZE,
        next_segment: 1,
        active_segment: 0,
        segments: seq![SegmentMeta { id: 0, pages: 0, obsolete_bytes: 0 }],
    }
}

/// What a segment is written as.
pub open spec fn segment_row(meta: SegmentMeta) -> (u32, u32, u64) {
    (meta.id, meta.pages, meta.obsolete_bytes)
}

pub open spec fn segment_rows(segments: Seq<SegmentMeta>) -> Seq<(u32, u32, u64)> {
    Seq::new(segments.len(), |i: int| segment_row(segments[i]))
}

/// What a catalog is written as.
pub open spec fn catalog_rows(c: CatalogView) -> (u32, u32, u32, u32, Seq<(u32, u32, u64)>) {
    (c.format_version, c.page_size, c.next_segment, c.active_segment, segment_rows(c.segments))
}

/// The catalog that is written so.
pub open spec fn catalog_from(t: (u32, u32, u32, u32, Seq<(u32, u32, u64)>)) -> CatalogView {
    CatalogView {
        format_version: t.0,
        page_size: t.1,
        next_segment: t.2,
        active_segment: t.3,
        segments: Seq::new(
            t.4.len(),
            |i: int| SegmentMeta { id: t.4[i].0, pages: t.4[i].1, obsolete_bytes: t.4[i].2 },
        ),
    }
}

/// The catalog that is written so is the one that was written.
pub proof fn law_catalog_round_trip(c: CatalogView)
    ensures
        catalog_from(catalog_rows(c)) == c,
{
    assert(catalog_from(catalog_rows(c)).segments =~= c.segments);
}

/// Segments one after the other: id and pages as four bytes each, obsolete
/// bytes as eight.
pub open spec fn rows_bytes(rows: Seq<(u32, u32, u64)>) -> Seq<u8>
    decreases rows.len(),
{
    if rows.len() == 0 {
        Seq::empty()
    } else {
        rows_bytes(rows.drop_last()) + le_bytes(rows.last().0 as nat, 4) + le_bytes(rows.last().1 as nat, 4) + le_bytes(
            rows.last().2 as nat,
            8,
        )
    }
}

/// A catalog's bytes: four numbers of four bytes, and the segments after
/// their count.
pub open spec fn catalog_bytes(t: (u32, u32, u32, u32, Seq<(u32, u32, u64)>)) -> Seq<u8> {
    le_bytes(t.0 as nat, 4) + le_bytes(t.1 as nat, 4) + le_bytes(t.2 as nat, 4) + le_bytes(t.3 as nat, 4) + le_bytes(
        t.4.len(),
        8,
    ) + rows_bytes(t.4)
}

/// What bytes are read as, if they are a catalog.
pub uninterp spec fn unpacked_catalog(bytes: Seq<u8>) -> Option<(u32, u32, u32, u32, Seq<(u32, u32, u64)>)>;

/// Calls `bincode::serialize` on a tuple of four numbers and a list of
/// triples of numbers: little-endian numbers of fixed width, and the list
/// after its length as eight bytes. That cannot fail for such a tuple, and
/// `bincode::deserialize` reads it back.
#[verifier::external_body]
fn serialize(format_version: u32, page_size: u32, next: u32, active: u32, rows: &Vec<(u32, u32, u64)>) -> (r: Vec<u8>)
    ensures
        r@ == catalog_bytes((format_version, page_size, next, active, rows@)),
        unpacked_catalog(r@) == Some((format_version, page_size, next, active, rows@)),
{
    bincode::serialize(&(format_version, page_size, next, active, rows)).expect("numbers serialize")
}

/// Calls `bincode::deserialize` for a tuple of four numbers and a list of
/// triples of numbers.
#[verifier::external_body]
fn deserialize(bytes: &[u8]) -> (r: Option<(u32, u32, u32, u32, Vec<(u32, u32, u64)>)>)
    ensures
        match r {
            Some(t) => unpacked_catalog(bytes@) == Some((t.0, t.1, t.2, t.3, t.4@)),
            None => unpacked_catalog(bytes@) is None,
        },
{
    bincode::deserialize::<(u32, u32, u32, u32, Vec<(u32, u32, u64)>)>(bytes).ok()
}

/// Writes a catalog as a frame around its bytes, sealed by `seal`.
fn encode<F: Fn(&Vec<u8>) -> Vec<u8>>(data: &CatalogData, seal: &F) -> (r: Result<Vec<u8>, RecordError>)
    requires
        forall|p: &Vec<u8>| seal.requires((p,)),
    ensures
        exists|plain: Vec<u8>, sealed: Vec<u8>| {
            &&& plain@ == catalog_bytes(catalog_rows(data@))
            &&& unpacked_catalog(plain@) == Some(catalog_rows(data@))
            &&& #[trigger] seal.ensures((&plain,), sealed)
            &&& match r {
                Ok(bytes) => sealed@.len() <= MAX_RECORD_PAYLOAD_LEN && bytes@ == frame_of(sealed@),
                Err(e) => sealed@.len() > MAX_RECORD_PAYLOAD_LEN && e == (RecordError::TooLong {
                    len: sealed@.len() as usize,
                }),
            }
        },
{
    let mut rows: Vec<(u32, u32, u64)> = Vec::new();
    let mut i: usize = 0;
    while i < data.segments.len()
        invariant
            i <= data.segments@.len(),
            rows@ =~= segment_rows(data.segments@).take(i as int),
        decreases data.segments.len() - i,
    {
        let meta = data.segments[i];
        rows.push((meta.id, meta.pages, meta.obsolete_bytes));
        i = i + 1;
    }
    proof {
        assert(rows@ =~= segment_rows(data.segments@));
    }
    let plain = serialize(data.format_version, data.page_size, data.next_segment, data.active_segment, &rows);
    let sealed = seal(&plain);
    proof {
        assert(seal.ensures((&plain,), sealed));
    }
    encode_frame(&sealed)
}

/// What a file holds, read with `open`.
pub open spec fn catalog_in<F: Fn(&Vec<u8>) -> Option<Vec<u8>>>(
    file: Seq<u8>,
    open: &F,
    found: Result<CatalogView, CatalogError>,
) -> bool {
    match frame_at(file, 0) {
        FrameView::Record { payload } => exists|sealed: Vec<u8>, plain: Option<Vec<u8>>| {
            &&& sealed@ == payload
            &&& #[trigger] open.ensures((&sealed,), plain)
            &&& found == (match plain {
                None => Err::<CatalogView, CatalogError>(CatalogError::Sealed),
                Some(p) => match unpacked_catalog(p@) {
                    None => Err(CatalogError::Contents),
                    Some(t) => Ok(catalog_from(t)),
                },
            })
        },
        FrameView::Truncated(shortage) => found == Err::<CatalogView, CatalogError>(
            CatalogError::Frame(RecordError::Truncated { offset: 0, shortage }),
        ),
        FrameView::Corrupt(damage) => found == Err::<CatalogView, CatalogError>(
            CatalogError::Frame(RecordError::Corrupt { offset: 0, damage }),
        ),
        FrameView::UnsupportedVersion { found: version } => found == Err::<CatalogView, CatalogError>(
            CatalogError::Frame(RecordError::UnsupportedVersion { offset: 0, found: version }),
        ),
    }
}

pub open spec fn data_view(r: Result<CatalogData, CatalogError>) -> Result<CatalogView, CatalogError> {
    match r {
        Ok(data) => Ok(data@),
        Err(e) => Err(e),
    }
}

/// Reads a catalog from a frame whose contents `open` opens.
fn decode<F: Fn(&Vec<u8>) -> Option<Vec<u8>>>(bytes: &[u8], open: &F) -> (r: Result<CatalogData, CatalogError>)
    requires
        forall|p: &Vec<u8>| open.requires((p,)),
    ensures
        catalog_in(bytes@, open, data_view(r)),
{
    let sealed = match decode_frame(bytes) {
        Ok(payload) => payload,
        Err(e) => { return Err(CatalogError::Frame(e)) },
    };
    let plain = open(&sealed);
    proof {
        assert(open.ensures((&sealed,), plain));
    }
    let p = match &plain {
        Some(p) => p,
        None => { return Err(CatalogError::Sealed) },
    };
    let (format_version, page_size, next_segment, active_segment, rows) = match deserialize(p) {
        Some(t) => t,
        None => { return Err(CatalogError::Contents) },
    };
    let segments = segments_of(&rows);
    let data = CatalogData { format_version, page_size, next_segment, active_segment, segments };
    proof {
        assert(data@ =~= catalog_from((format_version, page_size, next_segment, active_segment, rows@)));
    }
    Ok(data)
}

fn segments_of(rows: &Vec<(u32, u32, u64)>) -> (r: Vec<SegmentMeta>)
    ensures
        r@.len() == rows@.len(),
        forall|i: int|
            0 <= i < r@.len() ==> #[trigger] r@[i] == (SegmentMeta {
                id: rows@[i].0,
                pages: rows@[i].1,
                obsolete_bytes: rows@[i].2,
            }),
{
    let mut segments: Vec<SegmentMeta> = Vec::new();
    let mut k: usize = 0;
    while k < rows.len()
        invariant
            k <= rows@.len(),
            segments@.len() == k,
            forall|i: int|
                0 <= i < k ==> #[trigger] segments@[i] == (SegmentMeta {
                    id: rows@[i].0,
                    pages: rows@[i].1,
                    obsolete_bytes: rows@[i].2,
                }),
        decreases rows.len() - k,
    {
        let (id, pages, obsolete_bytes) = rows[k];
        segments.push(SegmentMeta { id, pages, obsolete_bytes });
        k = k + 1;
    }
    segments
}

/// The catalog of an open database.
#[derive(Debug)]
pub struct Catalog {
    data: CatalogData,
}

impl View for Catalog {
    type V = CatalogView;

    closed spec fn view(&self) -> CatalogView {
        self.data@
    }
}

impl Catalog {
    /// The catalog of a database that holds nothing: one segment without
    /// pages.
    pub fn fresh() -> (r: Catalog)
        ensures
            r@ == fresh_catalog(),
    {
        let mut segments: Vec<SegmentMeta> = Vec::new();
        segments.push(SegmentMeta { id: 0, pages: 0, obsolete_bytes: 0 });
        let data = CatalogData {
            format_version: DATABASE_FORMAT_VERSION,
            page_size: PAGE_SIZE,
            next_segment: 1,
            active_segment: 0,
            segments,
        };
        proof {
            assert(data@.segments =~= fresh_catalog().segments);
        }
        Catalog { data }
    }

    /// Opens the catalog in a file, its contents opened by `open`; a
    /// database without the file gets a fresh one.
    pub fn open<F: Fn(&Vec<u8>) -> Option<Vec<u8>>>(file: Option<&[u8]>, open: &F) -> (r: Result<
        Catalog,
        CatalogError,
    >)
        requires
            forall|p: &Vec<u8>| open.requires((p,)),
        ensures
            match file {
                None => r is Ok && r->Ok_0@ == fresh_catalog(),
                Some(bytes) => exists|found: Result<CatalogView, CatalogError>| {
                    &&& #[trigger] catalog_in(bytes@, open, found)
                    &&& match found {
                        Err(e) => r == Err::<Catalog, CatalogError>(e),
                        Ok(c) => if c.format_version != DATABASE_FORMAT_VERSION {
                            r == Err::<Catalog, CatalogError>(
                                CatalogError::FormatVersion { found: c.format_version },
                            )
                        } else if c.page_size != PAGE_SIZE {
                            r == Err::<Catalog, CatalogError>(CatalogError::PageSize { found: c.page_size })
                        } else {
                            r is Ok && r->Ok_0@ == c
                        },
                    }
                },
            },
    {
        match file {
            Some(bytes) => {
                let read = decode(bytes, open);
                proof {
                    assert(catalog_in(bytes@, open, data_view(read)));
                }
                match read {
                    Err(e) => Err(e),
                    Ok(data) => if data.format_version != DATABASE_FORMAT_VERSION {
                        Err(CatalogError::FormatVersion { found: data.format_version })
                    } else if data.page_size != PAGE_SIZE {
                        Err(CatalogError::PageSize { found: data.page_size })
                    } else {
                        Ok(Catalog { data })
                    },
                }
            },
            None => {
                Ok(Catalog::fresh())
            },
        }
    }

    /// Hands the catalog to `read` and gives back what that returns.
    pub fn with<R, F: FnOnce(&CatalogData) -> R>(&self, read: F) -> (r: R)
        requires
            forall|data: &CatalogData| data@ == self@ ==> #[trigger] read.requires((data,)),
        ensures
            exists|data: &CatalogData| data@ == self@ && #[trigger] read.ensures((data,), r),
    {
        let r = read(&self.data);
        proof {
            let data = &self.data;
            assert(read.ensures((data,), r));
        }
        r
    }

    /// Lets `change` make another catalog of this one and gives back what
    /// else it returns. Nothing is written by this.
    pub fn update<R, F: FnOnce(CatalogData) -> (CatalogData, R)>(self, change: F) -> (r: (Catalog, R))
        requires
            forall|data: CatalogData| data@ == self@ ==> #[trigger] change.requires((data,)),
        ensures
            exists|before: CatalogData, after: CatalogData| {
                &&& before@ == self@
                &&& after@ == r.0@
                &&& #[trigger] change.ensures((before,), (after, r.1))
            },
    {
        let ghost before = self.data;
        let (data, extra) = change(self.data);
        let r = (Catalog { data }, extra);
        proof {
            assert(data@ == r.0@);
            assert(change.ensures((before,), (data, r.1)));
        }
        r
    }

    /// The bytes to put in the catalog's file, sealed by `seal`.
    pub fn save<F: Fn(&Vec<u8>) -> Vec<u8>>(&self, seal: &F) -> (r: Result<Vec<u8>, RecordError>)
        requires
            forall|p: &Vec<u8>| seal.requires((p,)),
        ensures
            exists|plain: Vec<u8>, sealed: Vec<u8>| {
                &&& plain@ == catalog_bytes(catalog_rows(self@))
                &&& unpacked_catalog(plain@) == Some(catalog_rows(self@))
                &&& #[trigger] seal.ensures((&plain,), sealed)
                &&& match r {
                    Ok(bytes) => sealed@.len() <= MAX_RECORD_PAYLOAD_LEN && bytes@ == frame_of(sealed@),
                    Err(e) => sealed@.len() > MAX_RECORD_PAYLOAD_LEN && e == (RecordError::TooLong {
                        len: sealed@.len() as usize,
                    }),
                }
            },
    {
        encode(&self.data, seal)
    }

    // -- what the heap asks of its catalog ----------------------------

    pub fn active_segment(&self) -> (r: u32)
        ensures
            r == self@.active_segment,
    {
        self.data.active_segment
    }

    pub fn next_segment(&self) -> (r: u32)
        ensures
            r == self@.next_segment,
    {
        self.data.next_segment
    }

    pub fn page_size(&self) -> (r: u32)
        ensures
            r == self@.page_size,
    {
        self.data.page_size
    }

    pub fn segment_count(&self) -> (r: usize)
        ensures
            r == self@.segments.len(),
    {
        self.data.segments.len()
    }

    pub fn segment(&self, i: usize) -> (r: SegmentMeta)
        requires
            i < self@.segments.len(),
        ensures
            r == self@.segments[i as int],
    {
        self.data.segments[i]
    }

    /// Position of the segment with this id, if there is one.
    pub fn position(&self, id: u32) -> (r: Option<usize>)
        ensures
            match r {
                Some(i) => {
                    &&& i < self@.segments.len()
                    &&& self@.segments[i as int].id == id
                    &&& forall|j: int| 0 <= j < i ==> (#[trigger] self@.segments[j]).id != id
                },
                None => forall|j: int| 0 <= j < self@.segments.len() ==> (#[trigger] self@.segments[j]).id != id,
            },
    {
        let mut i: usize = 0;
        while i < self.data.segments.len()
            invariant
                i <= self.data.segments@.len(),
                forall|j: int| 0 <= j < i ==> (#[trigger] self.data.segments@[j]).id != id,
            decreases self.data.segments.len() - i,
        {
            if self.data.segments[i].id == id {
                return Some(i);
            }
            i = i + 1;
        }
        None
    }

    /// Replaces what is known of the segment at position `i`.
    pub fn set_segment(&mut self, i: usize, meta: SegmentMeta)
        requires
            i < old(self)@.segments.len(),
        ensures
            final(self)@ == (CatalogView {
                segments: old(self)@.segments.update(i as int, meta),
                ..old(self)@
            }),
    {
        self.data.segments[i] = meta;
    }

    /// Makes a fresh, empty segment active and says its id; none if every
    /// id is taken.
    pub fn roll(&mut self) -> (r: Option<u32>)
        ensures
            match r {
                Some(id) => {
                    &&& id == old(self)@.next_segment
                    &&& id < u32::MAX
                    &&& final(self)@ == (CatalogView {
                        next_segment: (id + 1) as u32,
                        active_segment: id,
                        segments: old(self)@.segments.push(SegmentMeta { id, pages: 0, obsolete_bytes: 0 }),
                        ..old(self)@
                    })
                },
                None => old(self)@.next_segment == u32::MAX && final(self)@ == old(self)@,
            },
    {
        let id: u32 = self.data.next_segment;
        if id == u32::MAX {
            return None;
        }
        self.data.next_segment = id + 1;
        self.data.active_segment = id;
        self.data.segments.push(SegmentMeta { id, pages: 0, obsolete_bytes: 0 });
        Some(id)
    }

    /// Takes the segment at position `i` out.
    pub fn remove_segment(&mut self, i: usize)
        requires
            i < old(self)@.segments.len(),
        ensures
            final(self)@ == (CatalogView {
                segments: old(self)@.segments.remove(i as int),
                ..old(self)@
            }),
    {
        let _gone = self.data.segments.remove(i);
    }
}

} // verus!
