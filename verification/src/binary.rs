//! Record frames and the logs made of them.
//!
//! ```text
//!   "FQR1" | version (1) | payload length (4) | CRC-32 (4) | payload
//! ```
//!
//! A log is frames one after the other. Its records are replayed in file
//! order, and the last one for a key wins. A frame that runs off the end of
//! a file is a write that never finished; a frame that is there in full and
//! does not check out is damage.

use vstd::prelude::*;

use crate::bytes::{
    copy_range, get_le, le_bytes, le_value, lemma_le_round_trip, lemma_le_value_bytes, lemma_radix_values, put_bytes,
    put_le,
};
use crate::record::{node_from, unpacked, Fields, Parts};
use crate::text::own;
use crate::types::{Edge, EdgeId, EdgeIdView, EdgeView, Node, NodeView, UserRecord, UserView};

verus! {

/// Frame format version.
pub const RECORD_FORMAT_VERSION: u8 = 2;

/// Bytes in front of every payload.
pub const FRAME_HEADER_LEN: usize = 13;

/// Longest payload a frame takes.
pub const MAX_RECORD_PAYLOAD_LEN: usize = 67_108_864;

/// Longest frame.
pub const MAX_RECORD_FRAME_LEN: usize = 67_108_877;

/// The bytes that frames begin with: `FQR1`.
pub open spec fn record_magic() -> Seq<u8> {
    seq![0x46u8, 0x51u8, 0x52u8, 0x31u8]
}

// ---------------------------------------------------------------------
// CRC-32
// ---------------------------------------------------------------------

/// One bit of the CRC-32 division.
pub open spec fn crc_bit(crc: u32) -> u32 {
    if crc & 1 == 1 {
        (crc >> 1) ^ 0xEDB8_8320
    } else {
        crc >> 1
    }
}

pub open spec fn crc_bits(crc: u32, n: nat) -> u32
    decreases n,
{
    if n == 0 {
        crc
    } else {
        crc_bits(crc_bit(crc), (n - 1) as nat)
    }
}

pub open spec fn crc_fold(crc: u32, data: Seq<u8>) -> u32
    decreases data.len(),
{
    if data.len() == 0 {
        crc
    } else {
        crc_bits(crc_fold(crc, data.drop_last()) ^ (data.last() as u32), 8)
    }
}

/// The CRC-32 of `data`, reflected, with the polynomial `0xEDB88320`.
pub open spec fn crc_of(data: Seq<u8>) -> u32 {
    !crc_fold(0xFFFF_FFFF, data)
}

pub fn crc32(data: &[u8]) -> (r: u32)
    ensures
        r == crc_of(data@),
{
    let mut crc: u32 = 0xFFFF_FFFF;
    let mut i: usize = 0;
    while i < data.len()
        invariant
            i <= data.len(),
            crc == crc_fold(0xFFFF_FFFF, data@.take(i as int)),
        decreases data.len() - i,
    {
        proof {
            let next = data@.take(i + 1);
            assert(next.drop_last() =~= data@.take(i as int));
            assert(next.last() == data@[i as int]);
        }
        crc = crc ^ (data[i] as u32);
        let ghost target = crc_bits(crc, 8);
        let mut bit: u32 = 0;
        while bit < 8
            invariant
                bit <= 8,
                crc_bits(crc, (8 - bit) as nat) == target,
            decreases 8 - bit,
        {
            if crc & 1 == 1 {
                crc = (crc >> 1) ^ 0xEDB8_8320;
            } else {
                crc = crc >> 1;
            }
            bit = bit + 1;
        }
        i = i + 1;
    }
    proof {
        assert(data@.take(data@.len() as int) =~= data@);
    }
    !crc
}

// ---------------------------------------------------------------------
// Frames
// ---------------------------------------------------------------------

/// The frame around `payload`.
pub open spec fn frame_of(payload: Seq<u8>) -> Seq<u8> {
    record_magic() + seq![RECORD_FORMAT_VERSION] + le_bytes(payload.len(), 4) + le_bytes(
        crc_of(payload) as nat,
        4,
    ) + payload
}

/// How a frame runs off the end of a file.
#[derive(Clone, Copy, PartialEq, Eq, Debug, Structural)]
pub enum Shortage {
    /// Only this many bytes of the header are there.
    Header { present: u64 },
    /// The header declares a payload of which only a part is there.
    Payload { declared: u64, present: u64 },
}

/// How a frame that is there does not check out.
#[derive(Clone, Copy, PartialEq, Eq, Debug, Structural)]
pub enum Damage {
    Magic,
    /// The declared length is over [`MAX_RECORD_PAYLOAD_LEN`].
    Length { declared: u64 },
    Checksum { stored: u32, computed: u32 },
}

/// What a read of one frame found.
pub enum FrameOutcome {
    Record { payload: Vec<u8>, consumed: u64 },
    Truncated(Shortage),
    Corrupt(Damage),
    UnsupportedVersion { found: u8 },
}

/// What is at a place in a file.
pub enum FrameView {
    Record { payload: Seq<u8> },
    Truncated(Shortage),
    Corrupt(Damage),
    UnsupportedVersion { found: u8 },
}

/// What is at `at` in a file. The checks come in this order: a whole header,
/// the magic, the version, the declared length, a whole payload, the
/// checksum.
pub open spec fn frame_at(file: Seq<u8>, at: int) -> FrameView {
    let left = file.skip(at);
    if left.len() < FRAME_HEADER_LEN {
        FrameView::Truncated(Shortage::Header { present: left.len() as u64 })
    } else if left.take(4) != record_magic() {
        FrameView::Corrupt(Damage::Magic)
    } else if left[4] != RECORD_FORMAT_VERSION {
        FrameView::UnsupportedVersion { found: left[4] }
    } else {
        let declared = le_value(left.subrange(5, 9));
        let stored = le_value(left.subrange(9, 13)) as u32;
        let present = left.len() - FRAME_HEADER_LEN;
        if declared > MAX_RECORD_PAYLOAD_LEN {
            FrameView::Corrupt(Damage::Length { declared: declared as u64 })
        } else if declared > present {
            FrameView::Truncated(
                Shortage::Payload { declared: declared as u64, present: present as u64 },
            )
        } else {
            let payload = left.subrange(13, (13 + declared) as int);
            if crc_of(payload) != stored {
                FrameView::Corrupt(Damage::Checksum { stored, computed: crc_of(payload) })
            } else {
                FrameView::Record { payload }
            }
        }
    }
}

impl FrameOutcome {
    pub open spec fn matches_view(self, v: FrameView) -> bool {
        match self {
            FrameOutcome::Record { payload, consumed } => {
                &&& v == FrameView::Record { payload: payload@ }
                &&& consumed == FRAME_HEADER_LEN + payload@.len()
                &&& payload@.len() <= MAX_RECORD_PAYLOAD_LEN
            },
            FrameOutcome::Truncated(s) => v == FrameView::Truncated(s),
            FrameOutcome::Corrupt(d) => v == FrameView::Corrupt(d),
            FrameOutcome::UnsupportedVersion { found } => v == FrameView::UnsupportedVersion { found },
        }
    }
}

/// Why a log could not be written to or read.
#[derive(Clone, Copy, PartialEq, Eq, Debug, Structural)]
pub enum RecordError {
    /// A payload of this many bytes is more than a frame takes.
    TooLong { len: usize },
    Truncated { offset: u64, shortage: Shortage },
    Corrupt { offset: u64, damage: Damage },
    UnsupportedVersion { offset: u64, found: u8 },
    /// The frame is whole, but what it holds cannot be read as a record.
    Unreadable { offset: u64 },
}

/// Puts a frame around `payload`.
pub fn encode_frame(payload: &[u8]) -> (r: Result<Vec<u8>, RecordError>)
    ensures
        match r {
            Ok(frame) => payload@.len() <= MAX_RECORD_PAYLOAD_LEN && frame@ == frame_of(payload@),
            Err(e) => payload@.len() > MAX_RECORD_PAYLOAD_LEN && e == (RecordError::TooLong {
                len: payload@.len() as usize,
            }),
        },
{
    if payload.len() > MAX_RECORD_PAYLOAD_LEN {
        return Err(RecordError::TooLong { len: payload.len() });
    }
    let mut frame: Vec<u8> = vec![0x46u8, 0x51u8, 0x52u8, 0x31u8, RECORD_FORMAT_VERSION];
    put_le(&mut frame, payload.len() as u64, 4);
    put_le(&mut frame, crc32(payload) as u64, 4);
    put_bytes(&mut frame, payload);
    proof {
        assert(frame@ =~= frame_of(payload@));
    }
    Ok(frame)
}

/// Reads what is at `offset` in a file.
pub fn read_one_frame(file: &[u8], offset: usize) -> (r: FrameOutcome)
    requires
        offset <= file@.len(),
    ensures
        r.matches_view(frame_at(file@, offset as int)),
{
    let ghost left = file@.skip(offset as int);
    assert(file@.len() == file.len());
    let remaining: usize = file.len() - offset;
    if remaining < FRAME_HEADER_LEN {
        return FrameOutcome::Truncated(Shortage::Header { present: remaining as u64 });
    }
    proof {
        assert(left.take(4)[0] == file@[offset as int]);
        assert(left.take(4)[1] == file@[offset + 1]);
        assert(left.take(4)[2] == file@[offset + 2]);
        assert(left.take(4)[3] == file@[offset + 3]);
    }
    if file[offset] != 0x46 || file[offset + 1] != 0x51 || file[offset + 2] != 0x52 || file[offset + 3]
        != 0x31 {
        return FrameOutcome::Corrupt(Damage::Magic);
    }
    assert(left.take(4) =~= record_magic());
    let version: u8 = file[offset + 4];
    if version != RECORD_FORMAT_VERSION {
        return FrameOutcome::UnsupportedVersion { found: version };
    }
    proof {
        assert(left.subrange(5, 9) =~= file@.subrange(offset + 5, offset + 9));
        assert(left.subrange(9, 13) =~= file@.subrange(offset + 9, offset + 13));
        lemma_radix_values();
        lemma_le_value_bytes(left.subrange(5, 9));
        lemma_le_value_bytes(left.subrange(9, 13));
    }
    let declared: u64 = get_le(file, offset + 5, 4);
    let stored: u32 = get_le(file, offset + 9, 4) as u32;
    if declared > MAX_RECORD_PAYLOAD_LEN as u64 {
        return FrameOutcome::Corrupt(Damage::Length { declared });
    }
    let present: u64 = (remaining - FRAME_HEADER_LEN) as u64;
    if declared > present {
        return FrameOutcome::Truncated(Shortage::Payload { declared, present });
    }
    let start: usize = offset + FRAME_HEADER_LEN;
    let payload: Vec<u8> = copy_range(file, start, start + declared as usize);
    proof {
        assert(payload@ =~= left.subrange(13, 13 + declared));
    }
    let computed: u32 = crc32(&payload);
    if computed != stored {
        return FrameOutcome::Corrupt(Damage::Checksum { stored, computed });
    }
    FrameOutcome::Record { payload, consumed: FRAME_HEADER_LEN as u64 + declared }
}

/// A frame reads back as its payload, wherever in a file it stands.
pub proof fn law_frame_round_trip(before: Seq<u8>, payload: Seq<u8>, after: Seq<u8>)
    requires
        payload.len() <= MAX_RECORD_PAYLOAD_LEN,
    ensures
        frame_of(payload).len() == FRAME_HEADER_LEN + payload.len(),
        frame_at(before + frame_of(payload) + after, before.len() as int) == (FrameView::Record {
            payload,
        }),
{
    let frame = frame_of(payload);
    let file = before + frame + after;
    lemma_radix_values();
    lemma_le_round_trip(payload.len(), 4);
    lemma_le_round_trip(crc_of(payload) as nat, 4);
    let left = file.skip(before.len() as int);
    assert(left =~= frame + after);
    assert(left.take(4) =~= record_magic());
    assert(left.subrange(5, 9) =~= le_bytes(payload.len(), 4));
    assert(left.subrange(9, 13) =~= le_bytes(crc_of(payload) as nat, 4));
    assert(left.subrange(13, 13 + payload.len() as int) =~= payload);
}

/// A frame cut short anywhere is seen to be cut short, and is never taken
/// for damage or for a record.
pub proof fn law_torn_frame_is_truncated(before: Seq<u8>, payload: Seq<u8>, kept: int)
    requires
        payload.len() <= MAX_RECORD_PAYLOAD_LEN,
        0 <= kept < frame_of(payload).len(),
    ensures
        frame_at(before + frame_of(payload).take(kept), before.len() as int) is Truncated,
{
    let frame = frame_of(payload);
    let left = (before + frame.take(kept)).skip(before.len() as int);
    lemma_radix_values();
    lemma_le_round_trip(payload.len(), 4);
    lemma_le_round_trip(crc_of(payload) as nat, 4);
    assert(left =~= frame.take(kept));
    if kept >= FRAME_HEADER_LEN {
        assert(left.take(4) =~= record_magic());
        assert(left.subrange(5, 9) =~= le_bytes(payload.len(), 4));
    }
}

/// Reads a frame from bytes that hold nothing else.
pub fn decode_frame(bytes: &[u8]) -> (r: Result<Vec<u8>, RecordError>)
    ensures
        match r {
            Ok(payload) => frame_at(bytes@, 0) == (FrameView::Record { payload: payload@ }),
            Err(e) => match frame_at(bytes@, 0) {
                FrameView::Record { payload } => false,
                FrameView::Truncated(shortage) => e == (RecordError::Truncated { offset: 0, shortage }),
                FrameView::Corrupt(damage) => e == (RecordError::Corrupt { offset: 0, damage }),
                FrameView::UnsupportedVersion { found } => e == (RecordError::UnsupportedVersion {
                    offset: 0,
                    found,
                }),
            },
        },
{
    match read_one_frame(bytes, 0) {
        FrameOutcome::Record { payload, consumed: _ } => Ok(payload),
        FrameOutcome::Truncated(shortage) => Err(RecordError::Truncated { offset: 0, shortage }),
        FrameOutcome::Corrupt(damage) => Err(RecordError::Corrupt { offset: 0, damage }),
        FrameOutcome::UnsupportedVersion { found } => Err(
            RecordError::UnsupportedVersion { offset: 0, found },
        ),
    }
}

// ---------------------------------------------------------------------
// Logs
// ---------------------------------------------------------------------

/// How a log ends after its last whole record.
#[derive(Clone, Copy, PartialEq, Eq, Debug, Structural)]
pub enum TailState {
    Clean,
    Truncated { offset: u64, detail: Shortage },
}

/// The whole frames of a log from `at` on, as offset and payload.
pub open spec fn frames_from(file: Seq<u8>, at: int) -> Seq<(u64, Seq<u8>)>
    decreases file.len() - at,
{
    if at < 0 || at >= file.len() {
        Seq::empty()
    } else {
        match frame_at(file, at) {
            FrameView::Record { payload } => seq![(at as u64, payload)] + frames_from(
                file,
                at + FRAME_HEADER_LEN + payload.len(),
            ),
            _ => Seq::empty(),
        }
    }
}

/// Where the whole frames of a log from `at` on end.
pub open spec fn frames_end(file: Seq<u8>, at: int) -> int
    decreases file.len() - at,
{
    if at < 0 || at >= file.len() {
        at
    } else {
        match frame_at(file, at) {
            FrameView::Record { payload } => frames_end(file, at + FRAME_HEADER_LEN + payload.len()),
            _ => at,
        }
    }
}

/// Adds a frame around `payload` to a log; says where it begins.
pub fn append_record(log: &mut Vec<u8>, payload: &[u8]) -> (r: Result<u64, RecordError>)
    ensures
        match r {
            Ok(offset) => {
                &&& payload@.len() <= MAX_RECORD_PAYLOAD_LEN
                &&& offset == old(log)@.len()
                &&& final(log)@ == old(log)@ + frame_of(payload@)
            },
            Err(e) => {
                &&& payload@.len() > MAX_RECORD_PAYLOAD_LEN
                &&& e == (RecordError::TooLong { len: payload@.len() as usize })
                &&& final(log)@ == old(log)@
            },
        },
{
    let frame: Vec<u8> = match encode_frame(payload) {
        Ok(frame) => frame,
        Err(e) => { return Err(e) },
    };
    let offset: u64 = log.len() as u64;
    put_bytes(log, &frame);
    Ok(offset)
}

/// `decode` may read the payload `p` as `r`.
pub open spec fn decodes<T, F: Fn(&Vec<u8>) -> Option<T>>(decode: F, p: Vec<u8>, r: Option<T>) -> bool {
    decode.ensures((&p,), r)
}

/// Reads the record at `offset` in a log, with `decode` for its payload.
pub fn read_record_at<T, F: Fn(&Vec<u8>) -> Option<T>>(file: &[u8], offset: u64, decode: F) -> (r: Result<
    T,
    RecordError,
>)
    requires
        forall|p: &Vec<u8>| decode.requires((p,)),
    ensures
        match r {
            Ok(record) => exists|p: Vec<u8>| {
                &&& offset <= file@.len()
                &&& frame_at(file@, offset as int) == (FrameView::Record { payload: p@ })
                &&& #[trigger] decodes(decode, p, Some(record))
            },
            Err(e) => if offset > file@.len() {
                e == (RecordError::Truncated { offset, shortage: Shortage::Header { present: 0 } })
            } else {
                match frame_at(file@, offset as int) {
                    FrameView::Record { payload } => {
                        &&& e == (RecordError::Unreadable { offset })
                        &&& exists|p: Vec<u8>| p@ == payload && #[trigger] decodes(decode, p, None::<T>)
                    },
                    FrameView::Truncated(shortage) => e == (RecordError::Truncated { offset, shortage }),
                    FrameView::Corrupt(damage) => e == (RecordError::Corrupt { offset, damage }),
                    FrameView::UnsupportedVersion { found } => e == (RecordError::UnsupportedVersion {
                        offset,
                        found,
                    }),
                }
            },
        },
{
    if offset > file.len() as u64 {
        return Err(RecordError::Truncated { offset, shortage: Shortage::Header { present: 0 } });
    }
    match read_one_frame(file, offset as usize) {
        FrameOutcome::Record { payload, consumed: _ } => match decode(&payload) {
            Some(record) => {
                assert(decodes(decode, payload, Some(record)));
                let r: Result<T, RecordError> = Ok(record);
                assert(decodes(decode, payload, Some(r->Ok_0)));
                r
            },
            None => {
                assert(decodes(decode, payload, None::<T>));
                Err(RecordError::Unreadable { offset })
            },
        },
        FrameOutcome::Truncated(shortage) => Err(RecordError::Truncated { offset, shortage }),
        FrameOutcome::Corrupt(damage) => Err(RecordError::Corrupt { offset, damage }),
        FrameOutcome::UnsupportedVersion { found } => Err(
            RecordError::UnsupportedVersion { offset, found },
        ),
    }
}

/// The records of a log, read with `decode`, are those of its whole frames.
pub open spec fn decoded<T, F: Fn(&Vec<u8>) -> Option<T>>(
    frames: Seq<(u64, Seq<u8>)>,
    records: Seq<(u64, T)>,
    decode: F,
) -> bool {
    &&& records.len() <= frames.len()
    &&& forall|i: int| 0 <= i < records.len() ==> decoded_one(frames[i], #[trigger] records[i], decode)
}

pub open spec fn decoded_one<T, F: Fn(&Vec<u8>) -> Option<T>>(
    frame: (u64, Seq<u8>),
    record: (u64, T),
    decode: F,
) -> bool {
    &&& record.0 == frame.0
    &&& exists|p: Vec<u8>| p@ == frame.1 && #[trigger] decodes(decode, p, Some(record.1))
}

/// `decode` may make nothing of `payload`.
pub open spec fn unreadable<T, F: Fn(&Vec<u8>) -> Option<T>>(payload: Seq<u8>, decode: F) -> bool {
    exists|p: Vec<u8>| p@ == payload && #[trigger] decodes(decode, p, None::<T>)
}

/// `decode` may make a record of a frame's payload.
pub open spec fn readable<T, F: Fn(&Vec<u8>) -> Option<T>>(frame: (u64, Seq<u8>), decode: F) -> bool {
    exists|t: T| #[trigger] decoded_one(frame, (frame.0, t), decode)
}

/// Why a log cannot be replayed: the first whole frame that cannot be read,
/// or else the damage or other format version past the whole frames.
pub open spec fn refuses<T, F: Fn(&Vec<u8>) -> Option<T>>(file: Seq<u8>, decode: F, e: RecordError) -> bool {
    let frames = frames_from(file, 0);
    match e {
        RecordError::Unreadable { offset } => exists|i: int|
            0 <= i < frames.len() && (#[trigger] frames[i]).0 == offset && unreadable(frames[i].1, decode) && forall|
                j: int,
            | 0 <= j < i ==> readable(#[trigger] frames[j], decode),
        _ => damaged_end(file, e),
    }
}

/// Past the whole frames there is damage, or another format version.
pub open spec fn damaged_end(file: Seq<u8>, e: RecordError) -> bool {
    let end = frames_end(file, 0);
    match e {
        RecordError::Corrupt { offset, damage } => {
            &&& offset == end
            &&& end < file.len()
            &&& frame_at(file, end) == FrameView::Corrupt(damage)
        },
        RecordError::UnsupportedVersion { offset, found } => {
            &&& offset == end
            &&& end < file.len()
            &&& frame_at(file, end) == (FrameView::UnsupportedVersion { found })
        },
        _ => false,
    }
}

/// What replaying a log gives.
pub open spec fn replayed<T, F: Fn(&Vec<u8>) -> Option<T>>(
    file: Seq<u8>,
    decode: F,
    r: Result<(Vec<(u64, T)>, TailState), RecordError>,
) -> bool {
    let frames = frames_from(file, 0);
    let end = frames_end(file, 0);
    match r {
        Ok((records, tail)) => {
            &&& records@.len() == frames.len()
            &&& decoded(frames, records@, decode)
            &&& tail == TailState::Clean ==> end >= file.len()
            &&& tail matches TailState::Truncated { offset, detail } ==> {
                &&& offset == end
                &&& end < file.len()
                &&& frame_at(file, end) == FrameView::Truncated(detail)
            }
        },
        Err(e) => refuses(file, decode, e),
    }
}

/// Replays a log: every record with its offset, in file order, and how the
/// log ends. A torn last record is reported, not fatal; damage, another
/// format version and a record that cannot be read are.
pub fn read_all_records_framed<T, F: Fn(&Vec<u8>) -> Option<T>>(file: &[u8], decode: F) -> (r: Result<
    (Vec<(u64, T)>, TailState),
    RecordError,
>)
    requires
        forall|p: &Vec<u8>| decode.requires((p,)),
    ensures
        replayed(file@, decode, r),
{
    let mut records: Vec<(u64, T)> = Vec::new();
    let mut offset: usize = 0;
    let ghost frames = frames_from(file@, 0);
    proof {
        assert(frames.skip(0) =~= frames);
    }
    while offset < file.len()
        invariant
            forall|p: &Vec<u8>| decode.requires((p,)),
            offset <= file@.len(),
            file@.len() == file.len(),
            frames == frames_from(file@, 0),
            records@.len() <= frames.len(),
            decoded(frames, records@, decode),
            frames.skip(records@.len() as int) == frames_from(file@, offset as int),
            frames_end(file@, offset as int) == frames_end(file@, 0),
        decreases file.len() - offset,
    {
        let ghost n = records@.len() as int;
        match read_one_frame(file, offset) {
            FrameOutcome::Record { payload, consumed } => {
                proof {
                    let rest = frames_from(file@, offset + FRAME_HEADER_LEN + payload@.len());
                    assert(frames.skip(n) == seq![(offset as u64, payload@)] + rest);
                    assert(frames.skip(n)[0] == frames[n]);
                    assert(frames.skip(n).len() > 0);
                    assert(frames.skip(n + 1) =~= rest) by {
                        assert forall|i: int| 0 <= i < rest.len() implies frames.skip(n + 1)[i] == rest[i] by {
                            assert(frames.skip(n)[i + 1] == rest[i]);
                        }
                    }
                }
                match decode(&payload) {
                    Some(record) => {
                        assert(decodes(decode, payload, Some(record)));
                        let ghost before = records@;
                        records.push((offset as u64, record));
                        proof {
                            assert(decodes(decode, payload, Some(records@[n].1)));
                            assert(decoded_one(frames[n], records@[n], decode));
                            assert forall|i: int| 0 <= i < records@.len() implies decoded_one(
                                frames[i],
                                #[trigger] records@[i],
                                decode,
                            ) by {
                                if i < n {
                                    assert(before[i] == records@[i]);
                                }
                            }
                        }
                    },
                    None => {
                        proof {
                            assert(decodes(decode, payload, None::<T>));
                            assert(frames[n].0 == offset && unreadable(frames[n].1, decode));
                            assert forall|j: int| 0 <= j < n implies readable(#[trigger] frames[j], decode) by {
                                let record = records@[j];
                                assert(decoded_one(frames[j], record, decode));
                                assert(decoded_one(frames[j], (frames[j].0, record.1), decode));
                            }
                        }
                        return Err(RecordError::Unreadable { offset: offset as u64 });
                    },
                }
                offset = offset + consumed as usize;
            },
            FrameOutcome::Truncated(detail) => {
                return Ok((records, TailState::Truncated { offset: offset as u64, detail }));
            },
            FrameOutcome::Corrupt(damage) => {
                return Err(RecordError::Corrupt { offset: offset as u64, damage });
            },
            FrameOutcome::UnsupportedVersion { found } => {
                return Err(RecordError::UnsupportedVersion { offset: offset as u64, found });
            },
        }
    }
    Ok((records, TailState::Clean))
}

/// Replays a log and takes a torn last record for one that was never
/// written.
pub fn read_all_records<T, F: Fn(&Vec<u8>) -> Option<T>>(file: &[u8], decode: F) -> (r: Result<
    Vec<(u64, T)>,
    RecordError,
>)
    requires
        forall|p: &Vec<u8>| decode.requires((p,)),
    ensures
        r matches Ok(records) ==> {
            let frames = frames_from(file@, 0);
            let end = frames_end(file@, 0);
            &&& records@.len() == frames.len()
            &&& decoded(frames, records@, decode)
            &&& end >= file@.len() || frame_at(file@, end) is Truncated
        },
        r matches Err(e) ==> refuses(file@, decode, e),
{
    match read_all_records_framed(file, decode) {
        Ok((records, _)) => Ok(records),
        Err(e) => Err(e),
    }
}

// ---------------------------------------------------------------------
// The records of each log
// ---------------------------------------------------------------------

/// One record of the node log.
#[derive(Debug)]
pub enum NodeRecord {
    Put(Node),
    Delete(String),
}

/// One record of the edge log.
#[derive(Debug)]
pub enum EdgeRecord {
    Put(Edge),
    Delete(EdgeId),
}

/// One record of the user log.
#[derive(Debug)]
pub enum UserOpRecord {
    Put(UserRecord),
    Revoke(String),
}

pub enum NodeRecordView {
    Put(NodeView),
    Delete(Seq<char>),
}

pub enum EdgeRecordView {
    Put(EdgeView),
    Delete(EdgeIdView),
}

pub enum UserOpView {
    Put(UserView),
    Revoke(Seq<char>),
}

impl View for NodeRecord {
    type V = NodeRecordView;

    open spec fn view(&self) -> NodeRecordView {
        match *self {
            NodeRecord::Put(n) => NodeRecordView::Put(n@),
            NodeRecord::Delete(a) => NodeRecordView::Delete(a@),
        }
    }
}

impl View for EdgeRecord {
    type V = EdgeRecordView;

    open spec fn view(&self) -> EdgeRecordView {
        match *self {
            EdgeRecord::Put(e) => EdgeRecordView::Put(e@),
            EdgeRecord::Delete(id) => EdgeRecordView::Delete(id@),
        }
    }
}

impl View for UserOpRecord {
    type V = UserOpView;

    open spec fn view(&self) -> UserOpView {
        match *self {
            UserOpRecord::Put(u) => UserOpView::Put(u@),
            UserOpRecord::Revoke(h) => UserOpView::Revoke(h@),
        }
    }
}

pub const TAG_PUT: u32 = 0;

pub const TAG_REMOVE: u32 = 1;

/// The node record that bytes are read as, if they are one.
pub open spec fn node_record_of(bytes: Seq<u8>) -> Option<NodeRecordView> {
    match unpacked(bytes) {
        None => None,
        Some(f) => if f.tag == TAG_PUT {
            match node_from(f.numbers, f.texts) {
                Some(n) => Some(NodeRecordView::Put(n)),
                None => None,
            }
        } else if f.tag == TAG_REMOVE && f.texts.len() == 1 {
            Some(NodeRecordView::Delete(f.texts[0]))
        } else {
            None
        },
    }
}

/// The edge record that bytes are read as, if they are one.
pub open spec fn edge_record_of(bytes: Seq<u8>) -> Option<EdgeRecordView> {
    match unpacked(bytes) {
        None => None,
        Some(f) => if f.tag == TAG_PUT && f.texts.len() == 4 {
            Some(
                EdgeRecordView::Put(
                    EdgeView { from: f.texts[0], to: f.texts[1], kind: f.texts[2], owner: f.texts[3] },
                ),
            )
        } else if f.tag == TAG_REMOVE && f.texts.len() == 3 {
            Some(
                EdgeRecordView::Delete(
                    EdgeIdView { from: f.texts[0], to: f.texts[1], kind: f.texts[2] },
                ),
            )
        } else {
            None
        },
    }
}

/// The user record that bytes are read as, if they are one.
pub open spec fn user_op_of(bytes: Seq<u8>) -> Option<UserOpView> {
    match unpacked(bytes) {
        None => None,
        Some(f) => if f.tag == TAG_PUT && f.texts.len() == 2 && f.numbers.len() == 1 {
            Some(
                UserOpView::Put(
                    UserView { token_hash: f.texts[0], owner: f.texts[1], is_admin: f.numbers[0] == 1 },
                ),
            )
        } else if f.tag == TAG_REMOVE && f.texts.len() == 1 {
            Some(UserOpView::Revoke(f.texts[0]))
        } else {
            None
        },
    }
}

fn one_text(tag: u32, text: &String) -> (r: Parts)
    ensures
        r@ == (Fields { tag, numbers: Seq::empty(), texts: seq![text@] }),
{
    let mut texts: Vec<String> = Vec::new();
    texts.push(text.clone());
    let r = Parts { tag, numbers: Vec::new(), texts };
    proof {
        assert(r@.texts =~= seq![text@]);
        assert(r@.numbers =~= Seq::<u64>::empty());
    }
    r
}

impl NodeRecord {
    pub fn encode(&self) -> (r: Vec<u8>)
        ensures
            node_record_of(r@) == Some(self@),
    {
        match self {
            NodeRecord::Put(n) => {
                let (numbers, texts) = crate::record::node_parts(n);
                proof {
                    crate::record::lemma_node_round_trip(n@);
                }
                (Parts { tag: TAG_PUT, numbers, texts }).pack()
            },
            NodeRecord::Delete(a) => one_text(TAG_REMOVE, a).pack(),
        }
    }

    pub fn decode(bytes: &[u8]) -> (r: Option<NodeRecord>)
        ensures
            match r {
                Some(rec) => node_record_of(bytes@) == Some(rec@),
                None => node_record_of(bytes@) is None,
            },
    {
        let parts = match Parts::unpack(bytes) {
            Some(parts) => parts,
            None => { return None },
        };
        if parts.tag == TAG_PUT {
            match crate::record::node_of_parts(&parts.numbers, &parts.texts) {
                Some(n) => Some(NodeRecord::Put(n)),
                None => None,
            }
        } else if parts.tag == TAG_REMOVE && parts.texts.len() == 1 {
            Some(NodeRecord::Delete(parts.texts[0].clone()))
        } else {
            None
        }
    }
}

impl EdgeRecord {
    pub fn encode(&self) -> (r: Vec<u8>)
        ensures
            edge_record_of(r@) == Some(self@),
    {
        let mut texts: Vec<String> = Vec::new();
        match self {
            EdgeRecord::Put(e) => {
                texts.push(e.from.clone());
                texts.push(e.to.clone());
                texts.push(e.kind.clone());
                texts.push(e.owner.clone());
                (Parts { tag: TAG_PUT, numbers: Vec::new(), texts }).pack()
            },
            EdgeRecord::Delete(id) => {
                texts.push(id.from.clone());
                texts.push(id.to.clone());
                texts.push(id.kind.clone());
                (Parts { tag: TAG_REMOVE, numbers: Vec::new(), texts }).pack()
            },
        }
    }

    pub fn decode(bytes: &[u8]) -> (r: Option<EdgeRecord>)
        ensures
            match r {
                Some(rec) => edge_record_of(bytes@) == Some(rec@),
                None => edge_record_of(bytes@) is None,
            },
    {
        let parts = match Parts::unpack(bytes) {
            Some(parts) => parts,
            None => { return None },
        };
        if parts.tag == TAG_PUT && parts.texts.len() == 4 {
            Some(
                EdgeRecord::Put(
                    Edge {
                        from: parts.texts[0].clone(),
                        to: parts.texts[1].clone(),
                        kind: parts.texts[2].clone(),
                        owner: parts.texts[3].clone(),
                    },
                ),
            )
        } else if parts.tag == TAG_REMOVE && parts.texts.len() == 3 {
            Some(
                EdgeRecord::Delete(
                    EdgeId {
                        from: parts.texts[0].clone(),
                        to: parts.texts[1].clone(),
                        kind: parts.texts[2].clone(),
                    },
                ),
            )
        } else {
            None
        }
    }
}

impl UserOpRecord {
    pub fn encode(&self) -> (r: Vec<u8>)
        ensures
            user_op_of(r@) == Some(self@),
    {
        match self {
            UserOpRecord::Put(u) => {
                let mut texts: Vec<String> = Vec::new();
                texts.push(u.token_hash.clone());
                texts.push(u.owner.clone());
                let mut numbers: Vec<u64> = Vec::new();
                numbers.push(
                    if u.is_admin {
                        1
                    } else {
                        0
                    },
                );
                (Parts { tag: TAG_PUT, numbers, texts }).pack()
            },
            UserOpRecord::Revoke(h) => one_text(TAG_REMOVE, h).pack(),
        }
    }

    pub fn decode(bytes: &[u8]) -> (r: Option<UserOpRecord>)
        ensures
            match r {
                Some(rec) => user_op_of(bytes@) == Some(rec@),
                None => user_op_of(bytes@) is None,
            },
    {
        let parts = match Parts::unpack(bytes) {
            Some(parts) => parts,
            None => { return None },
        };
        if parts.tag == TAG_PUT && parts.texts.len() == 2 && parts.numbers.len() == 1 {
            Some(
                UserOpRecord::Put(
                    UserRecord {
                        token_hash: parts.texts[0].clone(),
                        owner: parts.texts[1].clone(),
                        is_admin: parts.numbers[0] == 1,
                    },
                ),
            )
        } else if parts.tag == TAG_REMOVE && parts.texts.len() == 1 {
            Some(UserOpRecord::Revoke(parts.texts[0].clone()))
        } else {
            None
        }
    }
}

/// What adding a node record to a log does.
pub open spec fn node_appended<F: Fn(&Vec<u8>) -> Vec<u8>>(
    before: Seq<u8>,
    after: Seq<u8>,
    record: NodeRecordView,
    seal: F,
    r: Result<u64, RecordError>,
) -> bool {
    exists|plain: Vec<u8>, sealed: Vec<u8>|
        {
            &&& node_record_of(plain@) == Some(record)
            &&& #[trigger] seal.ensures((&plain,), sealed)
            &&& match r {
                Ok(offset) => {
                    &&& sealed@.len() <= MAX_RECORD_PAYLOAD_LEN
                    &&& offset == before.len()
                    &&& after == before + frame_of(sealed@)
                },
                Err(e) => {
                    &&& sealed@.len() > MAX_RECORD_PAYLOAD_LEN
                    &&& e == (RecordError::TooLong { len: sealed@.len() as usize })
                    &&& after == before
                },
            }
        }
}

/// Adds a node record to a log, its bytes sealed by `seal`; says where it
/// begins.
pub fn append_node_record<F: Fn(&Vec<u8>) -> Vec<u8>>(
    log: &mut Vec<u8>,
    record: &NodeRecord,
    seal: F,
) -> (r: Result<u64, RecordError>)
    requires
        forall|p: &Vec<u8>| seal.requires((p,)),
    ensures
        node_appended(old(log)@, final(log)@, record@, seal, r),
{
    let plain: Vec<u8> = record.encode();
    let sealed: Vec<u8> = seal(&plain);
    proof {
        assert(seal.ensures((&plain,), sealed));
    }
    append_record(log, &sealed)
}

/// What `open` makes of a sealed node record.
pub open spec fn opens_to<F: Fn(&Vec<u8>) -> Option<Vec<u8>>>(
    open: &F,
    sealed: Seq<u8>,
    record: Option<NodeRecordView>,
) -> bool {
    exists|s: Vec<u8>, plain: Option<Vec<u8>>|
        s@ == sealed && #[trigger] open.ensures((&s,), plain) && record == (match plain {
            Some(p) => node_record_of(p@),
            None => None,
        })
}

/// Opens and reads one sealed node record.
fn open_node_record<F: Fn(&Vec<u8>) -> Option<Vec<u8>>>(sealed: &Vec<u8>, open: &F) -> (r: Option<NodeRecord>)
    requires
        forall|p: &Vec<u8>| open.requires((p,)),
    ensures
        opens_to(
            open,
            sealed@,
            match r {
                Some(rec) => Some(rec@),
                None => None,
            },
        ),
{
    let plain = open(sealed);
    proof {
        assert(open.ensures((sealed,), plain));
    }
    match &plain {
        Some(p) => NodeRecord::decode(p),
        None => None,
    }
}

/// Reads the node record at `offset` in a log, its bytes opened by `open`.
pub fn read_node_record_at<F: Fn(&Vec<u8>) -> Option<Vec<u8>>>(file: &[u8], offset: u64, open: F) -> (r: Result<
    NodeRecord,
    RecordError,
>)
    requires
        forall|p: &Vec<u8>| open.requires((p,)),
    ensures
        match r {
            Ok(record) => {
                &&& offset <= file@.len()
                &&& frame_at(file@, offset as int) matches FrameView::Record { payload }
                &&& opens_to(&open, payload, Some(record@))
            },
            Err(e) => if offset > file@.len() {
                e == (RecordError::Truncated { offset, shortage: Shortage::Header { present: 0 } })
            } else {
                match frame_at(file@, offset as int) {
                    FrameView::Record { payload } => {
                        &&& e == (RecordError::Unreadable { offset })
                        &&& opens_to(&open, payload, None)
                    },
                    FrameView::Truncated(shortage) => e == (RecordError::Truncated { offset, shortage }),
                    FrameView::Corrupt(damage) => e == (RecordError::Corrupt { offset, damage }),
                    FrameView::UnsupportedVersion { found } => e == (RecordError::UnsupportedVersion {
                        offset,
                        found,
                    }),
                }
            },
        },
{
    if offset > file.len() as u64 {
        return Err(RecordError::Truncated { offset, shortage: Shortage::Header { present: 0 } });
    }
    match read_one_frame(file, offset as usize) {
        FrameOutcome::Record { payload, consumed: _ } => match open_node_record(&payload, &open) {
            Some(record) => Ok(record),
            None => Err(RecordError::Unreadable { offset }),
        },
        FrameOutcome::Truncated(shortage) => Err(RecordError::Truncated { offset, shortage }),
        FrameOutcome::Corrupt(damage) => Err(RecordError::Corrupt { offset, damage }),
        FrameOutcome::UnsupportedVersion { found } => Err(
            RecordError::UnsupportedVersion { offset, found },
        ),
    }
}

/// The whole frame at `i`, which begins at `offset`, is the first that does
/// not open to a node record.
pub open spec fn first_unopened<F: Fn(&Vec<u8>) -> Option<Vec<u8>>>(file: Seq<u8>, open: &F, i: int, offset: u64) -> bool {
    let frames = frames_from(file, 0);
    &&& 0 <= i < frames.len()
    &&& frames[i].0 == offset
    &&& opens_to(open, frames[i].1, None)
    &&& forall|j: int| 0 <= j < i ==> opens(open, (#[trigger] frames[j]).1)
}

/// The payload opens to a node record.
pub open spec fn opens<F: Fn(&Vec<u8>) -> Option<Vec<u8>>>(open: &F, payload: Seq<u8>) -> bool {
    exists|record: NodeRecordView| #[trigger] opens_to(open, payload, Some(record))
}

/// What replaying the node log gives.
pub open spec fn nodes_replayed<F: Fn(&Vec<u8>) -> Option<Vec<u8>>>(
    file: Seq<u8>,
    open: &F,
    r: Result<Vec<(u64, NodeRecord)>, RecordError>,
) -> bool {
    let frames = frames_from(file, 0);
    let end = frames_end(file, 0);
    match r {
        Ok(records) => {
            &&& records@.len() == frames.len()
            &&& forall|i: int|
                0 <= i < frames.len() ==> (#[trigger] records@[i]).0 == frames[i].0 && opens_to(
                    open,
                    frames[i].1,
                    Some(records@[i].1@),
                )
            &&& end >= file.len() || frame_at(file, end) is Truncated
        },
        Err(e) => match e {
            RecordError::Unreadable { offset } => exists|i: int| #[trigger] first_unopened(file, open, i, offset),
            _ => damaged_end(file, e),
        },
    }
}

/// Replays the node log, its records opened by `open`.
pub fn read_all<F: Fn(&Vec<u8>) -> Option<Vec<u8>>>(file: &[u8], open: F) -> (r: Result<
    Vec<(u64, NodeRecord)>,
    RecordError,
>)
    requires
        forall|p: &Vec<u8>| open.requires((p,)),
    ensures
        nodes_replayed(file@, &open, r),
{
    let decode = |p: &Vec<u8>| -> (r: Option<NodeRecord>)
        ensures
            opens_to(
                &open,
                p@,
                match r {
                    Some(rec) => Some(rec@),
                    None => None,
                },
            ),
        { open_node_record(p, &open) };
    let r = read_all_records(file, decode);
    proof {
        if r is Ok {
            let records = r->Ok_0;
            let frames = frames_from(file@, 0);
            assert forall|i: int| 0 <= i < frames.len() implies (#[trigger] records@[i]).0 == frames[i].0 && opens_to(
                &open,
                frames[i].1,
                Some(records@[i].1@),
            ) by {
                assert(decoded_one(frames[i], records@[i], decode));
                let p = choose|p: Vec<u8>| p@ == frames[i].1 && #[trigger] decodes(decode, p, Some(records@[i].1));
                assert(decode.ensures((&p,), Some(records@[i].1)));
            }
        }
        if let Err(RecordError::Unreadable { offset }) = r {
            let frames = frames_from(file@, 0);
            let i = choose|i: int|
                0 <= i < frames.len() && (#[trigger] frames[i]).0 == offset && unreadable(frames[i].1, decode)
                    && forall|j: int| 0 <= j < i ==> readable(#[trigger] frames[j], decode);
            let p = choose|p: Vec<u8>| p@ == frames[i].1 && #[trigger] decodes(decode, p, None::<NodeRecord>);
            assert(decode.ensures((&p,), None::<NodeRecord>));
            assert forall|j: int| 0 <= j < i implies opens(&open, (#[trigger] frames[j]).1) by {
                assert(readable(frames[j], decode));
                let record = choose|record: NodeRecord| #[trigger] decoded_one(frames[j], (frames[j].0, record), decode);
                let p = choose|p: Vec<u8>| p@ == frames[j].1 && #[trigger] decodes(decode, p, Some(record));
                assert(decode.ensures((&p,), Some(record)));
                assert(opens_to(&open, frames[j].1, Some(record@)));
            }
            assert(first_unopened(file@, &open, i, offset));
        }
    }
    r
}

/// File name of the node log.
pub fn nodes_path() -> (r: String)
    ensures
        r@ == "facetql.data"@,
{
    own("facetql.data")
}

/// File name of the edge log.
pub fn edges_path() -> (r: String)
    ensures
        r@ == "facetql.edges"@,
{
    own("facetql.edges")
}

/// File name of the user log.
pub fn users_path() -> (r: String)
    ensures
        r@ == "facetql.users"@,
{
    own("facetql.users")
}

/// File name of the history log.
pub fn history_path() -> (r: String)
    ensures
        r@ == "facetql.history"@,
{
    own("facetql.history")
}

// ---------------------------------------------------------------------
// Replay
// ---------------------------------------------------------------------

/// The nodes left after replaying a log: the last record for an address
/// decides.
pub open spec fn replay_nodes(log: Seq<NodeRecordView>) -> Map<Seq<char>, NodeView>
    decreases log.len(),
{
    if log.len() == 0 {
        Map::empty()
    } else {
        let before = replay_nodes(log.drop_last());
        match log.last() {
            NodeRecordView::Put(n) => before.insert(n.address, n),
            NodeRecordView::Delete(a) => before.remove(a),
        }
    }
}

/// The users left after replaying a log.
pub open spec fn replay_users(log: Seq<UserOpView>) -> Map<Seq<char>, UserView>
    decreases log.len(),
{
    if log.len() == 0 {
        Map::empty()
    } else {
        let before = replay_users(log.drop_last());
        match log.last() {
            UserOpView::Put(u) => before.insert(u.token_hash, u),
            UserOpView::Revoke(h) => before.remove(h),
        }
    }
}

/// A node deleted and created again is there after a replay, whatever the
/// log held before.
pub proof fn law_recreated_node_survives(log: Seq<NodeRecordView>, n: NodeView)
    ensures
        replay_nodes(log.push(NodeRecordView::Delete(n.address)).push(NodeRecordView::Put(n))).contains_pair(
            n.address,
            n,
        ),
        !replay_nodes(log.push(NodeRecordView::Put(n)).push(NodeRecordView::Delete(n.address))).contains_key(
            n.address,
        ),
{
    let a = log.push(NodeRecordView::Delete(n.address)).push(NodeRecordView::Put(n));
    assert(a.drop_last() =~= log.push(NodeRecordView::Delete(n.address)));
    let b = log.push(NodeRecordView::Put(n)).push(NodeRecordView::Delete(n.address));
    assert(b.drop_last() =~= log.push(NodeRecordView::Put(n)));
}

// ---------------------------------------------------------------------
// Laws of whole logs
// ---------------------------------------------------------------------

/// The frames around the payloads, one after another.
pub open spec fn log_of(payloads: Seq<Seq<u8>>) -> Seq<u8>
    decreases payloads.len(),
{
    if payloads.len() == 0 {
        Seq::empty()
    } else {
        log_of(payloads.drop_last()) + frame_of(payloads.last())
    }
}

/// The frames of such a log: where each begins, and its payload.
pub open spec fn frames_of(payloads: Seq<Seq<u8>>) -> Seq<(u64, Seq<u8>)> {
    Seq::new(payloads.len(), |i: int| (log_of(payloads.take(i)).len() as u64, payloads[i]))
}

/// A whole frame stays what it is when the log grows.
proof fn lemma_frame_grows(file: Seq<u8>, more: Seq<u8>, at: int)
    requires
        0 <= at < file.len(),
        frame_at(file, at) is Record,
    ensures
        frame_at(file + more, at) == frame_at(file, at),
        at + FRAME_HEADER_LEN + frame_at(file, at)->payload.len() <= file.len(),
{
    let a = file.skip(at);
    let b = (file + more).skip(at);
    assert(b =~= a + more);
    let declared = le_value(a.subrange(5, 9));
    assert(a.take(4) =~= b.take(4));
    assert(a.subrange(5, 9) =~= b.subrange(5, 9));
    assert(a.subrange(9, 13) =~= b.subrange(9, 13));
    assert(a.subrange(13, (13 + declared) as int) =~= b.subrange(13, (13 + declared) as int));
}

/// A log that ends with a whole frame, and more.
proof fn lemma_frames_grow(file: Seq<u8>, more: Seq<u8>, at: int)
    requires
        0 <= at <= file.len(),
        frames_end(file, at) == file.len(),
        (file + more).len() <= u64::MAX,
    ensures
        frames_from(file + more, at) == frames_from(file, at) + frames_from(file + more, file.len() as int),
        frames_end(file + more, at) == frames_end(file + more, file.len() as int),
    decreases file.len() - at,
{
    let all = file + more;
    if at < file.len() {
        if frame_at(file, at) is Record {
            lemma_frame_grows(file, more, at);
            let payload = frame_at(file, at)->payload;
            let next = at + FRAME_HEADER_LEN + payload.len();
            lemma_frames_grow(file, more, next);
            let head = seq![(at as u64, payload)];
            assert(head + (frames_from(file, next) + frames_from(all, file.len() as int)) =~= (head + frames_from(
                file,
                next,
            )) + frames_from(all, file.len() as int));
        }
    } else {
        assert(frames_from(file, at) =~= Seq::<(u64, Seq<u8>)>::empty());
        assert(frames_from(file, at) + frames_from(all, at) =~= frames_from(all, at));
    }
}

/// A log that ends with a whole frame and gets another.
proof fn lemma_frame_appended(file: Seq<u8>, payload: Seq<u8>)
    requires
        frames_end(file, 0) == file.len(),
        payload.len() <= MAX_RECORD_PAYLOAD_LEN,
        (file + frame_of(payload)).len() <= u64::MAX,
    ensures
        frames_from(file + frame_of(payload), 0) == frames_from(file, 0).push((file.len() as u64, payload)),
        frames_end(file + frame_of(payload), 0) == (file + frame_of(payload)).len(),
{
    let frame = frame_of(payload);
    let all = file + frame;
    let at = file.len() as int;
    let none = Seq::<u8>::empty();
    law_frame_round_trip(file, payload, none);
    assert(file + frame + none =~= all);
    lemma_frames_grow(file, frame, 0);
    let end = at + FRAME_HEADER_LEN + payload.len();
    assert(frames_from(all, end) =~= Seq::<(u64, Seq<u8>)>::empty());
    assert(frames_end(all, end) == end);
    assert(frames_from(all, at) =~= seq![(at as u64, payload)]);
    assert(frames_from(file, 0) + seq![(at as u64, payload)] =~= frames_from(file, 0).push((at as u64, payload)));
}

/// A log of whole frames holds these frames and ends with the last.
pub proof fn law_log_holds_its_frames(payloads: Seq<Seq<u8>>)
    requires
        forall|i: int| 0 <= i < payloads.len() ==> (#[trigger] payloads[i]).len() <= MAX_RECORD_PAYLOAD_LEN,
        log_of(payloads).len() <= u64::MAX,
    ensures
        frames_from(log_of(payloads), 0) == frames_of(payloads),
        frames_end(log_of(payloads), 0) == log_of(payloads).len(),
    decreases payloads.len(),
{
    if payloads.len() > 0 {
        let init = payloads.drop_last();
        assert forall|i: int| 0 <= i < init.len() implies (#[trigger] init[i]).len() <= MAX_RECORD_PAYLOAD_LEN by {
            assert(init[i] == payloads[i]);
        }
        law_log_holds_its_frames(init);
        assert(payloads.last() == payloads[payloads.len() - 1]);
        lemma_frame_appended(log_of(init), payloads.last());
        assert(payloads.take(payloads.len() - 1) =~= init);
        assert forall|i: int| 0 <= i < init.len() implies payloads.take(i) == init.take(i) by {
            assert(payloads.take(i) =~= init.take(i));
        }
        assert(frames_of(payloads) =~= frames_of(init).push((log_of(init).len() as u64, payloads.last())));
    } else {
        assert(frames_of(payloads) =~= Seq::<(u64, Seq<u8>)>::empty());
    }
}

/// `decode` reads the payload, and only as what `view` shows as `record`.
pub open spec fn reads_as<T, V, F: Fn(&Vec<u8>) -> Option<T>>(
    decode: F,
    view: spec_fn(T) -> V,
    payload: Seq<u8>,
    record: V,
) -> bool {
    forall|p: Vec<u8>, x: Option<T>|
        p@ == payload && #[trigger] decodes(decode, p, x) ==> x is Some && view(x->0) == record
}

/// A log of frames, and perhaps a last frame that is torn, reads back as the
/// records of the whole frames, each where its frame begins; the torn one
/// gives no record, but is reported.
pub proof fn law_log_reads_back<T, V, F: Fn(&Vec<u8>) -> Option<T>>(
    payloads: Seq<Seq<u8>>,
    records: Seq<V>,
    torn: Seq<u8>,
    kept: int,
    decode: F,
    view: spec_fn(T) -> V,
    r: Result<(Vec<(u64, T)>, TailState), RecordError>,
)
    requires
        forall|i: int| 0 <= i < payloads.len() ==> (#[trigger] payloads[i]).len() <= MAX_RECORD_PAYLOAD_LEN,
        records.len() == payloads.len(),
        forall|i: int| 0 <= i < payloads.len() ==> reads_as(decode, view, #[trigger] payloads[i], records[i]),
        torn.len() <= MAX_RECORD_PAYLOAD_LEN,
        0 <= kept < frame_of(torn).len(),
        (log_of(payloads) + frame_of(torn).take(kept)).len() <= u64::MAX,
        replayed(log_of(payloads) + frame_of(torn).take(kept), decode, r),
    ensures
        r is Ok,
        ({
            let (v, tail) = r->Ok_0;
            &&& v@.len() == payloads.len()
            &&& forall|i: int|
                0 <= i < payloads.len() ==> (#[trigger] v@[i]).0 == log_of(payloads.take(i)).len() && view(v@[i].1)
                    == records[i]
            &&& kept == 0 ==> tail == TailState::Clean
            &&& kept > 0 ==> (tail matches TailState::Truncated { offset, detail } && offset == log_of(payloads).len())
        }),
{
    let whole = log_of(payloads);
    let rest = frame_of(torn).take(kept);
    let file = whole + rest;
    let at = whole.len() as int;
    law_log_holds_its_frames(payloads);
    lemma_frames_grow(whole, rest, 0);
    if kept > 0 {
        law_torn_frame_is_truncated(whole, torn, kept);
    }
    assert(frames_from(file, at) =~= Seq::<(u64, Seq<u8>)>::empty());
    assert(frames_end(file, 0) == at);
    let frames = frames_from(file, 0);
    assert(frames =~= frames_of(payloads));
    assert forall|i: int| 0 <= i < frames.len() implies (#[trigger] frames[i]).1 == payloads[i] && frames[i].0 == log_of(
        payloads.take(i),
    ).len() by {
        lemma_log_prefix(payloads, i);
    }
    match r {
        Ok((v, tail)) => {
            assert forall|i: int| 0 <= i < payloads.len() implies (#[trigger] v@[i]).0 == log_of(payloads.take(i)).len()
                && view(v@[i].1) == records[i] by {
                assert(decoded_one(frames[i], v@[i], decode));
                assert(frames[i].1 == payloads[i]);
                assert(reads_as(decode, view, payloads[i], records[i]));
                let p = choose|p: Vec<u8>| p@ == frames[i].1 && #[trigger] decodes(decode, p, Some(v@[i].1));
            }
        },
        Err(e) => {
            if let RecordError::Unreadable { offset } = e {
                let i = choose|i: int|
                    0 <= i < frames.len() && (#[trigger] frames[i]).0 == offset && unreadable(frames[i].1, decode)
                        && forall|j: int| 0 <= j < i ==> readable(#[trigger] frames[j], decode);
                assert(frames[i].1 == payloads[i]);
                assert(reads_as(decode, view, payloads[i], records[i]));
                let p = choose|p: Vec<u8>| p@ == frames[i].1 && #[trigger] decodes(decode, p, None::<T>);
            }
        },
    }
}

proof fn lemma_log_prefix(payloads: Seq<Seq<u8>>, i: int)
    requires
        0 <= i <= payloads.len(),
    ensures
        log_of(payloads.take(i)).len() <= log_of(payloads).len(),
    decreases payloads.len(),
{
    if i < payloads.len() {
        lemma_log_prefix(payloads.drop_last(), i);
        assert(payloads.drop_last().take(i) =~= payloads.take(i));
    } else {
        assert(payloads.take(i) =~= payloads);
    }
}

/// What is sealed opens to what it was, and what is opened twice is the same.
pub open spec fn unseals<F: Fn(&Vec<u8>) -> Vec<u8>, G: Fn(&Vec<u8>) -> Option<Vec<u8>>>(seal: F, open: &G) -> bool {
    &&& forall|plain: Vec<u8>, sealed: Vec<u8>, s: Vec<u8>, p: Option<Vec<u8>>|
        #[trigger] seal.ensures((&plain,), sealed) && s@ == sealed@ && #[trigger] open.ensures((&s,), p) ==> p is Some
            && p->0@ == plain@
    &&& forall|payload: Seq<u8>, a: Option<NodeRecordView>, b: Option<NodeRecordView>|
        #[trigger] opens_to(open, payload, a) && #[trigger] opens_to(open, payload, b) ==> a == b
}

/// A node log read again after a record was added gives what it gave, each
/// record where it was, and the new record last.
pub proof fn law_appended_record_comes_back_last<F: Fn(&Vec<u8>) -> Vec<u8>, G: Fn(&Vec<u8>) -> Option<Vec<u8>>>(
    before: Seq<u8>,
    after: Seq<u8>,
    record: NodeRecordView,
    seal: F,
    open: &G,
    offset: u64,
    one: Vec<(u64, NodeRecord)>,
    two: Result<Vec<(u64, NodeRecord)>, RecordError>,
)
    requires
        unseals(seal, open),
        nodes_replayed(before, open, Ok(one)),
        frames_end(before, 0) == before.len(),
        node_appended(before, after, record, seal, Ok(offset)),
        after.len() <= u64::MAX,
        nodes_replayed(after, open, two),
    ensures
        offset == before.len(),
        two matches Ok(w) && w@.len() == one@.len() + 1 && w@.last().0 == offset && w@.last().1@ == record && (forall|
            i: int,
        |
            0 <= i < one@.len() ==> (#[trigger] w@[i]).0 == one@[i].0 && w@[i].1@ == one@[i].1@),
{
    let (plain, sealed) = choose|plain: Vec<u8>, sealed: Vec<u8>|
        {
            &&& node_record_of(plain@) == Some(record)
            &&& #[trigger] seal.ensures((&plain,), sealed)
            &&& sealed@.len() <= MAX_RECORD_PAYLOAD_LEN
            &&& offset == before.len()
            &&& after == before + frame_of(sealed@)
        };
    lemma_frame_appended(before, sealed@);
    let old_frames = frames_from(before, 0);
    let frames = frames_from(after, 0);
    let n = old_frames.len() as int;
    assert forall|i: int| 0 <= i < n implies #[trigger] frames[i] == old_frames[i] by {}
    assert forall|x: Option<NodeRecordView>| #[trigger] opens_to(open, sealed@, x) implies x == Some(record) by {
        let (s, p) = choose|s: Vec<u8>, p: Option<Vec<u8>>|
            s@ == sealed@ && #[trigger] open.ensures((&s,), p) && x == (match p {
                Some(p) => node_record_of(p@),
                None => None,
            });
        assert(seal.ensures((&plain,), sealed));
    }
    match two {
        Ok(w) => {
            assert forall|i: int| 0 <= i < n implies (#[trigger] w@[i]).0 == one@[i].0 && w@[i].1@ == one@[i].1@ by {
                assert(frames[i] == old_frames[i]);
                assert(one@[i].0 == old_frames[i].0);
                assert(opens_to(open, frames[i].1, Some(w@[i].1@)));
                assert(opens_to(open, frames[i].1, Some(one@[i].1@)));
            }
            assert(w@[n].0 == frames[n].0);
        },
        Err(e) => {
            if let RecordError::Unreadable { offset: at } = e {
                let i = choose|i: int| #[trigger] first_unopened(after, open, i, at);
                assert(opens_to(open, frames[i].1, None));
                if i < n {
                    assert(one@[i].0 == old_frames[i].0);
                    assert(opens_to(open, frames[i].1, Some(one@[i].1@)));
                }
            }
        },
    }
}

} // verus!
