//! The durability checkpoint: everything in the write-ahead log up to it is
//! in the other files, so recovery starts past it.
//!
//! A transaction frame that is being written holds a fence at its first
//! record. The checkpoint stays below every fence.

use vstd::prelude::*;
use vstd::string::*;
use vstd::utf8::{decode_utf8, valid_utf8};

use crate::bytes::copy_range;
use crate::decimal::{digits_of, digits_value, is_digit, lemma_digits_round_trip, parse_digits, to_digits};
use crate::text::{from_utf8, trim, trimmed_text};

verus! {

/// Longest checkpoint file that is looked at.
pub const MAX_CHECKPOINT_FILE_LEN: usize = 64;

/// Why a checkpoint file is not one.
#[derive(Clone, Copy, PartialEq, Eq, Debug, Structural)]
pub enum CheckpointError {
    TooLong(usize),
    NotUtf8,
    Blank,
    NotDecimal,
    TooLarge,
}

/// The first records of the frames that are being written.
pub struct Fences {
    open: Vec<u64>,
}

impl View for Fences {
    type V = Set<u64>;

    closed spec fn view(&self) -> Set<u64> {
        self.open@.to_set()
    }
}

impl Fences {
    pub fn new() -> (r: Fences)
        ensures
            r@ == Set::<u64>::empty(),
    {
        let r = Fences { open: Vec::new() };
        proof {
            assert(r@ =~= Set::<u64>::empty());
        }
        r
    }
}

/// Holds the checkpoint below `begin_sequence` until the fence is released.
pub fn begin_fence(fences: &mut Fences, begin_sequence: u64)
    ensures
        final(fences)@ == old(fences)@.insert(begin_sequence),
{
    let ghost before = fences.open@;
    fences.open.push(begin_sequence);
    proof {
        let after = fences.open@;
        assert forall|x: u64| after.to_set().contains(x) == before.to_set().insert(begin_sequence).contains(x) by {
            if after.contains(x) {
                let i = choose|i: int| 0 <= i < after.len() && after[i] == x;
                if i < before.len() {
                    assert(before[i] == x);
                }
            }
            if before.contains(x) {
                let i = choose|i: int| 0 <= i < before.len() && before[i] == x;
                assert(after[i] == x);
            }
            if x == begin_sequence {
                assert(after[before.len() as int] == x);
            }
        }
        assert(fences@ =~= old(fences)@.insert(begin_sequence));
    }
}

/// Releases a fence. One that is not held is none.
pub fn release_fence(fences: &mut Fences, begin_sequence: u64)
    ensures
        final(fences)@ == old(fences)@.remove(begin_sequence),
{
    let mut kept: Vec<u64> = Vec::new();
    let mut i: usize = 0;
    while i < fences.open.len()
        invariant
            i <= fences.open.len(),
            *fences == *old(fences),
            forall|x: u64| #[trigger]
                kept@.contains(x) <==> x != begin_sequence && fences.open@.take(i as int).contains(x),
        decreases fences.open.len() - i,
    {
        let x: u64 = fences.open[i];
        let ghost before = kept@;
        if x != begin_sequence {
            kept.push(x);
        }
        proof {
            let part = fences.open@.take(i as int);
            let next = fences.open@.take(i + 1);
            assert(next =~= part.push(x));
            assert forall|y: u64| #[trigger] kept@.contains(y) <==> y != begin_sequence && next.contains(y) by {
                if next.contains(y) {
                    let j = choose|j: int| 0 <= j < next.len() && next[j] == y;
                    if j < i {
                        assert(part[j] == y);
                    }
                }
                if part.contains(y) {
                    let j = choose|j: int| 0 <= j < part.len() && part[j] == y;
                    assert(next[j] == y);
                }
                assert(next[i as int] == x);
                if before.contains(y) {
                    let j = choose|j: int| 0 <= j < before.len() && before[j] == y;
                    assert(kept@[j] == y);
                }
                if kept@.contains(y) {
                    let j = choose|j: int| 0 <= j < kept@.len() && kept@[j] == y;
                    if j < before.len() {
                        assert(before[j] == y);
                    }
                }
                if x != begin_sequence {
                    assert(kept@[before.len() as int] == x);
                }
            }
        }
        i = i + 1;
    }
    proof {
        assert(fences.open@.take(fences.open@.len() as int) =~= fences.open@);
    }
    fences.open = kept;
    proof {
        assert(fences@ =~= old(fences)@.remove(begin_sequence));
    }
}

/// The lowest fence held.
pub fn min_fence(fences: &Fences) -> (r: Option<u64>)
    ensures
        match r {
            Some(f) => fences@.contains(f) && forall|x: u64| #[trigger] fences@.contains(x) ==> f <= x,
            None => fences@ == Set::<u64>::empty(),
        },
{
    let mut best: Option<u64> = None;
    let mut i: usize = 0;
    while i < fences.open.len()
        invariant
            i <= fences.open.len(),
            match best {
                Some(f) => fences.open@.contains(f) && forall|j: int| 0 <= j < i ==> f <= #[trigger] fences.open@[j],
                None => i == 0,
            },
        decreases fences.open.len() - i,
    {
        let x: u64 = fences.open[i];
        best = match best {
            Some(f) => Some(
                if x < f {
                    x
                } else {
                    f
                },
            ),
            None => Some(x),
        };
        i = i + 1;
    }
    proof {
        if best is None {
            assert(fences@ =~= Set::<u64>::empty());
        }
    }
    best
}

/// `value` is the highest checkpoint that the fences allow.
pub open spec fn is_ceiling(fences: Set<u64>, value: u64) -> bool {
    if fences == Set::<u64>::empty() {
        value == u64::MAX
    } else {
        exists|f: u64| {
            &&& fences.contains(f)
            &&& forall|x: u64| #[trigger] fences.contains(x) ==> f <= x
            &&& #[trigger] below(f) == value
        }
    }
}

/// The number before `n`, or 0.
pub open spec fn below(n: u64) -> u64 {
    if n == 0 {
        0
    } else {
        (n - 1) as u64
    }
}

/// The highest checkpoint that the fences allow.
pub fn ceiling(fences: &Fences) -> (r: u64)
    ensures
        is_ceiling(fences@, r),
{
    match min_fence(fences) {
        Some(fence) => {
            let r: u64 = if fence == 0 { 0 } else { fence - 1 };
            proof {
                assert(fences@ != Set::<u64>::empty());
                assert(below(fence) == r);
            }
            r
        },
        None => u64::MAX,
    }
}

/// All bytes are decimal digits.
pub open spec fn all_digits(s: Seq<u8>) -> bool {
    forall|i: int| 0 <= i < s.len() ==> is_digit(#[trigger] s[i])
}

/// The number that digits stand for, if a `u64` holds it.
pub open spec fn digits_checkpoint(digits: Seq<u8>) -> Result<u64, CheckpointError> {
    if digits_value(digits) > u64::MAX {
        Err(CheckpointError::TooLarge)
    } else {
        Ok(digits_value(digits) as u64)
    }
}

/// A file's contents without the newline at their end, if there is one.
pub open spec fn line_of(bytes: Seq<u8>) -> Seq<u8> {
    if bytes.len() > 0 && bytes.last() == 0x0a {
        bytes.drop_last()
    } else {
        bytes
    }
}

/// The checkpoint that a file's contents stand for. No file and an empty
/// file are 0; anything but one decimal number, perhaps with a newline after
/// it, is an error.
pub open spec fn checkpoint_of(file: Option<Seq<u8>>) -> Result<u64, CheckpointError> {
    match file {
        None => Ok(0),
        Some(bytes) => if bytes.len() == 0 {
            Ok(0)
        } else if bytes.len() > MAX_CHECKPOINT_FILE_LEN {
            Err(CheckpointError::TooLong(bytes.len() as usize))
        } else if line_of(bytes).len() > 0 && all_digits(line_of(bytes)) {
            digits_checkpoint(line_of(bytes))
        } else if !valid_utf8(bytes) {
            Err(CheckpointError::NotUtf8)
        } else if trimmed_text(decode_utf8(bytes)).len() == 0 {
            Err(CheckpointError::Blank)
        } else {
            Err(CheckpointError::NotDecimal)
        },
    }
}

fn only_digits(s: &[u8]) -> (r: bool)
    ensures
        r == all_digits(s@),
{
    let mut i: usize = 0;
    while i < s.len()
        invariant
            i <= s.len(),
            forall|j: int| 0 <= j < i ==> is_digit(#[trigger] s@[j]),
        decreases s.len() - i,
    {
        if s[i] < 0x30 || s[i] > 0x39 {
            proof {
                assert(!is_digit(s@[i as int]));
            }
            return false;
        }
        i = i + 1;
    }
    true
}

/// Reads the checkpoint from a file's contents.
pub fn read(file: Option<&[u8]>) -> (r: Result<u64, CheckpointError>)
    ensures
        r == checkpoint_of(
            match file {
                Some(bytes) => Some(bytes@),
                None => None,
            },
        ),
{
    let bytes = match file {
        Some(bytes) => bytes,
        None => { return Ok(0) },
    };
    if bytes.len() == 0 {
        return Ok(0);
    }
    if bytes.len() > MAX_CHECKPOINT_FILE_LEN {
        return Err(CheckpointError::TooLong(bytes.len()));
    }
    let len: usize = if bytes[bytes.len() - 1] == 0x0a {
        bytes.len() - 1
    } else {
        bytes.len()
    };
    let line = copy_range(bytes, 0, len);
    proof {
        assert(line@ =~= line_of(bytes@));
    }
    if len > 0 && only_digits(&line) {
        return match parse_digits(&line) {
            Some(n) => Ok(n),
            None => Err(CheckpointError::TooLarge),
        };
    }
    match from_utf8(bytes) {
        Some(text) => if trim(text).is_empty() {
            Err(CheckpointError::Blank)
        } else {
            Err(CheckpointError::NotDecimal)
        },
        None => Err(CheckpointError::NotUtf8),
    }
}

/// The contents of a checkpoint file for `sequence`.
pub fn write_value(sequence: u64) -> (r: Vec<u8>)
    ensures
        r@ == digits_of(sequence as nat),
        checkpoint_of(Some(r@)) == Ok::<u64, CheckpointError>(sequence),
{
    let r = to_digits(sequence);
    proof {
        law_checkpoint_round_trip(sequence);
    }
    r
}

/// A checkpoint that was written reads back as the number it is.
pub proof fn law_checkpoint_round_trip(sequence: u64)
    ensures
        checkpoint_of(Some(digits_of(sequence as nat))) == Ok::<u64, CheckpointError>(sequence),
{
    let bytes = digits_of(sequence as nat);
    lemma_digits_round_trip(sequence as nat);
    crate::decimal::lemma_digits_len(sequence as nat);
}

/// Moves the checkpoint to `sequence`, as far as the fences allow: the
/// contents to write to the file, or none where it is there already.
pub fn advance(fences: &Fences, file: Option<&[u8]>, sequence: u64) -> (r: Result<Option<Vec<u8>>, CheckpointError>)
    ensures
        match checkpoint_of(
            match file {
                Some(bytes) => Some(bytes@),
                None => None,
            },
        ) {
            Err(e) => r == Err::<Option<Vec<u8>>, CheckpointError>(e),
            Ok(current) => exists|top: u64| #[trigger]
                is_ceiling(fences@, top) && {
                    let target = if sequence < top {
                        sequence
                    } else {
                        top
                    };
                    &&& r is Ok
                    &&& target <= current ==> r->Ok_0 is None
                    &&& target > current ==> r->Ok_0 is Some && (r->Ok_0)->0@ == digits_of(target as nat)
                        && checkpoint_of(Some((r->Ok_0)->0@)) == Ok::<u64, CheckpointError>(target)
                },
        },
{
    let current: u64 = match read(file) {
        Ok(current) => current,
        Err(e) => { return Err(e) },
    };
    let top: u64 = ceiling(fences);
    proof {
        assert(is_ceiling(fences@, top));
    }
    let target: u64 = if sequence < top { sequence } else { top };
    if target <= current {
        return Ok(None);
    }
    Ok(Some(write_value(target)))
}

/// A checkpoint that the fences allow lies below every fence that does not
/// begin at the first record of all.
pub proof fn law_checkpoint_below_fences(fences: Set<u64>, top: u64, target: u64, fence: u64)
    requires
        is_ceiling(fences, top),
        target <= top,
        fences.contains(fence),
        fence > 0,
    ensures
        target < fence,
{
    assert(fences != Set::<u64>::empty());
    let f = choose|f: u64| {
        &&& fences.contains(f)
        &&& forall|x: u64| #[trigger] fences.contains(x) ==> f <= x
        &&& #[trigger] below(f) == top
    };
    assert(f <= fence);
}

} // verus!
