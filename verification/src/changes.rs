//! The change feed: which nodes changed, read from the write-ahead log.
//!
//! A standalone record is one unit; so are the records of one transaction.
//! Only settled units are shown: a transaction at the end of the log whose
//! `COMMIT` may still come ends the scan in front of it.

use vstd::prelude::*;

use crate::text::own;
use crate::textmap::TextMap;
use crate::types::{Node, NodeView};
use crate::wal::{
    is_committed, records_view, CommittedTransactions, Operation, OperationView, WalOperation, WalRecord, WalRecordView,
    WalView, STANDALONE_TRANSACTION_ID,
};

verus! {

/// Changes in a page unless the caller says otherwise.
pub const DEFAULT_CHANGE_LIMIT: usize = 500;

/// Most changes that a caller may ask for at once.
pub const MAX_CHANGE_LIMIT: usize = 2000;

#[derive(Clone, Copy, PartialEq, Eq, Debug, Structural)]
pub enum ChangeKind {
    Created,
    Updated,
    Deleted,
}

/// One change to one node.
#[derive(Debug)]
pub struct ChangeRecord {
    pub seq: u64,
    pub change: ChangeKind,
    pub address: String,
    pub kind: String,
}

#[verifier::ext_equal]
pub struct ChangeView {
    pub seq: u64,
    pub change: ChangeKind,
    pub address: Seq<char>,
    pub kind: Seq<char>,
}

impl View for ChangeRecord {
    type V = ChangeView;

    open spec fn view(&self) -> ChangeView {
        ChangeView { seq: self.seq, change: self.change, address: self.address@, kind: self.kind@ }
    }
}

pub open spec fn changes_view(changes: Seq<ChangeRecord>) -> Seq<ChangeView> {
    Seq::new(changes.len(), |i: int| changes[i]@)
}

/// A page of changes, with the position to go on from.
#[derive(Debug)]
pub struct ChangePage {
    pub changes: Vec<ChangeRecord>,
    pub next: u64,
    /// Nothing settled is left after this page.
    pub complete: bool,
}

/// The log no longer holds the position asked for.
#[derive(Clone, Copy, PartialEq, Eq, Debug, Structural)]
pub struct ScanTooOld {
    pub requested: u64,
    pub earliest: u64,
    pub retained: usize,
}

/// Why the feed could not be read.
#[derive(Clone, Copy, PartialEq, Eq, Debug, Structural)]
pub enum ScanError {
    TooOld(ScanTooOld),
    /// The record at this sequence number does not come after the one before
    /// it by position.
    Order { sequence: u64 },
}

/// The position before which the log holds nothing. A log whose first
/// record is the first of all holds everything; an empty log starts where
/// the caller says.
pub open spec fn horizon_of(records: Seq<WalRecordView>, empty: u64) -> u64 {
    if records.len() == 0 {
        empty
    } else if records[0].sequence == 1 {
        0
    } else {
        records[0].operation_id
    }
}

pub fn horizon(records: &[WalRecord], empty: u64) -> (r: u64)
    ensures
        r == horizon_of(records_view(records@), empty),
{
    if records.len() == 0 {
        empty
    } else if records[0].sequence == 1 {
        0
    } else {
        records[0].operation_id
    }
}

/// Positions ascend in file order.
pub open spec fn positions_ascend(records: Seq<WalRecordView>) -> bool {
    forall|i: int|
        0 <= i < records.len() - 1 ==> #[trigger] step_up(records, i)
}

pub open spec fn step_up(records: Seq<WalRecordView>, i: int) -> bool {
    records[i].operation_id < records[i + 1].operation_id
}

/// The first record whose position does not lie past the one before it has
/// this sequence number.
pub open spec fn steps_down(records: Seq<WalRecordView>, sequence: u64) -> bool {
    exists|i: int| {
        &&& 0 <= i < records.len() - 1
        &&& !#[trigger] step_up(records, i)
        &&& records[i + 1].sequence == sequence
        &&& forall|j: int| 0 <= j < i ==> #[trigger] step_up(records, j)
    }
}

/// Refuses a log whose positions do not ascend in file order, with the first
/// record out of order.
pub fn validate_positions(records: &[WalRecord]) -> (r: Result<(), ScanError>)
    ensures
        match r {
            Ok(()) => positions_ascend(records_view(records@)),
            Err(e) => exists|i: int| {
                &&& 0 <= i < records@.len() - 1
                &&& !#[trigger] step_up(records_view(records@), i)
                &&& e == (ScanError::Order { sequence: records@[i + 1].sequence })
                &&& forall|j: int| 0 <= j < i ==> #[trigger] step_up(records_view(records@), j)
            },
        },
{
    let ghost view = records_view(records@);
    let mut i: usize = 1;
    while i < records.len()
        invariant
            view == records_view(records@),
            1 <= i,
            forall|j: int| 0 <= j < i - 1 && j < records@.len() - 1 ==> #[trigger] step_up(view, j),
        decreases records.len() - i,
    {
        if records[i].operation_id <= records[i - 1].operation_id {
            proof {
                assert(!step_up(view, i - 1));
            }
            return Err(ScanError::Order { sequence: records[i].sequence });
        }
        proof {
            assert(step_up(view, i - 1));
        }
        i = i + 1;
    }
    Ok(())
}

/// Where the unit that starts at `start` ends.
pub open spec fn unit_end(records: Seq<WalRecordView>, start: int) -> int {
    if records[start].transaction_id == STANDALONE_TRANSACTION_ID {
        start + 1
    } else {
        run_end(records, start, records[start].transaction_id)
    }
}

/// Where the run of records of one transaction that `at` is in ends.
pub open spec fn run_end(records: Seq<WalRecordView>, at: int, id: u64) -> int
    decreases records.len() - at,
{
    if 0 <= at < records.len() && records[at].transaction_id == id {
        run_end(records, at + 1, id)
    } else {
        at
    }
}

pub proof fn lemma_run_end(records: Seq<WalRecordView>, at: int, id: u64)
    requires
        0 <= at <= records.len(),
    ensures
        at <= run_end(records, at, id) <= records.len(),
        forall|i: int| at <= i < run_end(records, at, id) ==> (#[trigger] records[i]).transaction_id == id,
        run_end(records, at, id) < records.len() ==> records[run_end(records, at, id)].transaction_id != id,
    decreases records.len() - at,
{
    if at < records.len() && records[at].transaction_id == id {
        lemma_run_end(records, at + 1, id);
    }
}

/// The records of the unit that starts at `start`.
pub open spec fn unit_at(records: Seq<WalRecordView>, start: int) -> Seq<WalRecordView> {
    records.subrange(start, unit_end(records, start))
}

/// A unit ends past its start and within the log.
pub proof fn lemma_unit_end(records: Seq<WalRecordView>, start: int)
    requires
        0 <= start < records.len(),
    ensures
        start < unit_end(records, start) <= records.len(),
{
    lemma_run_end(records, start, records[start].transaction_id);
}

/// The unit that starts at `start`: a standalone record by itself, or the
/// records of one transaction together.
pub fn durable_unit(records: &[WalRecord], start: usize) -> (unit: &[WalRecord])
    requires
        start < records@.len(),
    ensures
        unit@ == records@.subrange(start as int, unit_end(records_view(records@), start as int)),
        records_view(unit@) == unit_at(records_view(records@), start as int),
        start < start + unit@.len() <= records@.len(),
{
    let ghost view = records_view(records@);
    let id: u64 = records[start].transaction_id;
    proof {
        lemma_unit_end(view, start as int);
    }
    let mut end: usize = start;
    if id == STANDALONE_TRANSACTION_ID {
        end = start + 1;
    } else {
        while end < records.len() && records[end].transaction_id == id
            invariant
                view == records_view(records@),
                start <= end <= records@.len(),
                run_end(view, end as int, id) == run_end(view, start as int, id),
            ensures
                end == run_end(view, start as int, id),
            decreases records.len() - end,
        {
            end = end + 1;
        }
    }
    let unit = vstd::slice::slice_subrange(records, start, end);
    proof {
        assert(records_view(unit@) =~= view.subrange(start as int, end as int));
    }
    unit
}

/// What a unit has come to.
#[derive(Clone, Copy, PartialEq, Eq, Debug, Structural)]
pub enum FrameState {
    Committed,
    /// It never happened and never will.
    Terminal,
    /// Its `COMMIT` may still come.
    InFlight,
}

/// What a unit has come to: standalone records and committed transactions
/// have happened; a transaction that was aborted, or that has records after
/// it, never will; any other may still.
pub open spec fn state_of(unit: Seq<WalRecordView>, committed: bool, is_tail: bool) -> FrameState {
    if unit.len() == 0 {
        FrameState::Terminal
    } else if unit[0].transaction_id == STANDALONE_TRANSACTION_ID || committed {
        FrameState::Committed
    } else if !is_tail || (exists|i: int| 0 <= i < unit.len() && (#[trigger] unit[i]).operation is Abort) {
        FrameState::Terminal
    } else {
        FrameState::InFlight
    }
}

/// What a unit has come to.
pub fn frame_state(unit: &[WalRecord], committed: &CommittedTransactions, is_tail: bool) -> (r: FrameState)
    ensures
        r == state_of(
            records_view(unit@),
            committed@.contains(records_view(unit@)[0].transaction_id),
            is_tail,
        ),
{
    let ghost view = records_view(unit@);
    if unit.len() == 0 {
        return FrameState::Terminal;
    }
    let id: u64 = unit[0].transaction_id;
    if id == STANDALONE_TRANSACTION_ID || committed.contains(id) {
        return FrameState::Committed;
    }
    let mut aborted: bool = false;
    let mut i: usize = 0;
    while i < unit.len()
        invariant
            i <= unit@.len(),
            view == records_view(unit@),
            aborted <==> exists|j: int| 0 <= j < i && (#[trigger] view[j]).operation is Abort,
        decreases unit.len() - i,
    {
        let ghost was = aborted;
        match &unit[i].operation {
            WalOperation::Abort => {
                aborted = true;
            },
            _ => {},
        }
        proof {
            assert(view[i as int] == unit@[i as int]@);
            if was {
                let j = choose|j: int| 0 <= j < i && (#[trigger] view[j]).operation is Abort;
                assert(0 <= j < i + 1 && view[j].operation is Abort);
            }
        }
        i = i + 1;
    }
    if aborted || !is_tail {
        FrameState::Terminal
    } else {
        FrameState::InFlight
    }
}

/// Whose eyes the feed is read with, and from where.
pub struct Lens<'a> {
    pub after: u64,
    pub owner: &'a str,
    pub is_admin: bool,
}

pub struct LensView {
    pub after: u64,
    pub owner: Seq<char>,
    pub is_admin: bool,
}

impl<'a> View for Lens<'a> {
    type V = LensView;

    open spec fn view(&self) -> LensView {
        LensView { after: self.after, owner: self.owner@, is_admin: self.is_admin }
    }
}

/// The reader behind a lens may know of the node: it is public, or theirs,
/// or they are an admin.
pub open spec fn audience_admits(lens: LensView, subject: NodeView) -> bool {
    lens.is_admin || subject.readable_by(lens.owner)
}

/// A change as the lens shows it, or nothing.
pub open spec fn admitted(
    lens: LensView,
    seq: u64,
    change: ChangeKind,
    subject: NodeView,
    address: Seq<char>,
) -> Seq<ChangeView> {
    if seq <= lens.after || !audience_admits(lens, subject) {
        Seq::empty()
    } else {
        seq![ChangeView { seq, change, address, kind: subject.kind }]
    }
}

impl<'a> Lens<'a> {
    /// A change as the lens shows it, or none.
    pub fn let_through(&self, seq: u64, change: ChangeKind, subject: &Node, address: &str) -> (r: Option<ChangeRecord>)
        ensures
            match r {
                Some(c) => admitted(self@, seq, change, subject@, address@) == seq![c@],
                None => admitted(self@, seq, change, subject@, address@) == Seq::<ChangeView>::empty(),
            },
    {
        if seq <= self.after {
            return None;
        }
        if !(self.is_admin || subject.can_read(self.owner)) {
            return None;
        }
        Some(ChangeRecord { seq, change, address: own(address), kind: subject.kind.clone() })
    }
}

/// The states that a unit has archived by address.
pub open spec fn archived_after(unit: Seq<WalRecordView>, n: int) -> Map<Seq<char>, NodeView>
    decreases n,
{
    if n <= 0 {
        Map::empty()
    } else {
        let before = archived_after(unit, n - 1);
        match unit[n - 1].operation {
            WalView::Apply(OperationView::Archive(entry)) => before.insert(entry.address, entry.node),
            WalView::Apply(OperationView::Delete(address)) => before.remove(address),
            _ => before,
        }
    }
}

/// What the lens shows of the record at position `n` of a unit. An insert
/// over an archived state is an update; a delete is shown as the archived
/// state that it removed, and not at all where there is none.
pub open spec fn shown(unit: Seq<WalRecordView>, n: int, lens: LensView) -> Seq<ChangeView> {
    let archived = archived_after(unit, n);
    let seq = unit[n].operation_id;
    match unit[n].operation {
        WalView::Apply(OperationView::Insert(node)) => admitted(
            lens,
            seq,
            if archived.contains_key(node.address) {
                ChangeKind::Updated
            } else {
                ChangeKind::Created
            },
            node,
            node.address,
        ),
        WalView::Apply(OperationView::Delete(address)) => if archived.contains_key(address) {
            admitted(lens, seq, ChangeKind::Deleted, archived[address], address)
        } else {
            Seq::empty()
        },
        _ => Seq::empty(),
    }
}

/// What the lens shows of the first `n` records of a unit.
pub open spec fn shown_upto(unit: Seq<WalRecordView>, n: int, lens: LensView) -> Seq<ChangeView>
    decreases n,
{
    if n <= 0 {
        Seq::empty()
    } else {
        shown_upto(unit, n - 1, lens) + shown(unit, n - 1, lens)
    }
}

/// What the lens shows of a unit.
pub open spec fn unit_changes(unit: Seq<WalRecordView>, lens: LensView) -> Seq<ChangeView> {
    shown_upto(unit, unit.len() as int, lens)
}

spec fn nodes_of(m: Map<Seq<char>, Node>) -> Map<Seq<char>, NodeView> {
    m.map_values(|n: Node| n@)
}

/// Adds what the lens shows of a unit.
pub fn emit_unit<'a>(records: &[WalRecord], lens: &Lens<'a>, out: &mut Vec<ChangeRecord>)
    ensures
        changes_view(final(out)@) == changes_view(old(out)@) + unit_changes(
            records_view(records@),
            lens@,
        ),
{
    let ghost unit = records_view(records@);
    let mut archived: TextMap<Node> = TextMap::new();
    let mut i: usize = 0;
    proof {
        assert(nodes_of(archived@) =~= archived_after(unit, 0));
        assert(changes_view(out@) =~= changes_view(old(out)@) + shown_upto(unit, 0, lens@));
    }
    while i < records.len()
        invariant
            i <= records@.len(),
            unit == records_view(records@),
            archived.wf(),
            nodes_of(archived@) == archived_after(unit, i as int),
            changes_view(out@) == changes_view(old(out)@) + shown_upto(unit, i as int, lens@),
        decreases records.len() - i,
    {
        let record = &records[i];
        let ghost n = i as int;
        let ghost before = out@;
        let ghost held = archived@;
        proof {
            assert(unit[n] == record@);
        }
        let change: Option<ChangeRecord> = match &record.operation {
            WalOperation::Apply(Operation::Archive(entry)) => {
                archived.insert(entry.address.clone(), entry.node.copy());
                proof {
                    assert(nodes_of(archived@) =~= nodes_of(held).insert(entry@.address, entry@.node));
                }
                None
            },
            WalOperation::Apply(Operation::Insert(node)) => {
                let change = if archived.contains(&node.address) {
                    ChangeKind::Updated
                } else {
                    ChangeKind::Created
                };
                lens.let_through(record.operation_id, change, node, &node.address)
            },
            WalOperation::Apply(Operation::Delete(address)) => {
                let gone = archived.remove(address);
                proof {
                    assert(nodes_of(archived@) =~= nodes_of(held).remove(address@));
                }
                match gone {
                    Some(previous) => lens.let_through(record.operation_id, ChangeKind::Deleted, &previous, address),
                    None => None,
                }
            },
            _ => None,
        };
        match change {
            Some(c) => {
                out.push(c);
                proof {
                    assert(shown(unit, n, lens@) == seq![c@]);
                    assert(changes_view(out@) =~= changes_view(before).push(c@));
                    assert(changes_view(out@) =~= changes_view(old(out)@) + shown_upto(unit, n + 1, lens@));
                }
            },
            None => {
                proof {
                    assert(shown(unit, n, lens@) =~= Seq::<ChangeView>::empty());
                    assert(changes_view(out@) =~= changes_view(old(out)@) + shown_upto(unit, n + 1, lens@));
                }
            },
        }
        i = i + 1;
    }
}

/// The changes from `index` on, added to `sofar`, and whether nothing
/// settled is left. Units are shown whole, in file order; the scan ends in
/// front of a unit that may still settle, and at the end of a unit once
/// there are `limit` changes.
pub open spec fn feed(
    records: Seq<WalRecordView>,
    index: int,
    lens: LensView,
    limit: nat,
    sofar: Seq<ChangeView>,
) -> (Seq<ChangeView>, bool)
    decreases records.len() - index,
{
    if index < 0 || index >= records.len() {
        (sofar, true)
    } else {
        let end = unit_end(records, index);
        let unit = unit_at(records, index);
        let state = state_of(unit, is_committed(records, records[index].transaction_id), end == records.len());
        if !(index < end <= records.len()) || state == FrameState::InFlight {
            (sofar, true)
        } else if state == FrameState::Terminal || records[end - 1].operation_id <= lens.after {
            feed(records, end, lens, limit, sofar)
        } else {
            let now = sofar + unit_changes(unit, lens);
            if now.len() >= limit && end < records.len() {
                (now, false)
            } else {
                feed(records, end, lens, limit, now)
            }
        }
    }
}

/// The position to go on from: that of the last change shown.
pub open spec fn next_position(changes: Seq<ChangeView>, after: u64) -> u64 {
    if changes.len() == 0 {
        after
    } else {
        changes.last().seq
    }
}

/// What reading the feed gives.
pub open spec fn scans(
    r: Result<ChangePage, ScanError>,
    records: Seq<WalRecordView>,
    empty: u64,
    after: u64,
    limit: usize,
    owner: Seq<char>,
    is_admin: bool,
) -> bool {
    match r {
        Ok(page) => {
            &&& after >= horizon_of(records, empty)
            &&& positions_ascend(records)
            &&& (changes_view(page.changes@), page.complete) == feed(
                records,
                0,
                (LensView { after, owner, is_admin }),
                limit as nat,
                Seq::empty(),
            )
            &&& page.next == next_position(changes_view(page.changes@), after)
        },
        Err(ScanError::TooOld(old)) => {
            &&& after < horizon_of(records, empty)
            &&& old == (ScanTooOld {
                requested: after,
                earliest: horizon_of(records, empty),
                retained: records.len() as usize,
            })
        },
        Err(ScanError::Order { sequence }) => {
            &&& after >= horizon_of(records, empty)
            &&& !positions_ascend(records)
            &&& steps_down(records, sequence)
        },
    }
}

/// Reads the feed past position `after`, as `owner` may see it. `empty` is
/// the horizon of a log without records.
pub fn scan(
    records: &[WalRecord],
    empty: u64,
    after: u64,
    limit: usize,
    owner: &str,
    is_admin: bool,
) -> (r: Result<ChangePage, ScanError>)
    ensures
        scans(r, records_view(records@), empty, after, limit, owner@, is_admin),
{
    let ghost view = records_view(records@);
    let earliest: u64 = horizon(records, empty);
    if after < earliest {
        return Err(
            ScanError::TooOld(ScanTooOld { requested: after, earliest, retained: records.len() }),
        );
    }
    match validate_positions(records) {
        Ok(()) => {},
        Err(e) => {
            proof {
                let i = choose|i: int| {
                    &&& 0 <= i < records@.len() - 1
                    &&& !#[trigger] step_up(view, i)
                    &&& e == (ScanError::Order { sequence: records@[i + 1].sequence })
                    &&& forall|j: int| 0 <= j < i ==> #[trigger] step_up(view, j)
                };
                assert(view[i + 1] == records@[i + 1]@);
                assert(!step_up(view, i));
            }
            return Err(e);
        },
    }
    let committed = crate::wal::classify_transactions(records);
    let lens = Lens { after, owner, is_admin };
    let mut changes: Vec<ChangeRecord> = Vec::new();
    let mut complete: bool = true;
    let mut next: u64 = after;
    let mut index: usize = 0;
    let ghost whole = feed(view, 0, lens@, limit as nat, Seq::empty());
    proof {
        assert(changes_view(changes@) =~= Seq::<ChangeView>::empty());
    }
    while index < records.len()
        invariant_except_break
            feed(view, index as int, lens@, limit as nat, changes_view(changes@)) == whole,
            complete,
        invariant
            view == records_view(records@),
            index <= records@.len(),
            forall|id: u64| #[trigger] committed@.contains(id) == is_committed(view, id),
            next == next_position(changes_view(changes@), after),
            lens.after == after,
        ensures
            (changes_view(changes@), complete) == whole,
        decreases records.len() - index,
    {
        let unit = durable_unit(records, index);
        let end: usize = index + unit.len();
        let state = frame_state(unit, &committed, end == records.len());
        proof {
            lemma_unit_end(view, index as int);
            assert(committed@.contains(view[index as int].transaction_id) == is_committed(
                view,
                view[index as int].transaction_id,
            ));
        }
        match state {
            FrameState::InFlight => {
                break;
            },
            FrameState::Terminal => {
                index = end;
                continue;
            },
            FrameState::Committed => {},
        }
        index = end;
        if unit[unit.len() - 1].operation_id <= after {
            continue;
        }
        emit_unit(unit, &lens, &mut changes);
        if changes.len() > 0 {
            next = changes[changes.len() - 1].seq;
        }
        if changes.len() >= limit && index < records.len() {
            complete = false;
            break;
        }
    }
    Ok(ChangePage { changes, next, complete })
}

/// Everything that a log has to show from `index` on.
pub open spec fn all_changes(records: Seq<WalRecordView>, index: int, lens: LensView) -> Seq<ChangeView>
    decreases records.len() - index,
{
    if index < 0 || index >= records.len() {
        Seq::empty()
    } else {
        let end = unit_end(records, index);
        let unit = unit_at(records, index);
        let state = state_of(unit, is_committed(records, records[index].transaction_id), end == records.len());
        if !(index < end <= records.len()) || state == FrameState::InFlight {
            Seq::empty()
        } else if state == FrameState::Terminal {
            all_changes(records, end, lens)
        } else {
            unit_changes(unit, lens) + all_changes(records, end, lens)
        }
    }
}

/// Changes in the order of their positions, all from `low` on and below
/// `high`.
spec fn rising(changes: Seq<ChangeView>, low: int, high: int) -> bool {
    &&& forall|i: int| 0 <= i < changes.len() ==> low <= (#[trigger] changes[i]).seq < high
    &&& forall|i: int, j: int| 0 <= i < j < changes.len() ==> (#[trigger] changes[i]).seq < (#[trigger] changes[j]).seq
}

proof fn lemma_rising_join(a: Seq<ChangeView>, b: Seq<ChangeView>, low: int, mid: int, high: int)
    requires
        rising(a, low, mid),
        rising(b, mid, high),
        low <= mid <= high,
    ensures
        rising(a + b, low, high),
{
    let c = a + b;
    assert forall|i: int| 0 <= i < c.len() implies low <= (#[trigger] c[i]).seq < high by {
        if i < a.len() {
            assert(c[i] == a[i]);
        } else {
            assert(c[i] == b[i - a.len()]);
        }
    }
    assert forall|i: int, j: int| 0 <= i < j < c.len() implies (#[trigger] c[i]).seq < (#[trigger] c[j]).seq by {
        if j < a.len() {
            assert(c[i] == a[i] && c[j] == a[j]);
        } else if i < a.len() {
            assert(c[i] == a[i] && c[j] == b[j - a.len()]);
        } else {
            assert(c[i] == b[i - a.len()] && c[j] == b[j - a.len()]);
        }
    }
}

proof fn lemma_positions(records: Seq<WalRecordView>, i: int, j: int)
    requires
        positions_ascend(records),
        0 <= i < j < records.len(),
    ensures
        records[i].operation_id < records[j].operation_id,
    decreases j - i,
{
    assert(step_up(records, j - 1));
    if i < j - 1 {
        lemma_positions(records, i, j - 1);
    }
}

spec fn past(b: u64) -> spec_fn(ChangeView) -> bool {
    |c: ChangeView| c.seq > b
}

spec fn from(lens: LensView, b: u64) -> LensView {
    LensView { after: b, ..lens }
}

/// The position after the last record before `n` of a unit.
spec fn mark(unit: Seq<WalRecordView>, n: int) -> int {
    if n <= 0 {
        unit[0].operation_id as int
    } else {
        unit[n - 1].operation_id + 1
    }
}

proof fn lemma_shown_upto(unit: Seq<WalRecordView>, n: int, lens: LensView, b: u64)
    requires
        positions_ascend(unit),
        0 <= n <= unit.len(),
        unit.len() > 0,
        lens.after <= b,
    ensures
        rising(shown_upto(unit, n, lens), mark(unit, 0), mark(unit, n)),
        shown_upto(unit, n, from(lens, b)) == shown_upto(unit, n, lens).filter(past(b)),
        mark(unit, 0) <= mark(unit, n),
    decreases n,
{
    reveal(Seq::filter);
    broadcast use Seq::filter_distributes_over_add;

    if n == 0 {
        assert(shown_upto(unit, 0, lens).filter(past(b)) =~= Seq::<ChangeView>::empty());
    } else {
        lemma_shown_upto(unit, n - 1, lens, b);
        if n >= 2 {
            lemma_positions(unit, n - 2, n - 1);
            lemma_positions(unit, 0, n - 1);
        }
        let one = shown(unit, n - 1, lens);
        assert(rising(one, mark(unit, n - 1), mark(unit, n)));
        lemma_rising_join(
            shown_upto(unit, n - 1, lens),
            one,
            mark(unit, 0),
            mark(unit, n - 1),
            mark(unit, n),
        );
        assert(one.len() <= 1);
        if one.len() == 1 {
            if one[0].seq > b {
                lemma_filter_all(one, b);
            } else {
                lemma_filter_none(one, b);
            }
        } else {
            assert(one.filter(past(b)) =~= one);
        }
        assert(shown(unit, n - 1, from(lens, b)) =~= one.filter(past(b)));
    }
}

spec fn start_mark(records: Seq<WalRecordView>, index: int) -> int {
    if 0 <= index < records.len() {
        records[index].operation_id as int
    } else {
        u64::MAX + 1
    }
}

proof fn lemma_all(records: Seq<WalRecordView>, index: int, lens: LensView, b: u64)
    requires
        positions_ascend(records),
        0 <= index <= records.len(),
        lens.after <= b,
    ensures
        rising(all_changes(records, index, lens), start_mark(records, index), u64::MAX + 1),
        all_changes(records, index, from(lens, b)) == all_changes(records, index, lens).filter(past(b)),
    decreases records.len() - index,
{
    reveal(Seq::filter);
    broadcast use Seq::filter_distributes_over_add;

    assert(Seq::<ChangeView>::empty().filter(past(b)) =~= Seq::<ChangeView>::empty());
    if index < records.len() {
        lemma_unit_end(records, index);
        let end = unit_end(records, index);
        let unit = unit_at(records, index);
        let state = state_of(unit, is_committed(records, records[index].transaction_id), end == records.len());
        lemma_all(records, end, lens, b);
        assert forall|i: int| 0 <= i < unit.len() - 1 implies #[trigger] step_up(unit, i) by {
            assert(step_up(records, index + i));
        }
        lemma_shown_upto(unit, unit.len() as int, lens, b);
        assert(unit[0] == records[index]);
        assert(unit.last() == records[end - 1]);
        if end < records.len() {
            lemma_positions(records, end - 1, end);
            lemma_positions(records, index, end);
        }
        let first = unit_changes(unit, lens);
        assert(rising(first, start_mark(records, index), start_mark(records, end)));
        if state == FrameState::Committed {
            lemma_rising_join(
                first,
                all_changes(records, end, lens),
                start_mark(records, index),
                start_mark(records, end),
                u64::MAX + 1,
            );
        } else if state == FrameState::Terminal {
            assert(rising(all_changes(records, end, lens), start_mark(records, index), u64::MAX + 1));
        }
    }
}

/// A unit that lies before the position shows nothing.
proof fn lemma_skipped(unit: Seq<WalRecordView>, n: int, lens: LensView)
    requires
        positions_ascend(unit),
        0 <= n <= unit.len(),
        unit.len() > 0,
        unit.last().operation_id <= lens.after,
    ensures
        shown_upto(unit, n, lens) == Seq::<ChangeView>::empty(),
    decreases n,
{
    if n > 0 {
        lemma_skipped(unit, n - 1, lens);
        if n < unit.len() {
            lemma_positions(unit, n - 1, unit.len() - 1);
        }
        assert(shown_upto(unit, n, lens) =~= Seq::<ChangeView>::empty());
    }
}

/// What the scan leaves for later: it takes the front of what there is.
proof fn lemma_feed(
    records: Seq<WalRecordView>,
    index: int,
    lens: LensView,
    limit: nat,
    sofar: Seq<ChangeView>,
) -> (rest: Seq<ChangeView>)
    requires
        positions_ascend(records),
        0 <= index <= records.len(),
    ensures
        feed(records, index, lens, limit, sofar).0 + rest == sofar + all_changes(records, index, lens),
        feed(records, index, lens, limit, sofar).1 ==> rest.len() == 0,
        !feed(records, index, lens, limit, sofar).1 ==> feed(records, index, lens, limit, sofar).0.len() >= limit,
    decreases records.len() - index,
{
    if index < records.len() {
        lemma_unit_end(records, index);
        let end = unit_end(records, index);
        let unit = unit_at(records, index);
        let state = state_of(unit, is_committed(records, records[index].transaction_id), end == records.len());
        assert forall|i: int| 0 <= i < unit.len() - 1 implies #[trigger] step_up(unit, i) by {
            assert(step_up(records, index + i));
        }
        let now = sofar + unit_changes(unit, lens);
        if state == FrameState::InFlight {
            assert(sofar + Seq::<ChangeView>::empty() =~= sofar + all_changes(records, index, lens));
            Seq::empty()
        } else if state == FrameState::Terminal {
            lemma_feed(records, end, lens, limit, sofar)
        } else if records[end - 1].operation_id <= lens.after {
            assert(unit.last() == records[end - 1]);
            lemma_skipped(unit, unit.len() as int, lens);
            assert(all_changes(records, index, lens) =~= all_changes(records, end, lens));
            lemma_feed(records, end, lens, limit, sofar)
        } else {
            assert(now + all_changes(records, end, lens) =~= sofar + all_changes(records, index, lens));
            if now.len() >= limit && end < records.len() {
                all_changes(records, end, lens)
            } else {
                lemma_feed(records, end, lens, limit, now)
            }
        }
    } else {
        assert(sofar + Seq::<ChangeView>::empty() =~= sofar + all_changes(records, index, lens));
        Seq::empty()
    }
}

proof fn lemma_filter_all(s: Seq<ChangeView>, b: u64)
    requires
        forall|i: int| 0 <= i < s.len() ==> (#[trigger] s[i]).seq > b,
    ensures
        s.filter(past(b)) == s,
    decreases s.len(),
{
    reveal(Seq::filter);
    if s.len() > 0 {
        let init = s.drop_last();
        assert forall|i: int| 0 <= i < init.len() implies (#[trigger] init[i]).seq > b by {
            assert(init[i] == s[i]);
        }
        lemma_filter_all(init, b);
        assert(s.last().seq > b);
        assert(init.push(s.last()) =~= s);
    }
}

proof fn lemma_filter_none(s: Seq<ChangeView>, b: u64)
    requires
        forall|i: int| 0 <= i < s.len() ==> (#[trigger] s[i]).seq <= b,
    ensures
        s.filter(past(b)) == Seq::<ChangeView>::empty(),
    decreases s.len(),
{
    reveal(Seq::filter);
    if s.len() > 0 {
        let init = s.drop_last();
        assert forall|i: int| 0 <= i < init.len() implies (#[trigger] init[i]).seq <= b by {
            assert(init[i] == s[i]);
        }
        lemma_filter_none(init, b);
        assert(s.last().seq <= b);
    }
}

/// Going on from where a page ended misses nothing and shows nothing twice:
/// the page, followed by everything past its last position, is everything.
/// A page says that it is complete only where nothing is left, and otherwise
/// holds at least `limit` changes.
pub proof fn law_pages_join(records: Seq<WalRecordView>, lens: LensView, limit: nat)
    requires
        positions_ascend(records),
    ensures
        ({
            let (page, complete) = feed(records, 0, lens, limit, Seq::empty());
            let next = next_position(page, lens.after);
            &&& page + all_changes(records, 0, LensView { after: next, ..lens }) == all_changes(records, 0, lens)
            &&& complete ==> page == all_changes(records, 0, lens)
            &&& !complete ==> page.len() >= limit
        }),
{
    broadcast use Seq::filter_distributes_over_add;

    let (page, complete) = feed(records, 0, lens, limit, Seq::empty());
    let next = next_position(page, lens.after);
    let everything = all_changes(records, 0, lens);
    let rest = lemma_feed(records, 0, lens, limit, Seq::empty());
    assert(Seq::<ChangeView>::empty() + everything =~= everything);
    if complete {
        assert(page + rest =~= page);
    }
    if page.len() == 0 {
        assert(LensView { after: next, ..lens } == lens);
        assert(page + everything =~= everything);
    } else {
        lemma_above(records, 0, lens);
        assert((page + rest)[page.len() - 1] == page.last());
        assert(next >= lens.after);
        lemma_all(records, 0, lens, next);
        assert forall|i: int| 0 <= i < page.len() implies (#[trigger] page[i]).seq <= next by {
            assert((page + rest)[i] == page[i]);
        }
        assert forall|i: int| 0 <= i < rest.len() implies (#[trigger] rest[i]).seq > next by {
            assert((page + rest)[page.len() + i] == rest[i]);
        }
        lemma_filter_none(page, next);
        lemma_filter_all(rest, next);
        assert(everything.filter(past(next)) =~= rest);
    }
}

proof fn lemma_shown_above(unit: Seq<WalRecordView>, n: int, lens: LensView)
    requires
        0 <= n <= unit.len(),
    ensures
        forall|i: int| 0 <= i < shown_upto(unit, n, lens).len() ==> (#[trigger] shown_upto(unit, n, lens)[i]).seq > lens.after,
    decreases n,
{
    if n > 0 {
        lemma_shown_above(unit, n - 1, lens);
    }
}

proof fn lemma_above(records: Seq<WalRecordView>, index: int, lens: LensView)
    requires
        0 <= index <= records.len(),
    ensures
        forall|i: int|
            0 <= i < all_changes(records, index, lens).len() ==> (#[trigger] all_changes(records, index, lens)[i]).seq
                > lens.after,
    decreases records.len() - index,
{
    if index < records.len() {
        lemma_unit_end(records, index);
        lemma_above(records, unit_end(records, index), lens);
        let unit = unit_at(records, index);
        lemma_shown_above(unit, unit.len() as int, lens);
    }
}

/// What a log has to show rises strictly, and lies past where the reader is.
pub proof fn law_changes_rise(records: Seq<WalRecordView>, lens: LensView)
    requires
        positions_ascend(records),
    ensures
        ({
            let all = all_changes(records, 0, lens);
            &&& forall|i: int, j: int| 0 <= i < j < all.len() ==> (#[trigger] all[i]).seq < (#[trigger] all[j]).seq
            &&& forall|i: int| 0 <= i < all.len() ==> (#[trigger] all[i]).seq > lens.after
        }),
{
    lemma_all(records, 0, lens, lens.after);
    lemma_above(records, 0, lens);
}

/// The pages of a walk through the feed: each goes on where the one before it
/// ended, and the last says that it is complete.
pub open spec fn is_feed_walk(
    pages: Seq<(Seq<ChangeView>, bool)>,
    records: Seq<WalRecordView>,
    lens: LensView,
    limit: nat,
) -> bool
    decreases pages.len(),
{
    &&& pages.len() > 0
    &&& pages[0] == feed(records, 0, lens, limit, Seq::empty())
    &&& if pages.len() == 1 {
        pages[0].1
    } else {
        !pages[0].1 && is_feed_walk(
            pages.skip(1),
            records,
            LensView { after: next_position(pages[0].0, lens.after), ..lens },
            limit,
        )
    }
}

/// The changes of pages, one after another.
pub open spec fn changes_of(pages: Seq<(Seq<ChangeView>, bool)>) -> Seq<ChangeView>
    decreases pages.len(),
{
    if pages.len() == 0 {
        Seq::empty()
    } else {
        pages[0].0 + changes_of(pages.skip(1))
    }
}

/// A walk through the feed shows everything that the log has to show past
/// where it starts, in rising order and nothing twice.
pub proof fn law_feed_walk_shows_everything(
    pages: Seq<(Seq<ChangeView>, bool)>,
    records: Seq<WalRecordView>,
    lens: LensView,
    limit: nat,
)
    requires
        positions_ascend(records),
        is_feed_walk(pages, records, lens, limit),
    ensures
        changes_of(pages) == all_changes(records, 0, lens),
        forall|i: int, j: int|
            0 <= i < j < changes_of(pages).len() ==> (#[trigger] changes_of(pages)[i]).seq < (#[trigger] changes_of(
                pages,
            )[j]).seq,
        forall|i: int| 0 <= i < changes_of(pages).len() ==> (#[trigger] changes_of(pages)[i]).seq > lens.after,
    decreases pages.len(),
{
    law_pages_join(records, lens, limit);
    law_changes_rise(records, lens);
    let (page, complete) = pages[0];
    if pages.len() == 1 {
        assert(changes_of(pages.skip(1)) =~= Seq::<ChangeView>::empty());
        assert(changes_of(pages) =~= page);
    } else {
        let next = next_position(page, lens.after);
        law_feed_walk_shows_everything(pages.skip(1), records, LensView { after: next, ..lens }, limit);
    }
}

/// A unit begins at `at`, counted from one that begins at `start`; or the log
/// ends there.
pub open spec fn starts_unit(records: Seq<WalRecordView>, start: int, at: int) -> bool
    decreases records.len() - start,
{
    start == at || (0 <= start < records.len() && start < unit_end(records, start) <= records.len() && starts_unit(
        records,
        unit_end(records, start),
        at,
    ))
}

proof fn lemma_feed_stops(
    records: Seq<WalRecordView>,
    index: int,
    lens: LensView,
    limit: nat,
    sofar: Seq<ChangeView>,
) -> (at: int)
    requires
        positions_ascend(records),
        0 <= index <= records.len(),
    ensures
        starts_unit(records, index, at),
        feed(records, index, lens, limit, sofar).0 + all_changes(records, at, lens) == sofar + all_changes(
            records,
            index,
            lens,
        ),
    decreases records.len() - index,
{
    if index < records.len() {
        lemma_unit_end(records, index);
        let end = unit_end(records, index);
        let unit = unit_at(records, index);
        let state = state_of(unit, is_committed(records, records[index].transaction_id), end == records.len());
        assert forall|i: int| 0 <= i < unit.len() - 1 implies #[trigger] step_up(unit, i) by {
            assert(step_up(records, index + i));
        }
        let now = sofar + unit_changes(unit, lens);
        if state == FrameState::InFlight {
            index
        } else if state == FrameState::Terminal {
            lemma_feed_stops(records, end, lens, limit, sofar)
        } else if records[end - 1].operation_id <= lens.after {
            assert(unit.last() == records[end - 1]);
            lemma_skipped(unit, unit.len() as int, lens);
            assert(all_changes(records, index, lens) =~= all_changes(records, end, lens));
            lemma_feed_stops(records, end, lens, limit, sofar)
        } else {
            assert(now + all_changes(records, end, lens) =~= sofar + all_changes(records, index, lens));
            if now.len() >= limit && end < records.len() {
                assert(starts_unit(records, end, end));
                end
            } else {
                lemma_feed_stops(records, end, lens, limit, now)
            }
        }
    } else {
        index
    }
}

/// No unit is split over two pages: a page shows everything of the units
/// before the one where it stops, and nothing of the others.
pub proof fn law_pages_split_no_unit(records: Seq<WalRecordView>, lens: LensView, limit: nat) -> (at: int)
    requires
        positions_ascend(records),
    ensures
        starts_unit(records, 0, at),
        feed(records, 0, lens, limit, Seq::empty()).0 + all_changes(records, at, lens) == all_changes(records, 0, lens),
{
    let at = lemma_feed_stops(records, 0, lens, limit, Seq::empty());
    assert(Seq::<ChangeView>::empty() + all_changes(records, 0, lens) =~= all_changes(records, 0, lens));
    at
}

/// The log justifies the change to this reader: it stems from a record of a
/// unit that has happened, and the reader may know of the node inserted, or
/// of the archived state that the delete removed.
pub open spec fn justified(records: Seq<WalRecordView>, lens: LensView, change: ChangeView) -> bool {
    exists|n: int| {
        &&& 0 <= n < records.len()
        &&& #[trigger] records[n].operation_id == change.seq
        &&& records[n].transaction_id == STANDALONE_TRANSACTION_ID || is_committed(
            records,
            records[n].transaction_id,
        )
        &&& match records[n].operation {
            WalView::Apply(OperationView::Insert(node)) => {
                &&& change.change != ChangeKind::Deleted
                &&& change.address == node.address
                &&& change.kind == node.kind
                &&& audience_admits(lens, node)
            },
            WalView::Apply(OperationView::Delete(address)) => {
                &&& change.change == ChangeKind::Deleted
                &&& change.address == address
                &&& exists|m: int| #[trigger] archives(records, m, n, address, change.kind, lens)
            },
            _ => false,
        }
    }
}

/// The record at `m`, before the one at `n` and of the same transaction,
/// archives a state of the address that the reader may know of.
pub open spec fn archives(
    records: Seq<WalRecordView>,
    m: int,
    n: int,
    address: Seq<char>,
    kind: Seq<char>,
    lens: LensView,
) -> bool {
    &&& 0 <= m < n
    &&& records[m].transaction_id == records[n].transaction_id
    &&& records[m].operation matches WalView::Apply(OperationView::Archive(entry))
    &&& entry.address == address
    &&& entry.node.kind == kind
    &&& audience_admits(lens, entry.node)
}

proof fn lemma_archived_from(unit: Seq<WalRecordView>, n: int, address: Seq<char>) -> (m: int)
    requires
        0 <= n <= unit.len(),
        archived_after(unit, n).contains_key(address),
    ensures
        0 <= m < n,
        unit[m].operation matches WalView::Apply(OperationView::Archive(entry)) && entry.address == address
            && entry.node == archived_after(unit, n)[address],
    decreases n,
{
    match unit[n - 1].operation {
        WalView::Apply(OperationView::Archive(entry)) => if entry.address == address {
            n - 1
        } else {
            lemma_archived_from(unit, n - 1, address)
        },
        _ => lemma_archived_from(unit, n - 1, address),
    }
}

proof fn lemma_unit_same(records: Seq<WalRecordView>, index: int)
    requires
        0 <= index < records.len(),
    ensures
        forall|i: int|
            index <= i < unit_end(records, index) ==> (#[trigger] records[i]).transaction_id
                == records[index].transaction_id,
{
    lemma_run_end(records, index, records[index].transaction_id);
}

proof fn lemma_shown_justified(records: Seq<WalRecordView>, index: int, n: int, lens: LensView)
    requires
        0 <= index < records.len(),
        0 <= n <= unit_at(records, index).len(),
        records[index].transaction_id == STANDALONE_TRANSACTION_ID || is_committed(
            records,
            records[index].transaction_id,
        ),
    ensures
        forall|i: int|
            0 <= i < shown_upto(unit_at(records, index), n, lens).len() ==> justified(
                records,
                lens,
                #[trigger] shown_upto(unit_at(records, index), n, lens)[i],
            ),
    decreases n,
{
    let unit = unit_at(records, index);
    lemma_unit_end(records, index);
    lemma_unit_same(records, index);
    if n > 0 {
        lemma_shown_justified(records, index, n - 1, lens);
        let now = shown_upto(unit, n, lens);
        let before = shown_upto(unit, n - 1, lens);
        let one = shown(unit, n - 1, lens);
        let at = index + n - 1;
        assert(unit[n - 1] == records[at]);
        assert forall|i: int| 0 <= i < now.len() implies justified(records, lens, #[trigger] now[i]) by {
            if i < before.len() {
                assert(now[i] == before[i]);
            } else {
                assert(now[i] == one[0]);
                let change = one[0];
                match unit[n - 1].operation {
                    WalView::Apply(OperationView::Delete(address)) => {
                        let m = lemma_archived_from(unit, n - 1, address);
                        assert(unit[m] == records[index + m]);
                        assert(archives(records, index + m, at, address, change.kind, lens));
                    },
                    _ => {},
                }
                assert(records[at].operation_id == change.seq);
            }
        }
    }
}

/// Only what has happened is shown, and only to those who may know of it:
/// every change of a page stems from a standalone record or a committed
/// transaction, lies past the position asked for, and concerns a node, or
/// the archived state of a deleted node, that the reader may know of.
pub proof fn law_feed_shows_only_settled(
    records: Seq<WalRecordView>,
    index: int,
    lens: LensView,
    limit: nat,
    sofar: Seq<ChangeView>,
)
    requires
        0 <= index <= records.len(),
        forall|i: int|
            0 <= i < sofar.len() ==> justified(records, lens, #[trigger] sofar[i]) && sofar[i].seq > lens.after,
    ensures
        forall|i: int|
            0 <= i < feed(records, index, lens, limit, sofar).0.len() ==> {
                let change = #[trigger] feed(records, index, lens, limit, sofar).0[i];
                justified(records, lens, change) && change.seq > lens.after
            },
    decreases records.len() - index,
{
    if index < records.len() {
        lemma_unit_end(records, index);
        let end = unit_end(records, index);
        let unit = unit_at(records, index);
        let state = state_of(unit, is_committed(records, records[index].transaction_id), end == records.len());
        if state == FrameState::InFlight {
        } else if state == FrameState::Terminal || records[end - 1].operation_id <= lens.after {
            law_feed_shows_only_settled(records, end, lens, limit, sofar);
        } else {
            let now = sofar + unit_changes(unit, lens);
            assert(unit[0] == records[index]);
            lemma_shown_justified(records, index, unit.len() as int, lens);
            lemma_shown_above(unit, unit.len() as int, lens);
            assert forall|i: int| 0 <= i < now.len() implies justified(records, lens, #[trigger] now[i]) && now[i].seq
                > lens.after by {
                if i < sofar.len() {
                    assert(now[i] == sofar[i]);
                } else {
                    assert(now[i] == unit_changes(unit, lens)[i - sofar.len()]);
                }
            }
            if !(now.len() >= limit && end < records.len()) {
                law_feed_shows_only_settled(records, end, lens, limit, now);
            }
        }
    }
}

} // verus!
