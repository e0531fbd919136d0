//! Checkpoints: what is in the log comes into the other files for good.

use vstd::prelude::*;

use crate::btree::TreeError;
use crate::checkpoint::{advance, checkpoint_of, is_ceiling, read, CheckpointError};
use crate::engine::pins::{needed, ready, unneeded};
use crate::engine::{charted, StorageEngine};
use crate::heap::{
    candidates, dropped, has_segment, ids_of, keeps, segment_index, sync_steps, undisturbed, StoreError, StoreStep,
    StoreView,
};
use crate::tables::compact::{damaged, lemma_spare_kept, DrainError};
use crate::tables::TableError;
use crate::wal::{ascending, lemma_filter_suffix, unsplit, WalRecordView, STANDALONE_TRANSACTION_ID};

verus! {

/// A segment is drained once half of its bytes are obsolete.
pub const COMPACTION_PART: u32 = 1;

pub const COMPACTION_WHOLE: u32 = 2;

/// Segments drained at one checkpoint.
pub const SEGMENTS_PER_COMPACTION: usize = 1;

/// What a checkpoint has the application do with the files, in this order.
#[derive(Debug)]
pub enum CheckpointStep {
    Heap(StoreStep),
    /// Write the pages of every index, and only then their meta pages.
    Indexes,
    /// Write the checkpoint's file.
    Checkpoint(Vec<u8>),
    /// Write the log anew.
    Log,
}

/// Why there is no checkpoint.
#[derive(Clone, Copy, PartialEq, Eq, Debug, Structural)]
pub enum CheckpointFault {
    /// A record could not be moved; nothing is lost.
    Drain(StoreError),
    /// There is no room: the database has to be opened again.
    Full(TableError),
    /// An index has no generations left.
    Index(TreeError),
    /// The checkpoint's file is no such file.
    File(CheckpointError),
    /// An earlier change went wrong half way; the database has to be opened
    /// again.
    Failed,
}

/// The segments that a checkpoint drains.
pub open spec fn drained_now(e: StorageEngine) -> Seq<u32> {
    let all = candidates(e.catalog(), COMPACTION_PART as nat, COMPACTION_WHOLE as nat);
    if all.len() < SEGMENTS_PER_COMPACTION {
        all
    } else {
        all.take(SEGMENTS_PER_COMPACTION as int)
    }
}

/// Segments with the epoch that no longer needs them.
pub open spec fn with_epoch(segments: Seq<u32>, epoch: u64) -> Seq<(u32, u64)> {
    Seq::new(segments.len(), |i: int| (segments[i], epoch))
}

pub open spec fn next_epoch(epoch: u64) -> u64 {
    if epoch == u64::MAX {
        u64::MAX
    } else {
        (epoch + 1) as u64
    }
}

/// Retired segments after a checkpoint, before any goes.
pub open spec fn retired_now(e: StorageEngine) -> Seq<(u32, u64)> {
    e.retired() + with_epoch(drained_now(e), next_epoch(e.epoch()))
}

pub open spec fn steps_view(steps: Seq<CheckpointStep>) -> Seq<CheckpointStepView> {
    Seq::new(steps.len(), |i: int| steps[i]@)
}

pub enum CheckpointStepView {
    Heap(StoreStep),
    Indexes,
    Checkpoint(Seq<u8>),
    Log,
}

impl View for CheckpointStep {
    type V = CheckpointStepView;

    open spec fn view(&self) -> CheckpointStepView {
        match *self {
            CheckpointStep::Heap(s) => CheckpointStepView::Heap(s),
            CheckpointStep::Indexes => CheckpointStepView::Indexes,
            CheckpointStep::Checkpoint(bytes) => CheckpointStepView::Checkpoint(bytes@),
            CheckpointStep::Log => CheckpointStepView::Log,
        }
    }
}

pub open spec fn heap_steps(steps: Seq<StoreStep>) -> Seq<CheckpointStepView> {
    Seq::new(steps.len(), |i: int| CheckpointStepView::Heap(steps[i]))
}

/// The steps that take segments away.
pub open spec fn drop_steps(segments: Seq<(u32, u64)>) -> Seq<CheckpointStepView>
    decreases segments.len(),
{
    if segments.len() == 0 {
        Seq::empty()
    } else {
        drop_steps(segments.drop_last()) + heap_steps(
            seq![StoreStep::SaveCatalog, StoreStep::Remove(segments.last().0)],
        )
    }
}

/// The records past a checkpoint.
pub open spec fn past_checkpoint(log: Seq<WalRecordView>, durable: u64) -> Seq<WalRecordView> {
    log.filter(|r: WalRecordView| r.sequence > durable)
}

/// The bytes that a file is, if it is there.
pub open spec fn file_view(file: Option<&[u8]>) -> Option<Seq<u8>> {
    match file {
        Some(bytes) => Some(bytes@),
        None => None,
    }
}

/// The checkpoint moves from `current` to `durable`: to what the tables have
/// carried out, as far as the fences allow.
pub open spec fn advances(e: StorageEngine, current: u64, durable: u64) -> bool {
    exists|top: u64| #[trigger]
        is_ceiling(e.fences(), top) && {
            let target = if e.applied() < top {
                e.applied()
            } else {
                top
            };
            durable == if target > current {
                target
            } else {
                current
            }
        }
}

/// The step that writes the checkpoint's file, if it moves.
pub open spec fn written_file(current: u64, durable: u64) -> Seq<CheckpointStepView> {
    if durable > current {
        seq![CheckpointStepView::Checkpoint(crate::decimal::digits_of(durable as nat))]
    } else {
        Seq::empty()
    }
}

/// The step that writes the log anew, if that is wanted.
pub open spec fn written_log(rotates: bool) -> Seq<CheckpointStepView> {
    if rotates {
        seq![CheckpointStepView::Log]
    } else {
        Seq::empty()
    }
}

/// The steps of a checkpoint.
pub open spec fn checkpoint_steps(
    steps: Seq<CheckpointStepView>,
    heap: StoreView,
    current: u64,
    durable: u64,
    rotates: bool,
    gone: Seq<(u32, u64)>,
) -> bool {
    steps == heap_steps(sync_steps(heap)) + seq![CheckpointStepView::Indexes] + written_file(current, durable)
        + written_log(rotates) + drop_steps(gone)
}

/// The heap without the segments that are gone.
pub open spec fn without(heap: StoreView, gone: Seq<(u32, u64)>) -> StoreView
    decreases gone.len(),
{
    if gone.len() == 0 {
        heap
    } else {
        dropped(without(heap, gone.drop_last()), gone.last().0)
    }
}

impl StorageEngine {
    /// Takes the retired segments away that no read needs.
    fn drop_unreferenced_segments(&mut self, steps: &mut Vec<CheckpointStep>)
        requires
            old(self).inv(),
            !old(self).failed(),
        ensures
            final(self).inv(),
            !final(self).failed(),
            final(self)@ == old(self)@,
            final(self).retired() == needed(old(self).readers(), old(self).retired()),
            final(self).heap() == without(old(self).heap(), ready(old(self).readers(), old(self).retired())),
            steps_view(final(steps)@) == steps_view(old(steps)@) + drop_steps(
                ready(old(self).readers(), old(self).retired()),
            ),
            final(self).log() == old(self).log(),
            final(self).readers() == old(self).readers(),
            final(self).epoch() == old(self).epoch(),
            final(self).limits() == old(self).limits(),
            final(self).pending() == old(self).pending(),
            final(self).applied() == old(self).applied(),
            final(self).last_operation() == old(self).last_operation(),
            final(self).last_transaction() == old(self).last_transaction(),
            final(self).last_sequence() == old(self).last_sequence(),
            final(self).writes() == old(self).writes(),
            final(self).reads() == old(self).reads(),
            old(self).settled() ==> final(self).settled(),
    {
        let ghost readers = self.readers@;
        let ghost all = self.retired@;
        let ghost go = |s: (u32, u64)| unneeded(readers, s);
        let ghost stay = |s: (u32, u64)| !unneeded(readers, s);
        let oldest = self.oldest_reader();
        let ghost first = steps_view(steps@);
        let mut kept: Vec<(u32, u64)> = Vec::new();
        let mut i: usize = 0;
        proof {
            reveal(Seq::filter);
            assert(all.take(0).filter(stay) =~= Seq::<(u32, u64)>::empty());
            assert(all.take(0).filter(go) =~= Seq::<(u32, u64)>::empty());
            assert(first + drop_steps(Seq::<(u32, u64)>::empty()) =~= first);
        }
        while i < self.retired.len()
            invariant
                i <= all.len(),
                all == self.retired@,
                self.inv(),
                !self.failed,
                self@ == old(self)@,
                self.same_apart(old(self)),
                self.retired@ == old(self).retired@,
                readers == self.readers@,
                go == (|s: (u32, u64)| unneeded(readers, s)),
                stay == (|s: (u32, u64)| !unneeded(readers, s)),
                match oldest {
                    Some(e) => readers.contains(e) && forall|k: int| 0 <= k < readers.len() ==> e <= #[trigger] readers[k],
                    None => readers.len() == 0,
                },
                kept@ == all.take(i as int).filter(stay),
                steps_view(steps@) == first + drop_steps(all.take(i as int).filter(go)),
                self.heap() == without(old(self).heap(), all.take(i as int).filter(go)),
                old(self).settled() ==> self.settled(),
            decreases self.retired.len() - i,
        {
            let (segment, epoch) = self.retired[i];
            let ghost it = all[i as int];
            proof {
                let next = all.take(i + 1);
                reveal(Seq::filter);
                assert(next.drop_last() =~= all.take(i as int));
                assert(next.last() == it);
            }
            let free: bool = match oldest {
                Some(pinned) => pinned >= epoch,
                None => true,
            };
            proof {
                assert(free == unneeded(readers, it)) by {
                    if oldest is Some {
                        let k = choose|k: int| 0 <= k < readers.len() && readers[k] == oldest->0;
                        assert(readers[k] == oldest->0);
                    }
                }
            }
            if free {
                let ghost before = *self;
                let ghost so_far = steps_view(steps@);
                proof {
                    assert(self.tables.spare(self.retired@[i as int].0));
                }
                let done = self.tables.drop_segment(segment, &mut self.cache);
                steps.push(CheckpointStep::Heap(done[0]));
                steps.push(CheckpointStep::Heap(done[1]));
                proof {
                    let gone = all.take(i as int).filter(go);
                    let more = gone.push(it);
                    assert(more.drop_last() =~= gone);
                    assert(more.last() == it);
                    assert(steps_view(steps@) =~= so_far + heap_steps(
                        seq![StoreStep::SaveCatalog, StoreStep::Remove(it.0)],
                    ));
                    assert(steps_view(steps@) =~= first + drop_steps(more));
                    assert forall|k: int| 0 <= k < self.retired@.len() implies self.tables.spare(
                        (#[trigger] self.retired@[k]).0,
                    ) by {
                        assert(before.tables.spare(before.retired@[k].0));
                        lemma_spare_kept(before.tables, self.tables, self.retired@[k].0);
                    }
                }
            } else {
                kept.push((segment, epoch));
            }
            i = i + 1;
        }
        proof {
            assert(all.take(all.len() as int) =~= all);
            assert forall|k: int| 0 <= k < kept@.len() implies self.tables.spare((#[trigger] kept@[k]).0) by {
                crate::seqs::lemma_filter_member(all, stay, k);
                let j = choose|j: int| 0 <= j < all.len() && all[j] == kept@[k];
                assert(self.tables.spare(self.retired@[j].0));
            }
        }
        self.retired = kept;
    }

    /// Only the tables, the cache and the retired segments may differ.
    closed spec fn same_apart(&self, start: &StorageEngine) -> bool {
        &&& self.wal == start.wal
        &&& self.fences == start.fences
        &&& self.limits == start.limits
        &&& self.reads_total == start.reads_total
        &&& self.writes_total == start.writes_total
        &&& self.applied_sequence == start.applied_sequence
        &&& self.pending_mutations == start.pending_mutations
        &&& self.epoch == start.epoch
        &&& self.readers == start.readers
        &&& self.failed == start.failed
    }
}

/// The checkpoint moves, and the log and the steps go by that.
pub open spec fn settles(
    steps: Seq<CheckpointStepView>,
    before: StorageEngine,
    after: StorageEngine,
    current: u64,
    rotates: bool,
) -> bool {
    exists|durable: u64, heap: StoreView|
        #[trigger] settles_at(steps, before, after, current, rotates, durable, heap)
}

/// The heap is that of the database with the live records moved out of the
/// segments that were drained. It is what the steps write, and is left as it
/// is but for the segments that go away.

pub open spec fn settles_at(
    steps: Seq<CheckpointStepView>,
    before: StorageEngine,
    after: StorageEngine,
    current: u64,
    rotates: bool,
    durable: u64,
    heap: StoreView,
) -> bool {
    let gone = ready(before.readers(), retired_now(before));
    &&& checkpoint_steps(steps, heap, current, durable, rotates, gone)
    &&& keeps(before.heap(), heap)
    &&& undisturbed(before.heap(), heap)
    &&& after.heap() == without(heap, gone)
    &&& advances(before, current, durable)
    &&& after.log() == (if rotates {
        past_checkpoint(before.log(), durable)
    } else {
        before.log()
    })
}

/// A record in a segment that is worth draining keeps it from being drained.
pub open spec fn undrainable(e: StorageEngine, cause: StoreError) -> bool {
    exists|k: int| 0 <= k < drained_now(e).len() && #[trigger] damaged(e.heap(), drained_now(e)[k], cause)
}

/// There is no checkpoint, and the database stays as it is.
pub open spec fn stays_put(before: StorageEngine, after: StorageEngine) -> bool {
    &&& !before.failed()
    &&& !after.failed()
    &&& after@ == before@
    &&& after.log() == before.log()
    &&& after.limits() == before.limits()
    &&& after.last_sequence() == before.last_sequence()
    &&& after.writes() == before.writes()
    &&& after.reads() == before.reads()
    &&& after.last_transaction() == before.last_transaction()
    &&& after.last_operation() == before.last_operation()
    &&& after.retired() == before.retired()
    &&& after.readers() == before.readers()
    &&& after.epoch() == before.epoch()
    &&& after.applied() == before.applied()
    &&& after.pending() == before.pending()
}

/// The outcome of a checkpoint.
pub open spec fn checkpoints(
    r: Result<Vec<CheckpointStep>, CheckpointFault>,
    before: StorageEngine,
    after: StorageEngine,
    file: Option<Seq<u8>>,
    rotates: bool,
) -> bool {
    match r {
        Ok(steps) => {
            &&& !before.failed()
            &&& !after.failed()
            &&& after@ == before@
            &&& after.settled()
            &&& after.pending() == 0
            &&& after.limits() == before.limits()
            &&& after.writes() == before.writes()
            &&& after.reads() == before.reads()
            &&& after.last_sequence() == before.last_sequence()
            &&& after.last_transaction() == before.last_transaction()
            &&& after.last_operation() == before.last_operation()
            &&& after.applied() == before.applied()
            &&& after.epoch() == next_epoch(before.epoch())
            &&& after.readers() == before.readers()
            &&& after.retired() == needed(before.readers(), retired_now(before))
            &&& checkpoint_of(file) is Ok
            &&& settles(steps_view(steps@), before, after, checkpoint_of(file)->Ok_0, rotates)
        },
        Err(CheckpointFault::Failed) => before.failed() && before.unmoved(&after),
        Err(CheckpointFault::Full(_)) => {
            &&& !before.failed()
            &&& after.failed()
            &&& !after.has_room()
            &&& after.log() == before.log()
        },
        Err(CheckpointFault::Drain(e)) => stays_put(before, after) && undrainable(before, e),
        Err(CheckpointFault::Index(_)) => stays_put(before, after) && after.worn(),
        Err(CheckpointFault::File(e)) => {
            &&& stays_put(before, after)
            &&& checkpoint_of(file) == Err::<u64, CheckpointError>(e)
        },
    }
}

impl StorageEngine {
    /// It is time for a checkpoint.
    pub fn checkpoint_due(&self) -> (r: bool)
        ensures
            r == (self.pending() >= self.limits().checkpoint_interval),
    {
        self.pending_mutations >= self.limits.checkpoint_interval
    }

    /// Drains what is worth it and commits the indexes; says what was
    /// drained.
    fn settle(&mut self, steps: &mut Vec<CheckpointStep>) -> (r: Result<(Vec<u32>, Ghost<StoreView>), CheckpointFault>)
        requires
            old(self).inv(),
            !old(self).failed(),
            old(steps)@.len() == 0,
        ensures
            final(self).inv(),
            final(self).log() == old(self).log(),
            match r {
                Ok((drained, heap)) => {
                    &&& !final(self).failed()
                    &&& final(self).same_apart(old(self))
                    &&& final(self)@ == old(self)@
                    &&& final(self).retired() == old(self).retired()
                    &&& final(self).settled()
                    &&& final(self).heap() == heap@
                    &&& keeps(old(self).heap(), heap@)
                    &&& undisturbed(old(self).heap(), heap@)
                    &&& drained@ == drained_now(*old(self))
                    &&& forall|k: int| 0 <= k < drained@.len() ==> final(self).tables.spare(#[trigger] drained@[k])
                    &&& steps_view(final(steps)@) == heap_steps(sync_steps(heap@)).push(CheckpointStepView::Indexes)
                },
                Err(CheckpointFault::Full(_)) => final(self).failed() && !final(self).has_room(),
                Err(CheckpointFault::Drain(e)) => {
                    &&& !final(self).failed()
                    &&& final(self).same_apart(old(self))
                    &&& final(self)@ == old(self)@
                    &&& final(self).retired() == old(self).retired()
                    &&& undrainable(*old(self), e)
                },
                Err(CheckpointFault::Index(_)) => {
                    &&& !final(self).failed()
                    &&& final(self).same_apart(old(self))
                    &&& final(self)@ == old(self)@
                    &&& final(self).retired() == old(self).retired()
                    &&& final(self).worn()
                },
                Err(_) => false,
            },
    {
        let ghost start = *self;
        let drained = match self.tables.compact(
            COMPACTION_PART,
            COMPACTION_WHOLE,
            SEGMENTS_PER_COMPACTION,
            &self.cache,
        ) {
            Ok(drained) => drained,
            Err(DrainError::Kept(e)) => {
                proof {
                    lemma_retired_kept(start, *self);
                    let all = candidates(start.catalog(), COMPACTION_PART as nat, COMPACTION_WHOLE as nat);
                    let k = choose|k: int|
                        0 <= k < SEGMENTS_PER_COMPACTION && k < all.len() && #[trigger] damaged(start.heap(), all[k], e);
                    assert(drained_now(start)[k] == all[k]);
                    assert(damaged(start.heap(), drained_now(start)[k], e));
                }
                return Err(CheckpointFault::Drain(e));
            },
            Err(DrainError::Lost(e)) => {
                self.failed = true;
                return Err(CheckpointFault::Full(e));
            },
        };
        let ghost mid = *self;
        proof {
            lemma_retired_kept(start, mid);
        }
        let ghost heap = self.tables.heap();
        let list = self.tables.heap_steps();
        let mut i: usize = 0;
        while i < list.len()
            invariant
                i <= list@.len(),
                steps@.len() == i,
                forall|k: int| 0 <= k < i ==> (#[trigger] steps@[k])@ == CheckpointStepView::Heap(list@[k]),
            decreases list.len() - i,
        {
            steps.push(CheckpointStep::Heap(list[i]));
            i = i + 1;
        }
        match self.tables.commit() {
            Ok(()) => {},
            Err(e) => {
                proof {
                    lemma_retired_kept(mid, *self);
                }
                return Err(CheckpointFault::Index(e));
            },
        }
        steps.push(CheckpointStep::Indexes);
        proof {
            lemma_retired_kept(mid, *self);
            assert(steps_view(steps@) =~= heap_steps(sync_steps(heap)).push(CheckpointStepView::Indexes));
            assert forall|k: int| 0 <= k < drained@.len() implies self.tables.spare(#[trigger] drained@[k]) by {
                assert(mid.tables.spare(drained@[k]));
                lemma_spare_kept(mid.tables, self.tables, drained@[k]);
            }
        }
        Ok((drained, Ghost(heap)))
    }

    /// Moves the checkpoint: from where, and to where.
    fn move_checkpoint(&self, file: Option<&[u8]>, steps: &mut Vec<CheckpointStep>) -> (r: Result<
        (u64, u64),
        CheckpointError,
    >)
        ensures
            match r {
                Ok((current, durable)) => {
                    &&& checkpoint_of(file_view(file)) == Ok::<u64, CheckpointError>(current)
                    &&& advances(*self, current, durable)
                    &&& steps_view(final(steps)@) == steps_view(old(steps)@) + written_file(current, durable)
                },
                Err(e) => checkpoint_of(file_view(file)) == Err::<u64, CheckpointError>(e),
            },
    {
        let current: u64 = match read(file) {
            Ok(current) => current,
            Err(e) => { return Err(e) },
        };
        let moved = match advance(&self.fences, file, self.applied_sequence) {
            Ok(moved) => moved,
            Err(e) => { return Err(e) },
        };
        let ghost top = choose|top: u64| #[trigger]
            is_ceiling(self.fences@, top) && {
                let target = if self.applied_sequence < top {
                    self.applied_sequence
                } else {
                    top
                };
                &&& target <= current ==> moved is None
                &&& target > current ==> moved is Some && moved->0@ == crate::decimal::digits_of(target as nat)
                    && checkpoint_of(Some(moved->0@)) == Ok::<u64, CheckpointError>(target)
            };
        let durable: u64 = match moved {
            Some(bytes) => {
                let to: u64 = match read(Some(&bytes)) {
                    Ok(to) => to,
                    Err(_) => current,
                };
                steps.push(CheckpointStep::Checkpoint(bytes));
                to
            },
            None => current,
        };
        proof {
            assert(steps_view(steps@) =~= steps_view(old(steps)@) + written_file(current, durable));
            assert(is_ceiling(self.fences(), top));
        }
        Ok((current, durable))
    }

    /// Keeps drained segments until no read needs them.
    fn retire(&mut self, drained: &Vec<u32>)
        requires
            old(self).inv(),
            !old(self).failed(),
            forall|k: int| 0 <= k < drained@.len() ==> old(self).tables.spare(#[trigger] drained@[k]),
        ensures
            final(self).inv(),
            !final(self).failed(),
            *final(self) == (StorageEngine { retired: final(self).retired, ..*old(self) }),
            final(self).retired() == old(self).retired() + with_epoch(drained@, old(self).epoch()),
    {
        let ghost before = self.retired@;
        let mut j: usize = 0;
        proof {
            assert(before + with_epoch(drained@.take(0), self.epoch) =~= before);
        }
        while j < drained.len()
            invariant
                j <= drained@.len(),
                before == old(self).retired@,
                self.retired@ == before + with_epoch(drained@.take(j as int), self.epoch),
                forall|k: int| 0 <= k < drained@.len() ==> self.tables.spare(#[trigger] drained@[k]),
                self.inv(),
                !self.failed,
                *self == (StorageEngine { retired: self.retired, ..*old(self) }),
            decreases drained.len() - j,
        {
            let segment: u32 = drained[j];
            let epoch: u64 = self.epoch;
            let ghost prior = self.retired@;
            self.retired.push((segment, epoch));
            proof {
                assert(self.retired@ =~= before + with_epoch(drained@.take(j + 1), self.epoch));
                assert forall|k: int| 0 <= k < self.retired@.len() implies self.tables.spare(
                    (#[trigger] self.retired@[k]).0,
                ) by {
                    if k < prior.len() {
                        assert(self.retired@[k] == prior[k]);
                    } else {
                        assert(self.tables.spare(drained@[j as int]));
                    }
                }
            }
            j = j + 1;
        }
        proof {
            assert(drained@.take(drained@.len() as int) =~= drained@);
        }
    }

    /// Takes a checkpoint: drains what is worth it, commits the indexes,
    /// moves the checkpoint, has the log written anew if that is wanted, and
    /// takes segments away that no read needs. The steps say what is to
    /// happen to the files; where one fails, those after it must not be
    /// carried out, and the database has to be opened again.
    pub fn checkpoint(&mut self, file: Option<&[u8]>, rotates: bool) -> (r: Result<
        Vec<CheckpointStep>,
        CheckpointFault,
    >)
        requires
            old(self).inv(),
        ensures
            final(self).inv(),
            checkpoints(r, *old(self), *final(self), file_view(file), rotates),
    {
        let ghost start = *self;
        if self.failed {
            return Err(CheckpointFault::Failed);
        }
        let mut steps: Vec<CheckpointStep> = Vec::new();
        let (drained, Ghost(heap)) = match self.settle(&mut steps) {
            Ok(settled) => settled,
            Err(e) => { return Err(e) },
        };
        let (current, durable) = match self.move_checkpoint(file, &mut steps) {
            Ok(moved) => moved,
            Err(e) => { return Err(CheckpointFault::File(e)) },
        };
        let ghost s2 = steps_view(steps@);
        proof {
            lemma_advances(*self, start, current, durable);
        }
        self.pending_mutations = 0;
        if rotates {
            proof {
                lemma_charted_rest(*self, durable);
            }
            self.wal.rotate(durable);
            steps.push(CheckpointStep::Log);
        }
        let ghost s3 = steps_view(steps@);
        proof {
            assert(s3 =~= s2 + written_log(rotates));
        }
        if self.epoch < u64::MAX {
            self.epoch = self.epoch + 1;
        }
        self.retire(&drained);
        self.drop_unreferenced_segments(&mut steps);
        proof {
            let gone = ready(start.readers(), retired_now(start));
            assert(steps_view(steps@) =~= heap_steps(sync_steps(heap)) + seq![CheckpointStepView::Indexes]
                + written_file(current, durable) + written_log(rotates) + drop_steps(gone));
            assert(checkpoint_steps(steps_view(steps@), heap, current, durable, rotates, gone));
            assert(settles_at(steps_view(steps@), start, *self, current, rotates, durable, heap));
            assert(settles(steps_view(steps@), start, *self, current, rotates));
        }
        Ok(steps)
    }
}

/// The rest of a log is unsplit where the log is.
pub proof fn lemma_unsplit_rest(log: Seq<WalRecordView>, durable: u64, at: u64)
    requires
        ascending(log),
        unsplit(log, at),
    ensures
        unsplit(past_checkpoint(log, durable), at),
{
    let n = lemma_boundary(log, durable, log.len());
    lemma_filter_suffix(log, |r: WalRecordView| r.sequence > durable, n as int);
    let rest = past_checkpoint(log, durable);
    assert forall|i: int, j: int|
        0 <= i < j < rest.len() && (#[trigger] rest[i]).transaction_id == (#[trigger] rest[j]).transaction_id
            && rest[i].transaction_id != STANDALONE_TRANSACTION_ID implies (rest[i].sequence <= at
        <==> rest[j].sequence <= at) by {
        assert(rest[i] == log[i + n] && rest[j] == log[j + n]);
    }
}

proof fn lemma_charted_rest(e: StorageEngine, durable: u64)
    requires
        e.inv(),
    ensures
        charted(past_checkpoint(e.wal@, durable), e.wal.last(), e.applied_sequence),
{
    e.lemma_log();
    lemma_unsplit_rest(e.wal@, durable, e.applied_sequence);
    reveal(charted);
}

/// Where the first record past the checkpoint is.
pub proof fn lemma_boundary(log: Seq<WalRecordView>, checkpoint: u64, k: nat) -> (n: nat)
    requires
        ascending(log),
        k <= log.len(),
        forall|i: int| k <= i < log.len() ==> (#[trigger] log[i]).sequence > checkpoint,
    ensures
        n <= k,
        forall|i: int| 0 <= i < n ==> (#[trigger] log[i]).sequence <= checkpoint,
        forall|i: int| n <= i < log.len() ==> (#[trigger] log[i]).sequence > checkpoint,
    decreases k,
{
    if k == 0 || log[k - 1].sequence <= checkpoint {
        k
    } else {
        lemma_boundary(log, checkpoint, (k - 1) as nat)
    }
}

proof fn lemma_advances(a: StorageEngine, b: StorageEngine, current: u64, durable: u64)
    requires
        a.fences() == b.fences(),
        a.applied() == b.applied(),
        advances(a, current, durable),
    ensures
        advances(b, current, durable),
{
    let top = choose|top: u64| #[trigger]
        is_ceiling(a.fences(), top) && {
            let target = if a.applied() < top {
                a.applied()
            } else {
                top
            };
            durable == if target > current {
                target
            } else {
                current
            }
        };
    assert(is_ceiling(b.fences(), top));
}

proof fn lemma_retired_kept(before: StorageEngine, after: StorageEngine)
    requires
        before.retired@ == after.retired@,
        forall|i: int| 0 <= i < before.retired@.len() ==> before.tables.spare((#[trigger] before.retired@[i]).0),
        before.tables.keeps_spare(&after.tables),
    ensures
        forall|i: int| 0 <= i < after.retired@.len() ==> after.tables.spare((#[trigger] after.retired@[i]).0),
{
    assert forall|i: int| 0 <= i < after.retired@.len() implies after.tables.spare((#[trigger] after.retired@[i]).0) by {
        assert(before.tables.spare(before.retired@[i].0));
        lemma_spare_kept(before.tables, after.tables, after.retired@[i].0);
    }
}

/// A segment goes away at a checkpoint only if every read that began before
/// it was drained is over.
pub proof fn law_segments_outlive_their_reads(
    r: Result<Vec<CheckpointStep>, CheckpointFault>,
    before: StorageEngine,
    after: StorageEngine,
    file: Option<Seq<u8>>,
    rotates: bool,
    segment: (u32, u64),
)
    requires
        checkpoints(r, before, after, file, rotates),
        r is Ok,
        retired_now(before).contains(segment),
        !after.retired().contains(segment),
    ensures
        forall|i: int| 0 <= i < before.readers().len() ==> #[trigger] before.readers()[i] >= segment.1,
{
    let all = retired_now(before);
    let stay = |s: (u32, u64)| !unneeded(before.readers(), s);
    if !unneeded(before.readers(), segment) {
        let k = choose|k: int| 0 <= k < all.len() && all[k] == segment;
        crate::seqs::lemma_filter_keeps(all, stay, k);
    }
}

/// Writing the log anew loses nothing that recovery needs: every record past
/// the checkpoint stays.
pub proof fn law_rotation_keeps_what_is_not_durable(log: Seq<WalRecordView>, durable: u64, r: WalRecordView)
    requires
        log.contains(r),
        r.sequence > durable,
    ensures
        past_checkpoint(log, durable).contains(r),
{
    let keep = |r: WalRecordView| r.sequence > durable;
    let k = choose|k: int| 0 <= k < log.len() && log[k] == r;
    crate::seqs::lemma_filter_keeps(log, keep, k);
}

proof fn lemma_without(heap: StoreView, gone: Seq<(u32, u64)>, i: int)
    requires
        0 <= i < without(heap, gone).catalog.segments.len(),
    ensures
        has_segment(heap.catalog.segments, without(heap, gone).catalog.segments[i].id),
    decreases gone.len(),
{
    if gone.len() > 0 {
        let v = without(heap, gone.drop_last());
        let s = gone.last().0;
        if has_segment(v.catalog.segments, s) {
            let at = segment_index(v.catalog.segments, s);
            if i < at {
                lemma_without(heap, gone.drop_last(), i);
            } else {
                lemma_without(heap, gone.drop_last(), i + 1);
            }
        } else {
            lemma_without(heap, gone.drop_last(), i);
        }
    } else {
        assert(heap.catalog.segments[i].id == heap.catalog.segments[i].id);
    }
}

/// The pages of every segment of the heap are written, and the catalog.
pub open spec fn flushed(done: Seq<CheckpointStepView>, v: StoreView) -> bool {
    &&& forall|i: int|
        0 <= i < v.catalog.segments.len() ==> done.contains(
            CheckpointStepView::Heap(StoreStep::Flush((#[trigger] v.catalog.segments[i]).id)),
        )
    &&& done.contains(CheckpointStepView::Heap(StoreStep::SaveCatalog))
}

/// Before a checkpoint writes the indexes, it has the pages of every segment
/// written, those that stay and those that go away, and the catalog.
pub proof fn law_heap_is_written_before_the_indexes(
    r: Result<Vec<CheckpointStep>, CheckpointFault>,
    before: StorageEngine,
    after: StorageEngine,
    file: Option<Seq<u8>>,
    rotates: bool,
    k: int,
) -> (heap: StoreView)
    requires
        checkpoints(r, before, after, file, rotates),
        r is Ok,
        0 <= k < r->Ok_0@.len(),
        steps_view(r->Ok_0@)[k] is Indexes,
    ensures
        after.heap() == without(heap, ready(before.readers(), retired_now(before))),
        keeps(before.heap(), heap),
        flushed(steps_view(r->Ok_0@).take(k), heap),
        flushed(steps_view(r->Ok_0@).take(k), after.heap()),
{
    let steps = steps_view(r->Ok_0@);
    let current = checkpoint_of(file)->Ok_0;
    let (durable, heap) = choose|durable: u64, heap: StoreView|
        #[trigger] settles_at(steps, before, after, current, rotates, durable, heap);
    let gone = ready(before.readers(), retired_now(before));
    lemma_flushed(steps, heap, current, durable, rotates, gone, k);
    heap
}

/// Once the indexes are reached, the heap is written.
pub proof fn lemma_flushed(
    steps: Seq<CheckpointStepView>,
    heap: StoreView,
    current: u64,
    durable: u64,
    rotates: bool,
    gone: Seq<(u32, u64)>,
    k: int,
)
    requires
        checkpoint_steps(steps, heap, current, durable, rotates, gone),
        0 <= k <= steps.len(),
        k >= sync_steps(heap).len() || (k < steps.len() && steps[k] is Indexes),
    ensures
        flushed(steps.take(k), heap),
        flushed(steps.take(k), without(heap, gone)),
{
    let list = sync_steps(heap);
    let done = steps.take(k);
    let n = heap.catalog.segments.len();
    assert forall|i: int| 0 <= i < list.len() implies #[trigger] steps[i] == CheckpointStepView::Heap(list[i]) by {
        assert(heap_steps(list)[i] == CheckpointStepView::Heap(list[i]));
    }
    assert(k >= list.len()) by {
        if k < list.len() {
            assert(steps[k] == CheckpointStepView::Heap(list[k]));
        }
    }
    assert forall|i: int| 0 <= i < n implies done.contains(
        CheckpointStepView::Heap(StoreStep::Flush((#[trigger] heap.catalog.segments[i]).id)),
    ) by {
        assert(list[i] == StoreStep::Flush(ids_of(heap.catalog.segments)[i]));
        assert(done[i] == steps[i]);
    }
    assert(list[n as int] == StoreStep::SaveCatalog);
    assert(done[n as int] == steps[n as int]);
    let left = without(heap, gone);
    assert forall|i: int| 0 <= i < left.catalog.segments.len() implies done.contains(
        CheckpointStepView::Heap(StoreStep::Flush((#[trigger] left.catalog.segments[i]).id)),
    ) by {
        lemma_without(heap, gone, i);
        let j = segment_index(heap.catalog.segments, left.catalog.segments[i].id);
        assert(heap.catalog.segments[j].id == left.catalog.segments[i].id);
    }
}

} // verus!
