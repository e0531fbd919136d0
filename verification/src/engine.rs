//! The engine: tables, log and cache as one.
//!
//! Every change is written to the log before the tables carry it out: one
//! operation as a record of its own, several as a frame. A change that is
//! refused leaves everything as it was.

use vstd::prelude::*;

use crate::cache::RecordCache;
use crate::catalog::CatalogView;
use crate::checkpoint::Fences;
use crate::heap::StoreView;
use crate::tables::model::DbView;
use crate::tables::{agrees, Tables};
use crate::types::{EdgeIdView, HistoryView};
use crate::tables::replay::well_named;
use crate::wal::{numbered, unsplit, Wal, WalRecordView};

pub mod batch;
pub mod declare;
pub mod durable;
pub mod graph;
pub mod memory;
pub mod open;
pub mod overview;
pub mod pins;
pub mod read;
pub mod search;
pub mod sequence;
pub mod users;
pub mod write;

verus! {

/// Rows that one request may hold in memory, unless the application says
/// otherwise.
pub const DEFAULT_MAX_SCAN_ROWS: usize = 100_000;

/// Changes that one transaction may come to, unless the application says
/// otherwise.
pub const DEFAULT_MAX_TRANSACTION_OPS: usize = 50_000;

/// Rows that a query may skip, unless the application says otherwise.
pub const DEFAULT_MAX_QUERY_OFFSET: usize = 10_000;

/// Changes between checkpoints, unless the application says otherwise.
pub const DEFAULT_CHECKPOINT_INTERVAL: u64 = 256;

/// What one request may ask for.
#[derive(Clone, Copy, PartialEq, Eq, Debug, Structural)]
pub struct Limits {
    pub max_scan_rows: usize,
    pub max_transaction_ops: usize,
    pub max_query_offset: usize,
    pub checkpoint_interval: u64,
}

impl Limits {
    /// The limits as configured; the default where one is missing, or zero
    /// where zero makes no sense.
    pub fn new(
        max_scan_rows: Option<usize>,
        max_transaction_ops: Option<usize>,
        max_query_offset: Option<usize>,
        checkpoint_interval: Option<u64>,
    ) -> (r: Limits)
        ensures
            r.max_scan_rows == (match max_scan_rows {
                Some(n) => if n > 0 {
                    n
                } else {
                    DEFAULT_MAX_SCAN_ROWS
                },
                None => DEFAULT_MAX_SCAN_ROWS,
            }),
            r.max_transaction_ops == (match max_transaction_ops {
                Some(n) => if n > 0 {
                    n
                } else {
                    DEFAULT_MAX_TRANSACTION_OPS
                },
                None => DEFAULT_MAX_TRANSACTION_OPS,
            }),
            r.max_query_offset == (match max_query_offset {
                Some(n) => n,
                None => DEFAULT_MAX_QUERY_OFFSET,
            }),
            r.checkpoint_interval == (match checkpoint_interval {
                Some(n) => if n > 0 {
                    n
                } else {
                    DEFAULT_CHECKPOINT_INTERVAL
                },
                None => DEFAULT_CHECKPOINT_INTERVAL,
            }),
    {
        Limits {
            max_scan_rows: match max_scan_rows {
                Some(n) => if n > 0 {
                    n
                } else {
                    DEFAULT_MAX_SCAN_ROWS
                },
                None => DEFAULT_MAX_SCAN_ROWS,
            },
            max_transaction_ops: match max_transaction_ops {
                Some(n) => if n > 0 {
                    n
                } else {
                    DEFAULT_MAX_TRANSACTION_OPS
                },
                None => DEFAULT_MAX_TRANSACTION_OPS,
            },
            max_query_offset: match max_query_offset {
                Some(n) => n,
                None => DEFAULT_MAX_QUERY_OFFSET,
            },
            checkpoint_interval: match checkpoint_interval {
                Some(n) => if n > 0 {
                    n
                } else {
                    DEFAULT_CHECKPOINT_INTERVAL
                },
                None => DEFAULT_CHECKPOINT_INTERVAL,
            },
        }
    }
}

/// An open database.
pub struct StorageEngine {
    tables: Tables,
    cache: RecordCache,
    wal: Wal,
    fences: Fences,
    limits: Limits,
    reads_total: u64,
    writes_total: u64,
    applied_sequence: u64,
    pending_mutations: u64,
    epoch: u64,
    /// The epochs of the reads going on.
    readers: Vec<u64>,
    /// Drained segments, each with the epoch that no longer needs it.
    retired: Vec<(u32, u64)>,
    /// A change went wrong half way.
    failed: bool,
}

/// No superseded state has a version past `top`.
pub open spec fn stamped(history: Map<(Seq<char>, u64), HistoryView>, top: u64) -> bool {
    forall|x: (Seq<char>, u64)| #[trigger] history.contains_key(x) ==> x.1 <= top
}

impl View for StorageEngine {
    type V = DbView;

    closed spec fn view(&self) -> DbView {
        self.tables@
    }
}

/// What is carried out is in the log, up to where one transaction ends and
/// another begins.
#[verifier::opaque]
pub open spec fn charted(log: Seq<WalRecordView>, last: u64, applied: u64) -> bool {
    &&& applied <= last
    &&& unsplit(log, applied)
}

impl StorageEngine {
    /// The records of the log.
    pub closed spec fn log(&self) -> Seq<WalRecordView> {
        self.wal@
    }

    /// The highest transaction id given out.
    pub closed spec fn last_transaction(&self) -> u64 {
        self.wal.last_transaction()
    }

    /// The highest operation id given out; versions are from the same
    /// numbers.
    pub closed spec fn last_operation(&self) -> u64 {
        self.wal.last_operation()
    }

    /// The highest sequence number of the log given out.
    pub closed spec fn last_sequence(&self) -> u64 {
        self.wal.last()
    }

    /// A change went wrong half way: the database has to be opened again.
    pub closed spec fn failed(&self) -> bool {
        self.failed
    }

    pub closed spec fn limits(&self) -> Limits {
        self.limits
    }

    /// The drained segments, each with the epoch that no longer needs it.
    pub closed spec fn retired(&self) -> Seq<(u32, u64)> {
        self.retired@
    }

    /// The epochs of the reads going on.
    pub closed spec fn readers(&self) -> Seq<u64> {
        self.readers@
    }

    pub closed spec fn epoch(&self) -> u64 {
        self.epoch
    }

    /// Every part of the tables can take one change more.
    pub closed spec fn has_room(&self) -> bool {
        self.tables.has_room()
    }

    /// Some index has no generations left.
    pub closed spec fn worn(&self) -> bool {
        self.tables.worn()
    }

    /// The heap.
    pub closed spec fn heap(&self) -> StoreView {
        self.tables.heap()
    }

    /// The heap's catalog.
    pub closed spec fn catalog(&self) -> CatalogView {
        self.tables.heap().catalog
    }

    /// The sequence numbers of the frames that are open.
    pub closed spec fn fences(&self) -> Set<u64> {
        self.fences@
    }

    /// Everything that the indexes hold is committed.
    pub closed spec fn settled(&self) -> bool {
        self.tables.settled()
    }

    /// How often nodes were asked for; the count starts over when it is
    /// full.
    pub closed spec fn reads(&self) -> u64 {
        self.reads_total
    }

    /// How many nodes and edges were written or deleted; the count starts
    /// over when it is full.
    pub closed spec fn writes(&self) -> u64 {
        self.writes_total
    }

    /// The highest sequence number of the log that the tables carried out.
    pub closed spec fn applied(&self) -> u64 {
        self.applied_sequence
    }

    /// Changes since the last checkpoint.
    pub closed spec fn pending(&self) -> u64 {
        self.pending_mutations
    }

    /// The tables and the cache are in order, versions and retired segments
    /// too.
    closed spec fn sane(&self) -> bool {
        &&& self.tables.inv()
        &&& agrees(self.cache@, self.tables.heap())
        &&& stamped(self.tables@.history, self.wal.last_operation())
        &&& forall|i: int| 0 <= i < self.retired@.len() ==> self.tables.spare((#[trigger] self.retired@[i]).0)
    }

    /// The engine is in order, perhaps in the midst of a change.
    closed spec fn steady(&self) -> bool {
        &&& self.wal.wf()
        &&& self.cache.wf()
        &&& !self.failed ==> self.sane()
    }

    /// The engine is in order; once a change went wrong half way, only its
    /// log is.
    pub closed spec fn inv(&self) -> bool {
        &&& self.steady()
        &&& charted(self.wal@, self.wal.last(), self.applied_sequence)
        &&& !self.failed ==> self.fences@ == Set::<u64>::empty()
    }

    /// The log's numbers ascend from one up, none is past the last given out;
    /// what is carried out is in it, and no transaction is carried out in
    /// part. The states kept have versions that were given out.
    pub proof fn lemma_log(&self)
        requires
            self.inv(),
        ensures
            numbered(self.log()),
            forall|i: int|
                0 <= i < self.log().len() ==> {
                    &&& (#[trigger] self.log()[i]).sequence <= self.last_sequence()
                    &&& self.log()[i].operation_id <= self.last_operation()
                    &&& self.log()[i].transaction_id <= self.last_transaction()
                },
            self.applied() <= self.last_sequence(),
            unsplit(self.log(), self.applied()),
            !self.failed() ==> self.fences() == Set::<u64>::empty(),
            !self.failed() ==> stamped(self@.history, self.last_operation()),
            !self.failed() ==> well_named(self@),
    {
        if !self.failed {
            self.tables.lemma_well_named();
        }
        self.wal.lemma_wf();
        reveal(charted);
    }

    /// Everything is found under the key that it has.
    pub proof fn lemma_keyed(&self)
        requires
            self.inv(),
            !self.failed(),
        ensures
            forall|a: Seq<char>| #[trigger] self@.nodes.contains_key(a) ==> self@.nodes[a].address == a,
            forall|id: EdgeIdView| #[trigger]
                self@.edges.contains_key(id) ==> {
                    &&& self@.edges[id].from == id.from
                    &&& self@.edges[id].to == id.to
                    &&& self@.edges[id].kind == id.kind
                },
            forall|x: (Seq<char>, u64)| #[trigger]
                self@.history.contains_key(x) ==> self@.history[x].address == x.0 && self@.history[x].version == x.1,
    {
        self.tables.lemma_keyed();
    }

    /// The nodes are found at their addresses, and there is an end of them.
    pub proof fn lemma_orderly(&self)
        requires
            self.inv(),
            !self.failed(),
        ensures
            crate::tables::memory::orderly(self@.nodes),
    {
        self.tables.lemma_orderly();
    }

    /// Nothing changed but what is counted and cached.
    pub closed spec fn same(&self, after: &StorageEngine) -> bool {
        &&& after.tables == self.tables
        &&& after.wal == self.wal
        &&& after.fences == self.fences
        &&& after.limits == self.limits
        &&& after.writes_total == self.writes_total
        &&& after.applied_sequence == self.applied_sequence
        &&& after.pending_mutations == self.pending_mutations
        &&& after.epoch == self.epoch
        &&& after.readers == self.readers
        &&& after.retired == self.retired
        &&& after.failed == self.failed
    }

    /// Nothing changed but what is cached.
    pub open spec fn unmoved(&self, after: &StorageEngine) -> bool {
        &&& self.same(after)
        &&& after.reads() == self.reads()
    }

    pub proof fn lemma_same(&self, after: &StorageEngine)
        requires
            self.same(after),
        ensures
            after@ == self@,
            after.log() == self.log(),
            after.last_transaction() == self.last_transaction(),
            after.last_operation() == self.last_operation(),
            after.last_sequence() == self.last_sequence(),
            after.failed() == self.failed(),
            after.limits() == self.limits(),
            after.retired() == self.retired(),
            after.readers() == self.readers(),
            after.epoch() == self.epoch(),
            after.writes() == self.writes(),
            after.applied() == self.applied(),
            after.pending() == self.pending(),
    {
    }
}

} // verus!
