//! What the change feed shows, told by the records of the log.

use vstd::prelude::*;

use crate::changes::{
    all_changes, archived_after, audience_admits, changes_view, feed, justified, law_changes_rise,
    law_feed_shows_only_settled, law_pages_join, lemma_run_end, lemma_unit_end, next_position, positions_ascend, scans,
    shown, shown_upto, state_of, step_up, unit_at, unit_changes, unit_end, ChangeKind, ChangePage, ChangeView,
    FrameState, LensView, ScanError,
};
use crate::types::{NodeView, Visibility};
use crate::wal::{is_committed, of_transaction, OperationView, WalRecordView, WalView, STANDALONE_TRANSACTION_ID};

verus! {

/// The records from `b` to `c` are those of one transaction: it begins at
/// `b` and commits at `c`.
pub open spec fn is_frame(records: Seq<WalRecordView>, b: int, c: int) -> bool {
    &&& 0 <= b < c < records.len()
    &&& records[b].transaction_id != STANDALONE_TRANSACTION_ID
    &&& records[b].operation is Begin
    &&& records[c].operation is Commit
    &&& forall|j: int| b < j < c ==> (#[trigger] records[j]).operation is Apply
    &&& forall|j: int|
        0 <= j < records.len() ==> ((#[trigger] records[j]).transaction_id == records[b].transaction_id <==> b <= j <= c)
}

/// The record stands by itself, or in a transaction that is committed.
pub open spec fn has_happened(records: Seq<WalRecordView>, n: int) -> bool {
    &&& 0 <= n < records.len()
    &&& records[n].transaction_id == STANDALONE_TRANSACTION_ID || exists|b: int, c: int|
        b < n < c && #[trigger] is_frame(records, b, c)
}

proof fn lemma_filter_run(records: Seq<WalRecordView>, id: u64, b: int, c: int)
    requires
        0 <= b <= c < records.len(),
        forall|j: int| 0 <= j < records.len() ==> ((#[trigger] records[j]).transaction_id == id <==> b <= j <= c),
    ensures
        records.filter(|r: WalRecordView| r.transaction_id == id) == records.subrange(b, c + 1),
    decreases records.len(),
{
    let p = |r: WalRecordView| r.transaction_id == id;
    reveal(Seq::filter);
    let init = records.drop_last();
    let n = records.len() - 1;
    assert(records.last() == records[n]);
    if c < n {
        assert forall|j: int| 0 <= j < init.len() implies ((#[trigger] init[j]).transaction_id == id <==> b <= j <= c) by {
            assert(init[j] == records[j]);
        }
        lemma_filter_run(init, id, b, c);
        assert(init.subrange(b, c + 1) =~= records.subrange(b, c + 1));
        assert(!p(records.last()));
    } else if b < n {
        assert forall|j: int| 0 <= j < init.len() implies ((#[trigger] init[j]).transaction_id == id <==> b <= j <= c - 1) by {
            assert(init[j] == records[j]);
        }
        lemma_filter_run(init, id, b, c - 1);
        assert(p(records.last()));
        assert(init.subrange(b, c).push(records.last()) =~= records.subrange(b, c + 1));
    } else {
        lemma_filter_nothing(init, id);
        assert(p(records.last()));
        assert(init.filter(p) =~= Seq::<WalRecordView>::empty());
        assert(init.filter(p).push(records.last()) =~= records.subrange(b, c + 1));
    }
}

proof fn lemma_filter_nothing(records: Seq<WalRecordView>, id: u64)
    requires
        forall|j: int| 0 <= j < records.len() ==> (#[trigger] records[j]).transaction_id != id,
    ensures
        records.filter(|r: WalRecordView| r.transaction_id == id) == Seq::<WalRecordView>::empty(),
    decreases records.len(),
{
    reveal(Seq::filter);
    if records.len() > 0 {
        let init = records.drop_last();
        assert forall|j: int| 0 <= j < init.len() implies (#[trigger] init[j]).transaction_id != id by {
            assert(init[j] == records[j]);
        }
        lemma_filter_nothing(init, id);
        assert(records.last() == records[records.len() - 1]);
    }
}

/// A transaction with a begin and a commit is committed.
proof fn lemma_frame_committed(records: Seq<WalRecordView>, b: int, c: int)
    requires
        is_frame(records, b, c),
    ensures
        is_committed(records, records[b].transaction_id),
{
    let id = records[b].transaction_id;
    lemma_filter_run(records, id, b, c);
    let own = of_transaction(records, id);
    assert(own =~= records.subrange(b, c + 1));
    assert forall|i: int| 1 <= i < own.len() - 1 implies (#[trigger] own[i]).operation is Apply by {
        assert(own[i] == records[b + i]);
    }
}

/// Everything that is shown of a record of a unit that has happened is in
/// what the log has to show.
proof fn lemma_in_all(records: Seq<WalRecordView>, from: int, m: int, n: int, lens: LensView) -> (start: int)
    requires
        0 <= from <= m <= n < records.len(),
        has_happened(records, n),
        forall|j: int| m <= j < n ==> (#[trigger] records[j]).transaction_id == records[n].transaction_id,
        m < n ==> records[n].transaction_id != STANDALONE_TRANSACTION_ID,
        forall|b: int, c: int| b < n < c && #[trigger] is_frame(records, b, c) ==> b < m || m == n,
    ensures
        from <= start <= m,
        n < unit_end(records, start) <= records.len(),
        forall|i: int|
            0 <= i < shown(unit_at(records, start), n - start, lens).len() ==> all_changes(records, from, lens).contains(
                #[trigger] shown(unit_at(records, start), n - start, lens)[i],
            ),
    decreases records.len() - from,
{
    let end = unit_end(records, from);
    let unit = unit_at(records, from);
    let id = records[from].transaction_id;
    lemma_unit_end(records, from);
    lemma_run_end(records, from, id);
    let all = all_changes(records, from, lens);
    let state = state_of(unit, is_committed(records, id), end == records.len());
    assert(unit[0] == records[from]);
    if n < end {
        assert(records[n].transaction_id == id);
        if id != STANDALONE_TRANSACTION_ID {
            let (b, c) = choose|b: int, c: int| b < n < c && #[trigger] is_frame(records, b, c);
            assert(records[b].transaction_id == records[n].transaction_id);
            lemma_frame_committed(records, b, c);
        }
        assert(state == FrameState::Committed);
        lemma_shown_in(unit, n - from, unit.len() as int, lens);
        assert forall|i: int| 0 <= i < shown(unit, n - from, lens).len() implies all.contains(
            #[trigger] shown(unit, n - from, lens)[i],
        ) by {
            let x = shown(unit, n - from, lens)[i];
            let k = choose|k: int| 0 <= k < unit_changes(unit, lens).len() && unit_changes(unit, lens)[k] == x;
            assert(all[k] == x);
        }
        from
    } else {
        if m < end {
            assert(records[end - 1].transaction_id == records[n].transaction_id) by {
                if end - 1 < n {
                    assert(m <= end - 1);
                }
            }
            assert(records[end].transaction_id == records[n].transaction_id);
            assert(id != STANDALONE_TRANSACTION_ID) by {
                if id == STANDALONE_TRANSACTION_ID {
                    assert(end == from + 1);
                }
            }
            assert(false);
        }
        assert(state != FrameState::InFlight);
        let start = lemma_in_all(records, end, m, n, lens);
        assert forall|i: int| 0 <= i < shown(unit_at(records, start), n - start, lens).len() implies all.contains(
            #[trigger] shown(unit_at(records, start), n - start, lens)[i],
        ) by {
            let x = shown(unit_at(records, start), n - start, lens)[i];
            let rest = all_changes(records, end, lens);
            assert(rest.contains(x));
            let k = choose|k: int| 0 <= k < rest.len() && rest[k] == x;
            if state != FrameState::Terminal {
                assert(all[unit_changes(unit, lens).len() + k] == x);
            }
        }
        start
    }
}

proof fn lemma_shown_in(unit: Seq<WalRecordView>, k: int, n: int, lens: LensView)
    requires
        0 <= k < n <= unit.len(),
    ensures
        forall|i: int|
            0 <= i < shown(unit, k, lens).len() ==> shown_upto(unit, n, lens).contains(#[trigger] shown(unit, k, lens)[i]),
    decreases n,
{
    let now = shown_upto(unit, n, lens);
    let before = shown_upto(unit, n - 1, lens);
    if k == n - 1 {
        assert forall|i: int| 0 <= i < shown(unit, k, lens).len() implies now.contains(
            #[trigger] shown(unit, k, lens)[i],
        ) by {
            assert(now[before.len() + i] == shown(unit, k, lens)[i]);
        }
    } else {
        lemma_shown_in(unit, k, n - 1, lens);
        assert forall|i: int| 0 <= i < shown(unit, k, lens).len() implies now.contains(
            #[trigger] shown(unit, k, lens)[i],
        ) by {
            let x = shown(unit, k, lens)[i];
            assert(before.contains(x));
            let j = choose|j: int| 0 <= j < before.len() && before[j] == x;
            assert(now[j] == x);
        }
    }
}

/// What the log has to show is in the page, up to where the page goes on.
proof fn lemma_in_page(
    page: ChangePage,
    records: Seq<WalRecordView>,
    empty: u64,
    after: u64,
    limit: usize,
    owner: Seq<char>,
    is_admin: bool,
    x: ChangeView,
)
    requires
        scans(Ok(page), records, empty, after, limit, owner, is_admin),
        all_changes(records, 0, LensView { after, owner, is_admin }).contains(x),
        page.complete || x.seq <= page.next,
    ensures
        exists|i: int| 0 <= i < page.changes@.len() && (#[trigger] page.changes@[i])@ == x,
{
    let lens = LensView { after, owner, is_admin };
    let list = changes_view(page.changes@);
    law_pages_join(records, lens, limit as nat);
    let all = all_changes(records, 0, lens);
    let next = next_position(list, after);
    let later = LensView { after: next, ..lens };
    let rest = all_changes(records, 0, later);
    law_changes_rise(records, later);
    let k = choose|k: int| 0 <= k < all.len() && all[k] == x;
    assert(list + rest == all);
    if k >= list.len() {
        assert(rest[k - list.len()] == x);
        assert(rest[k - list.len()].seq > next);
        assert(!page.complete);
    }
    assert(list[k] == x);
    assert(page.changes@[k]@ == x);
}

/// Every node that a record of something that has happened inserts, past
/// where the reader is, is shown where the node is public or the reader's, or
/// the reader an administrator: as created or updated, with its address and
/// kind. A page shows all that lies up to where it goes on; a complete one
/// shows all.
pub proof fn law_feed_shows_every_insert(
    page: ChangePage,
    records: Seq<WalRecordView>,
    empty: u64,
    after: u64,
    limit: usize,
    owner: Seq<char>,
    is_admin: bool,
    n: int,
    node: NodeView,
)
    requires
        scans(Ok(page), records, empty, after, limit, owner, is_admin),
        has_happened(records, n),
        records[n].operation == WalView::Apply(OperationView::Insert(node)),
        records[n].operation_id > after,
        page.complete || records[n].operation_id <= page.next,
        is_admin || node.visibility == Visibility::Public || node.owner == owner,
    ensures
        exists|i: int| {
            &&& 0 <= i < page.changes@.len()
            &&& (#[trigger] page.changes@[i]).seq == records[n].operation_id
            &&& page.changes@[i].address@ == node.address
            &&& page.changes@[i].kind@ == node.kind
            &&& page.changes@[i].change == ChangeKind::Created || page.changes@[i].change == ChangeKind::Updated
        },
{
    let lens = LensView { after, owner, is_admin };
    let start = lemma_in_all(records, 0, n, n, lens);
    let unit = unit_at(records, start);
    assert(unit[n - start] == records[n]);
    let s = shown(unit, n - start, lens);
    assert(s.len() == 1);
    let x = s[0];
    lemma_in_page(page, records, empty, after, limit, owner, is_admin, x);
    let i = choose|i: int| 0 <= i < page.changes@.len() && (#[trigger] page.changes@[i])@ == x;
    assert(page.changes@[i]@.address == node.address);
}

/// The last thing that the transaction does to the address before `n` is to
/// keep its state, at `m`.
pub open spec fn kept_at(records: Seq<WalRecordView>, m: int, n: int, address: Seq<char>, was: NodeView) -> bool {
    &&& 0 <= m < n < records.len()
    &&& forall|j: int| m <= j < n ==> (#[trigger] records[j]).transaction_id == records[n].transaction_id
    &&& records[n].transaction_id != STANDALONE_TRANSACTION_ID
    &&& records[m].operation matches WalView::Apply(OperationView::Archive(h)) && h.address == address && h.node == was
    &&& forall|j: int|
        m < j < n ==> match (#[trigger] records[j]).operation {
            WalView::Apply(OperationView::Archive(h)) => h.address != address,
            WalView::Apply(OperationView::Delete(a)) => a != address,
            _ => true,
        }
}

proof fn lemma_still_kept(unit: Seq<WalRecordView>, m: int, n: int, address: Seq<char>, was: NodeView)
    requires
        0 <= m < n <= unit.len(),
        unit[m].operation matches WalView::Apply(OperationView::Archive(h)) && h.address == address && h.node == was,
        forall|j: int|
            m < j < n ==> match (#[trigger] unit[j]).operation {
                WalView::Apply(OperationView::Archive(h)) => h.address != address,
                WalView::Apply(OperationView::Delete(a)) => a != address,
                _ => true,
            },
    ensures
        archived_after(unit, n).contains_key(address),
        archived_after(unit, n)[address] == was,
    decreases n,
{
    if n > m + 1 {
        lemma_still_kept(unit, m, n - 1, address, was);
        assert(match unit[n - 1].operation {
            WalView::Apply(OperationView::Archive(h)) => h.address != address,
            WalView::Apply(OperationView::Delete(a)) => a != address,
            _ => true,
        });
    }
}

proof fn lemma_none_kept(unit: Seq<WalRecordView>, n: int, address: Seq<char>)
    requires
        0 <= n <= unit.len(),
        forall|j: int|
            0 <= j < n ==> match (#[trigger] unit[j]).operation {
                WalView::Apply(OperationView::Archive(h)) => h.address != address,
                _ => true,
            },
    ensures
        !archived_after(unit, n).contains_key(address),
    decreases n,
{
    if n > 0 {
        lemma_none_kept(unit, n - 1, address);
        assert(match unit[n - 1].operation {
            WalView::Apply(OperationView::Archive(h)) => h.address != address,
            _ => true,
        });
    }
}

/// A delete of a node whose state is kept right before, in a transaction that
/// is committed, is shown past where the reader is, where that state is public
/// or the reader's, or the reader an administrator.
pub proof fn law_feed_shows_every_delete(
    page: ChangePage,
    records: Seq<WalRecordView>,
    empty: u64,
    after: u64,
    limit: usize,
    owner: Seq<char>,
    is_admin: bool,
    m: int,
    n: int,
    address: Seq<char>,
    was: NodeView,
)
    requires
        scans(Ok(page), records, empty, after, limit, owner, is_admin),
        has_happened(records, n),
        records[n].operation == WalView::Apply(OperationView::Delete(address)),
        kept_at(records, m, n, address, was),
        records[n].operation_id > after,
        page.complete || records[n].operation_id <= page.next,
        is_admin || was.visibility == Visibility::Public || was.owner == owner,
    ensures
        exists|i: int| {
            &&& 0 <= i < page.changes@.len()
            &&& (#[trigger] page.changes@[i]).seq == records[n].operation_id
            &&& page.changes@[i].address@ == address
            &&& page.changes@[i].kind@ == was.kind
            &&& page.changes@[i].change == ChangeKind::Deleted
        },
{
    let lens = LensView { after, owner, is_admin };
    lemma_within(records, m, n);
    let start = lemma_in_all(records, 0, m, n, lens);
    let unit = unit_at(records, start);
    assert(unit[n - start] == records[n]);
    assert(unit[m - start] == records[m]);
    assert forall|j: int| m - start < j < n - start implies match (#[trigger] unit[j]).operation {
        WalView::Apply(OperationView::Archive(h)) => h.address != address,
        WalView::Apply(OperationView::Delete(a)) => a != address,
        _ => true,
    } by {
        assert(unit[j] == records[start + j]);
    }
    lemma_still_kept(unit, m - start, n - start, address, was);
    let s = shown(unit, n - start, lens);
    assert(s.len() == 1);
    let x = s[0];
    lemma_in_page(page, records, empty, after, limit, owner, is_admin, x);
    let i = choose|i: int| 0 <= i < page.changes@.len() && (#[trigger] page.changes@[i])@ == x;
    assert(page.changes@[i]@.address == address);
}

proof fn lemma_within(records: Seq<WalRecordView>, m: int, n: int)
    requires
        0 <= m < n < records.len(),
        records[m].operation is Apply,
        forall|j: int| m <= j < n ==> (#[trigger] records[j]).transaction_id == records[n].transaction_id,
    ensures
        forall|b: int, c: int| b < n < c && #[trigger] is_frame(records, b, c) ==> b < m,
{
    assert forall|b: int, c: int| b < n < c && #[trigger] is_frame(records, b, c) implies b < m by {
        assert(records[n].transaction_id == records[b].transaction_id);
        assert(records[m].transaction_id == records[b].transaction_id);
    }
}

/// An insert of a node whose state is kept right before is shown as an
/// update; one in whose transaction no state of the address was kept before
/// is shown as a creation.
pub proof fn law_feed_tells_updates_from_creations(
    page: ChangePage,
    records: Seq<WalRecordView>,
    empty: u64,
    after: u64,
    limit: usize,
    owner: Seq<char>,
    is_admin: bool,
    m: int,
    n: int,
    node: NodeView,
    was: NodeView,
    i: int,
)
    requires
        scans(Ok(page), records, empty, after, limit, owner, is_admin),
        has_happened(records, n),
        records[n].operation == WalView::Apply(OperationView::Insert(node)),
        0 <= i < page.changes@.len(),
        page.changes@[i].seq == records[n].operation_id,
    ensures
        kept_at(records, m, n, node.address, was) ==> page.changes@[i].change == ChangeKind::Updated,
        (forall|j: int|
            0 <= j < n && (#[trigger] records[j]).transaction_id == records[n].transaction_id ==> match records[j].operation {
                WalView::Apply(OperationView::Archive(h)) => h.address != node.address,
                _ => true,
            }) || records[n].transaction_id == STANDALONE_TRANSACTION_ID ==> page.changes@[i].change == ChangeKind::Created,
{
    let lens = LensView { after, owner, is_admin };
    let list = changes_view(page.changes@);
    assert(list[i] == page.changes@[i]@);
    law_feed_shows_only_settled(records, 0, lens, limit as nat, Seq::empty());
    assert(justified(records, lens, list[i]) && list[i].seq > after);
    let k = choose|k: int| {
        &&& 0 <= k < records.len()
        &&& #[trigger] records[k].operation_id == list[i].seq
        &&& records[k].transaction_id == STANDALONE_TRANSACTION_ID || is_committed(records, records[k].transaction_id)
        &&& match records[k].operation {
            WalView::Apply(OperationView::Insert(x)) => audience_admits(lens, x),
            WalView::Apply(OperationView::Delete(_)) => true,
            _ => false,
        }
    };
    lemma_positions(records, k, n);
    assert(k == n);
    let low = if kept_at(records, m, n, node.address, was) {
        m
    } else {
        n
    };
    if low < n {
        lemma_within(records, m, n);
    }
    let start = lemma_in_all(records, 0, low, n, lens);
    let unit = unit_at(records, start);
    assert(unit[n - start] == records[n]);
    let s = shown(unit, n - start, lens);
    assert(s.len() == 1);
    let x = s[0];
    law_pages_join(records, lens, limit as nat);
    law_changes_rise(records, lens);
    let all = all_changes(records, 0, lens);
    let rest = all_changes(records, 0, LensView { after: next_position(list, after), ..lens });
    assert(list + rest == all);
    assert(all[i] == list[i]);
    let at = choose|at: int| 0 <= at < all.len() && all[at] == x;
    assert(at == i) by {
        if at < i {
            assert(all[at].seq < all[i].seq);
        } else if i < at {
            assert(all[i].seq < all[at].seq);
        }
    }
    lemma_run_end(records, start, records[start].transaction_id);
    if kept_at(records, m, n, node.address, was) {
        assert(unit[m - start] == records[m]);
        assert forall|j: int| m - start < j < n - start implies match (#[trigger] unit[j]).operation {
            WalView::Apply(OperationView::Archive(h)) => h.address != node.address,
            WalView::Apply(OperationView::Delete(a)) => a != node.address,
            _ => true,
        } by {
            assert(unit[j] == records[start + j]);
        }
        lemma_still_kept(unit, m - start, n - start, node.address, was);
    }
    if (forall|j: int|
        0 <= j < n && (#[trigger] records[j]).transaction_id == records[n].transaction_id ==> match records[j].operation {
            WalView::Apply(OperationView::Archive(h)) => h.address != node.address,
            _ => true,
        }) || records[n].transaction_id == STANDALONE_TRANSACTION_ID {
        assert forall|j: int| 0 <= j < n - start implies match (#[trigger] unit[j]).operation {
            WalView::Apply(OperationView::Archive(h)) => h.address != node.address,
            _ => true,
        } by {
            assert(unit[j] == records[start + j]);
            assert(records[start + j].transaction_id == records[n].transaction_id);
        }
        lemma_none_kept(unit, n - start, node.address);
    }
}

proof fn lemma_positions(records: Seq<WalRecordView>, k: int, n: int)
    requires
        positions_ascend(records),
        0 <= k < records.len(),
        0 <= n < records.len(),
    ensures
        records[k].operation_id == records[n].operation_id ==> k == n,
{
    if k < n {
        lemma_below(records, k, n);
    } else if n < k {
        lemma_below(records, n, k);
    }
}

proof fn lemma_below(records: Seq<WalRecordView>, k: int, n: int)
    requires
        positions_ascend(records),
        0 <= k < n < records.len(),
    ensures
        records[k].operation_id < records[n].operation_id,
    decreases n - k,
{
    assert(step_up(records, n - 1));
    if k < n - 1 {
        lemma_below(records, k, n - 1);
    }
}

/// The feed shows nothing but inserts and deletes of what has happened, past
/// where the reader is, each at the position of its record, and only of nodes
/// that are public or the reader's, unless the reader is an administrator.
/// Positions rise from change to change, and the page goes on from the last.
pub proof fn law_feed_shows_nothing_else(
    page: ChangePage,
    records: Seq<WalRecordView>,
    empty: u64,
    after: u64,
    limit: usize,
    owner: Seq<char>,
    is_admin: bool,
    i: int,
)
    requires
        scans(Ok(page), records, empty, after, limit, owner, is_admin),
        0 <= i < page.changes@.len(),
    ensures
        page.changes@[i].seq > after,
        i + 1 < page.changes@.len() ==> page.changes@[i].seq < page.changes@[i + 1].seq,
        i + 1 == page.changes@.len() ==> page.next == page.changes@[i].seq,
        exists|n: int| {
            &&& 0 <= n < records.len()
            &&& #[trigger] records[n].operation_id == page.changes@[i].seq
            &&& match records[n].operation {
                WalView::Apply(OperationView::Insert(node)) => {
                    &&& page.changes@[i].change != ChangeKind::Deleted
                    &&& page.changes@[i].address@ == node.address
                    &&& page.changes@[i].kind@ == node.kind
                    &&& is_admin || node.visibility == Visibility::Public || node.owner == owner
                },
                WalView::Apply(OperationView::Delete(address)) => {
                    &&& page.changes@[i].change == ChangeKind::Deleted
                    &&& page.changes@[i].address@ == address
                    &&& exists|m: int| {
                        &&& 0 <= m < n
                        &&& (#[trigger] records[m]).transaction_id == records[n].transaction_id
                        &&& records[m].operation matches WalView::Apply(OperationView::Archive(h)) && h.address == address
                            && h.node.kind == page.changes@[i].kind@ && (is_admin || h.node.visibility
                            == Visibility::Public || h.node.owner == owner)
                    }
                },
                _ => false,
            }
        },
{
    let lens = LensView { after, owner, is_admin };
    let list = changes_view(page.changes@);
    assert(list[i] == page.changes@[i]@);
    law_feed_shows_only_settled(records, 0, lens, limit as nat, Seq::empty());
    assert(justified(records, lens, list[i]) && list[i].seq > after);
    law_pages_join(records, lens, limit as nat);
    law_changes_rise(records, lens);
    let all = all_changes(records, 0, lens);
    let rest = all_changes(records, 0, LensView { after: next_position(list, after), ..lens });
    assert(list + rest == all);
    assert(all[i] == list[i]);
    if i + 1 < list.len() {
        assert(list[i + 1] == page.changes@[i + 1]@);
        assert(all[i + 1] == list[i + 1]);
    }
    let change = list[i];
    let n = choose|n: int| {
        &&& 0 <= n < records.len()
        &&& #[trigger] records[n].operation_id == change.seq
        &&& records[n].transaction_id == STANDALONE_TRANSACTION_ID || is_committed(records, records[n].transaction_id)
        &&& match records[n].operation {
            WalView::Apply(OperationView::Insert(node)) => {
                &&& change.change != ChangeKind::Deleted
                &&& change.address == node.address
                &&& change.kind == node.kind
                &&& audience_admits(lens, node)
            },
            WalView::Apply(OperationView::Delete(address)) => {
                &&& change.change == ChangeKind::Deleted
                &&& change.address == address
                &&& exists|m: int| #[trigger] crate::changes::archives(records, m, n, address, change.kind, lens)
            },
            _ => false,
        }
    };
    if let WalView::Apply(OperationView::Delete(address)) = records[n].operation {
        let m = choose|m: int| #[trigger] crate::changes::archives(records, m, n, address, change.kind, lens);
        assert(records[m].transaction_id == records[n].transaction_id);
    }
}

/// What a unit shows is at the positions of its records.
proof fn lemma_shown_at(unit: Seq<WalRecordView>, n: int, lens: LensView, i: int) -> (j: int)
    requires
        0 <= n <= unit.len(),
        0 <= i < shown_upto(unit, n, lens).len(),
    ensures
        0 <= j < n,
        unit[j].operation_id == shown_upto(unit, n, lens)[i].seq,
    decreases n,
{
    let before = shown_upto(unit, n - 1, lens);
    if i < before.len() {
        lemma_shown_at(unit, n - 1, lens, i)
    } else {
        assert(shown_upto(unit, n, lens)[i] == shown(unit, n - 1, lens)[i - before.len()]);
        n - 1
    }
}

/// Where there is enough, the feed ends with the unit that makes it so.
proof fn lemma_feed_ends(
    records: Seq<WalRecordView>,
    index: int,
    lens: LensView,
    limit: nat,
    sofar: Seq<ChangeView>,
) -> (r: (int, int))
    requires
        0 <= index <= records.len(),
        sofar.len() < limit,
        feed(records, index, lens, limit, sofar).0.len() >= limit,
    ensures
        0 <= r.0 < limit,
        0 <= r.1 < records.len(),
        feed(records, index, lens, limit, sofar).0 == feed(records, index, lens, limit, sofar).0.take(r.0) + unit_changes(
            unit_at(records, r.1),
            lens,
        ) || feed(records, index, lens, limit, sofar).1,
    decreases records.len() - index,
{
    let end = unit_end(records, index);
    let unit = unit_at(records, index);
    lemma_unit_end(records, index);
    let state = state_of(unit, is_committed(records, records[index].transaction_id), end == records.len());
    let out = feed(records, index, lens, limit, sofar).0;
    if state == FrameState::Terminal || records[end - 1].operation_id <= lens.after {
        lemma_feed_ends(records, end, lens, limit, sofar)
    } else {
        let now = sofar + unit_changes(unit, lens);
        if now.len() >= limit && end < records.len() {
            assert(out == now);
            assert(out.take(sofar.len() as int) =~= sofar);
            assert(out =~= sofar + unit_changes(unit, lens));
            (sofar.len() as int, index)
        } else if now.len() >= limit {
            assert(feed(records, end, lens, limit, now) == (now, true));
            (sofar.len() as int, index)
        } else {
            lemma_feed_ends(records, end, lens, limit, now)
        }
    }
}

/// A page that does not show all holds no more than was asked for, but that
/// it does not split what one transaction did: from the last that was asked
/// for on, all changes are of the records of one transaction.
pub proof fn law_feed_stops_where_there_is_enough(
    page: ChangePage,
    records: Seq<WalRecordView>,
    empty: u64,
    after: u64,
    limit: usize,
    owner: Seq<char>,
    is_admin: bool,
    i: int,
    j: int,
)
    requires
        scans(Ok(page), records, empty, after, limit, owner, is_admin),
        !page.complete,
        limit > 0,
        limit - 1 <= i < j < page.changes@.len(),
    ensures
        exists|m: int, n: int| {
            &&& 0 <= m < records.len()
            &&& 0 <= n < records.len()
            &&& (#[trigger] records[m]).operation_id == page.changes@[i].seq
            &&& (#[trigger] records[n]).operation_id == page.changes@[j].seq
            &&& records[m].transaction_id == records[n].transaction_id
            &&& records[m].transaction_id != STANDALONE_TRANSACTION_ID
        },
{
    let lens = LensView { after, owner, is_admin };
    let list = changes_view(page.changes@);
    let (k, start) = lemma_feed_ends(records, 0, lens, limit as nat, Seq::empty());
    let unit = unit_at(records, start);
    let tail = unit_changes(unit, lens);
    lemma_unit_end(records, start);
    lemma_run_end(records, start, records[start].transaction_id);
    assert(list == list.take(k) + tail);
    assert(list[i] == page.changes@[i]@ && list[j] == page.changes@[j]@);
    assert(list[i] == tail[i - k] && list[j] == tail[j - k]);
    let x = lemma_shown_at(unit, unit.len() as int, lens, i - k);
    let y = lemma_shown_at(unit, unit.len() as int, lens, j - k);
    assert(unit[x] == records[start + x] && unit[y] == records[start + y]);
    law_feed_shows_nothing_else(page, records, empty, after, limit, owner, is_admin, i);
    law_pages_join(records, lens, limit as nat);
    law_changes_rise(records, lens);
    let all = all_changes(records, 0, lens);
    let rest = all_changes(records, 0, LensView { after: next_position(list, after), ..lens });
    assert(list + rest == all);
    assert(all[i] == list[i] && all[j] == list[j]);
    assert(x != y);
    if records[start].transaction_id == STANDALONE_TRANSACTION_ID {
        assert(unit.len() == 1);
    }
}

/// The feed is refused as too old only where the log has lost its beginning
/// and the reader is behind what is left of it.
pub proof fn law_feed_is_refused_only_where_records_are_gone(
    r: Result<ChangePage, ScanError>,
    records: Seq<WalRecordView>,
    empty: u64,
    after: u64,
    limit: usize,
    owner: Seq<char>,
    is_admin: bool,
)
    requires
        scans(r, records, empty, after, limit, owner, is_admin),
    ensures
        r matches Err(ScanError::TooOld(_)) ==> if records.len() == 0 {
            after < empty
        } else {
            records[0].sequence != 1 && after < records[0].operation_id
        },
        r is Ok && records.len() > 0 ==> records[0].sequence == 1 || after >= records[0].operation_id,
{
}

} // verus!
