//! Moving live records out of a segment.

use vstd::prelude::*;

use crate::binary::{RecordError, MAX_RECORD_PAYLOAD_LEN};
use crate::cache::{outside, CacheView, RecordCache};
use crate::heap::{
    candidates, dropped, has_segment, holds, inactive, keeps, law_scan_is_complete, lemma_candidate, lemma_locations_in,
    lemma_undisturbed, lemma_undisturbed_refl, lemma_undisturbed_trans, locations, record_at, segments_ok,
    stays_inactive, undisturbed, HeapRecord, HeapView, StoreError, StoreStep, StoreView,
};
use crate::keys::{edge_in_key, edge_out_key, history_key, in_key, lemma_edge_keys, out_key, version_key};
use crate::location::{law_location_round_trip, location_of};
use crate::record::{heap_fields, packed};
use crate::tables::apply::{lemma_agrees_kept, lemma_keeps_refl, lemma_keeps_trans, lemma_vacates_insert};
use crate::tables::model::{
    edges_ok, history_ok, lemma_edges_at, lemma_edges_insert, lemma_edges_kept, lemma_history_at, lemma_history_insert,
    lemma_history_kept, lemma_nodes_at, lemma_nodes_insert, lemma_nodes_kept, nodes_ok, points, Entries,
};
use crate::tables::{agrees, place_in, vacates, TableError, Tables};
use crate::text::utf8;
use crate::types::{EdgeId, EdgeIdView, RecordLocation};

verus! {

/// What an index finds a record by.
enum LiveKey {
    Node(String),
    Edge(EdgeId),
    History(String, u64),
}

/// Why a segment cannot be drained: a record in it cannot be read, or is too
/// long to be stored again, or the catalog does not know the segment that
/// records go to.
pub open spec fn damaged(v: StoreView, segment: u32, e: StoreError) -> bool {
    ||| nowhere(v, e)
    ||| exists|i: int| #[trigger] damaged_at(v, segment, i, e)
}

/// The catalog does not know the active segment.
pub open spec fn nowhere(v: StoreView, e: StoreError) -> bool {
    &&& !has_segment(v.catalog.segments, v.catalog.active_segment)
    &&& e == (StoreError::UnknownSegment { segment: v.catalog.active_segment })
}

proof fn lemma_nowhere(u: StoreView, v: StoreView, segment: u32, e: StoreError)
    requires
        undisturbed(u, v),
        nowhere(v, e),
    ensures
        damaged(u, segment, e),
{
    reveal(undisturbed);
}

/// What keeps a segment from being drained kept it from that before.
proof fn lemma_damaged(u: StoreView, v: StoreView, segment: u32, e: StoreError)
    requires
        undisturbed(u, v),
        segments_ok(u.catalog),
        segments_ok(v.catalog),
        inactive(u, segment),
        has_segment(u.catalog.segments, segment),
        damaged(v, segment, e),
    ensures
        damaged(u, segment, e),
{
    if nowhere(v, e) {
        lemma_nowhere(u, v, segment, e);
    } else {
        lemma_undisturbed(u, v, segment);
        let i = choose|i: int| #[trigger] damaged_at(v, segment, i, e);
        lemma_locations_in(v, segment, i);
        assert(damaged_at(u, segment, i, e));
    }
}

pub open spec fn damaged_at(v: StoreView, segment: u32, i: int, e: StoreError) -> bool {
    &&& 0 <= i < locations(v, segment).len()
    &&& match record_at(v, locations(v, segment)[i]) {
        Ok(r) => overlong(r, e),
        Err(x) => e == x,
    }
}

/// The record is too long for a frame.
pub open spec fn overlong(r: HeapView, e: StoreError) -> bool {
    let len = packed(heap_fields(r)).len();
    len > MAX_RECORD_PAYLOAD_LEN && e == StoreError::Frame(RecordError::TooLong { len: len as usize })
}

/// Why a segment was not drained.
#[derive(Clone, Copy, PartialEq, Eq, Debug, Structural)]
pub enum DrainError {
    /// A record could not be read or stored; nothing is lost.
    Kept(StoreError),
    /// There is no room; the tables are not in order any more.
    Lost(TableError),
}

/// An entry leads to the location.
spec fn leads_to(tree: Entries, l: RecordLocation) -> bool {
    exists|k: Seq<u8>| tree.contains_key(k) && location_of(#[trigger] tree[k]) == Some(l)
}

impl LiveKey {
    spec fn keys(self, r: HeapView) -> bool {
        match (self, r) {
            (LiveKey::Node(a), HeapView::Node(n)) => a@ == n.address,
            (LiveKey::Edge(id), HeapView::Edge(e)) => id@ == e.id(),
            (LiveKey::History(a, v), HeapView::History(h)) => a@ == h.address && v == h.version,
            _ => false,
        }
    }

    /// What the indexes find a record by.
    fn of(record: &HeapRecord) -> (r: LiveKey)
        ensures
            r.keys(record@),
    {
        match record {
            HeapRecord::Node(node) => LiveKey::Node(node.address.clone()),
            HeapRecord::Edge(edge) => LiveKey::Edge(edge.id()),
            HeapRecord::History(entry) => LiveKey::History(entry.address.clone(), entry.version),
        }
    }

    /// Where the indexes say that the record is.
    fn current_location(&self, tables: &Tables, Ghost(view): Ghost<HeapView>) -> (r: Option<RecordLocation>)
        requires
            tables.inv(),
            self.keys(view),
        ensures
            r == tables.place_of(view),
    {
        let raw = match self {
            LiveKey::Node(address) => tables.primary.get(address.as_str().as_bytes()),
            LiveKey::Edge(id) => tables.edge_out.get(&edge_out_key(&id.from, &id.kind, &id.to)),
            LiveKey::History(address, version) => tables.history.get(&history_key(address, *version)),
        };
        match raw {
            Some(bytes) => RecordLocation::decode(&bytes),
            None => None,
        }
    }
}

impl Tables {
    /// Where the indexes say that a record is.
    spec fn place_of(&self, r: HeapView) -> Option<RecordLocation> {
        match r {
            HeapView::Node(n) => place_in(self.primary@, utf8(n.address)),
            HeapView::Edge(e) => place_in(self.edge_out@, out_key(e.id())),
            HeapView::History(h) => place_in(self.history@, version_key(h.address, h.version)),
        }
    }

    /// An index leads to the location.
    spec fn led(&self, l: RecordLocation) -> bool {
        ||| leads_to(self.primary@, l)
        ||| leads_to(self.history@, l)
        ||| leads_to(self.edge_out@, l)
        ||| leads_to(self.edge_in@, l)
    }

    /// An index leads to a location just where the record there is found
    /// under its own key.
    proof fn lemma_led(&self, l: RecordLocation) -> (r: HeapView)
        requires
            self.inv(),
            self.led(l),
        ensures
            holds(self.store@, l, r),
            self.place_of(r) == Some(l),
    {
        let db = self@;
        if leads_to(self.primary@, l) {
            let k = choose|k: Seq<u8>| self.primary@.contains_key(k) && location_of(#[trigger] self.primary@[k]) == Some(l);
            let a = crate::tables::model::lemma_nodes_key(self.primary@, db.nodes, self.store@, k);
            lemma_nodes_at(self.primary@, db.nodes, self.store@, a);
            HeapView::Node(db.nodes[a])
        } else if leads_to(self.history@, l) {
            reveal(history_ok);
            let k = choose|k: Seq<u8>| self.history@.contains_key(k) && location_of(#[trigger] self.history@[k]) == Some(l);
            let x = choose|x: (Seq<char>, u64)| #[trigger] db.history.contains_key(x) && k == version_key(x.0, x.1);
            HeapView::History(db.history[x])
        } else if leads_to(self.edge_out@, l) {
            reveal(edges_ok);
            let k = choose|k: Seq<u8>|
                self.edge_out@.contains_key(k) && location_of(#[trigger] self.edge_out@[k]) == Some(l);
            let id = choose|id: EdgeIdView| #[trigger] db.edges.contains_key(id) && k == out_key(id);
            HeapView::Edge(db.edges[id])
        } else {
            reveal(edges_ok);
            let k = choose|k: Seq<u8>|
                self.edge_in@.contains_key(k) && location_of(#[trigger] self.edge_in@[k]) == Some(l);
            let id = choose|id: EdgeIdView| #[trigger] db.edges.contains_key(id) && k == in_key(id);
            HeapView::Edge(db.edges[id])
        }
    }

    proof fn lemma_placed(&self, l: RecordLocation, r: HeapView)
        requires
            self.inv(),
            record_at(self.store@, l) == Ok::<HeapView, StoreError>(r),
        ensures
            self.led(l) <==> self.place_of(r) == Some(l),
    {
        if self.led(l) {
            let s = self.lemma_led(l);
            assert(r == s);
        }
        if self.place_of(r) == Some(l) {
            match r {
                HeapView::Node(n) => {
                    assert(location_of(self.primary@[utf8(n.address)]) == Some(l));
                },
                HeapView::Edge(e) => {
                    assert(location_of(self.edge_out@[out_key(e.id())]) == Some(l));
                },
                HeapView::History(h) => {
                    assert(location_of(self.history@[version_key(h.address, h.version)]) == Some(l));
                },
            }
        }
    }
}

/// Entries of `b` that lead into the segment are entries of `a`.
spec fn fewer(a: Entries, b: Entries, segment: u32) -> bool {
    forall|l: RecordLocation| l.segment == segment && #[trigger] leads_to(b, l) ==> leads_to(a, l)
}

proof fn lemma_fewer_insert(tree: Entries, key: Seq<u8>, bytes: Seq<u8>, segment: u32)
    requires
        location_of(bytes) is Some,
        location_of(bytes)->0.segment != segment,
    ensures
        fewer(tree, tree.insert(key, bytes), segment),
{
    let next = tree.insert(key, bytes);
    assert forall|l: RecordLocation| l.segment == segment && #[trigger] leads_to(next, l) implies leads_to(tree, l) by {
        let k = choose|k: Seq<u8>| next.contains_key(k) && location_of(#[trigger] next[k]) == Some(l);
        assert(k != key);
        assert(tree.contains_key(k) && location_of(tree[k]) == Some(l));
    }
}

impl Tables {
    /// The tables differ in where their records are, and nothing leads into
    /// the segment that did not before.
    spec fn moved(&self, after: &Tables, segment: u32) -> bool {
        &&& after@ == self@
        &&& keeps(self.store@, after.store@)
        &&& stays_inactive(self.store@, after.store@)
        &&& undisturbed(self.store@, after.store@)
        &&& self.keeps_spare(after)
        &&& fewer(self.primary@, after.primary@, segment)
        &&& fewer(self.history@, after.history@, segment)
        &&& fewer(self.edge_out@, after.edge_out@, segment)
        &&& fewer(self.edge_in@, after.edge_in@, segment)
    }

    /// Makes the indexes lead to a record's new place.
    fn repoint(
        &mut self,
        key: &LiveKey,
        location: RecordLocation,
        from: RecordLocation,
        Ghost(r): Ghost<HeapView>,
    ) -> (done: Result<(), TableError>)
        requires
            old(self).inv(),
            key.keys(r),
            old(self).place_of(r) == Some(from),
            record_at(old(self).store@, from) == Ok::<HeapView, StoreError>(r),
            holds(old(self).store@, location, r),
            location.segment != from.segment,
            forall|s: u32| #[trigger] old(self).spare(s) ==> location.segment != s,
        ensures
            final(self).store == old(self).store,
            match done {
                Ok(()) => {
                    &&& final(self).inv()
                    &&& old(self).moved(final(self), from.segment)
                    &&& final(self).place_of(r) == Some(location)
                },
                Err(_) => !final(self).has_room(),
            },
    {
        let ghost db = self@;
        let ghost segment = from.segment;
        let encoded = location.encode();
        proof {
            law_location_round_trip(location);
            lemma_undisturbed_refl(self.store@);
            reveal(Tables::keeps_spare);
            reveal(stays_inactive);
        }
        match key {
            LiveKey::Node(address) => {
                let ghost t = self.primary@;
                let ghost a = address@;
                proof {
                    lemma_nodes_at(t, db.nodes, self.store@, a);
                    assert(HeapView::Node(db.nodes[a]) == r);
                    assert(db.nodes[a].address == a);
                }
                match self.primary.put(address.as_str().as_bytes(), &encoded) {
                    Ok(()) => {},
                    Err(e) => { return Err(TableError::Tree(e)) },
                }
                proof {
                    lemma_nodes_insert(t, db.nodes, self.store@, db.nodes[a], encoded@);
                    assert(db.nodes.insert(a, db.nodes[a]) =~= db.nodes);
                    lemma_fewer_insert(t, utf8(a), encoded@, segment);
                    assert forall|s: u32| #[trigger] old(self).spare(s) implies self.spare(s) by {
                        lemma_vacates_insert(t, utf8(a), encoded@, s);
                    }
                }
            },
            LiveKey::Edge(id) => {
                let out = edge_out_key(&id.from, &id.kind, &id.to);
                let into = edge_in_key(&id.to, &id.kind, &id.from);
                let ghost o = self.edge_out@;
                let ghost i = self.edge_in@;
                proof {
                    assert(out@ == out_key(id@));
                    assert(into@ == in_key(id@));
                    lemma_edges_at(o, i, db.edges, self.store@, id@);
                    assert(HeapView::Edge(db.edges[id@]) == r);
                    reveal(edges_ok);
                    assert(crate::tables::model::edge_fits(db.edges[id@]));
                    lemma_edge_keys(id@, id@);
                }
                match self.edge_out.put(&out, &encoded) {
                    Ok(()) => {},
                    Err(e) => { return Err(TableError::Tree(e)) },
                }
                match self.edge_in.put(&into, &encoded) {
                    Ok(()) => {},
                    Err(e) => { return Err(TableError::Tree(e)) },
                }
                proof {
                    lemma_edges_insert(o, i, db.edges, self.store@, db.edges[id@], encoded@);
                    assert(db.edges.insert(id@, db.edges[id@]) =~= db.edges);
                    lemma_fewer_insert(o, out@, encoded@, segment);
                    lemma_fewer_insert(i, into@, encoded@, segment);
                    assert forall|s: u32| #[trigger] old(self).spare(s) implies self.spare(s) by {
                        lemma_vacates_insert(o, out@, encoded@, s);
                        lemma_vacates_insert(i, into@, encoded@, s);
                    }
                }
            },
            LiveKey::History(address, version) => {
                let place = history_key(address, *version);
                let ghost t = self.history@;
                let ghost x = (address@, *version);
                proof {
                    self.history.lemma_wf();
                    lemma_history_at(t, db.history, self.store@, x);
                    assert(HeapView::History(db.history[x]) == r);
                    reveal(history_ok);
                }
                match self.history.put(&place, &encoded) {
                    Ok(()) => {},
                    Err(e) => { return Err(TableError::Tree(e)) },
                }
                proof {
                    lemma_history_insert(t, db.history, self.store@, db.history[x], encoded@);
                    assert(db.history.insert(x, db.history[x]) =~= db.history);
                    lemma_fewer_insert(t, place@, encoded@, segment);
                    assert forall|s: u32| #[trigger] old(self).spare(s) implies self.spare(s) by {
                        lemma_vacates_insert(t, place@, encoded@, s);
                    }
                }
            },
        }
        Ok(())
    }
}

impl Tables {
    /// Moves a record out of its segment, if an index leads to it there.
    fn move_record(&mut self, from: RecordLocation, record: &HeapRecord, cache: &RecordCache) -> (r: Result<
        (),
        DrainError,
    >)
        requires
            old(self).inv(),
            agrees(cache@, old(self).heap()),
            inactive(old(self).store@, from.segment),
            record_at(old(self).store@, from) == Ok::<HeapView, StoreError>(record@),
        ensures
            agrees(cache@, final(self).heap()),
            match r {
                Ok(()) => {
                    &&& final(self).inv()
                    &&& inactive(final(self).store@, from.segment)
                    &&& old(self).moved(final(self), from.segment)
                    &&& !final(self).led(from)
                },
                Err(DrainError::Kept(e)) => {
                    &&& overlong(record@, e) || nowhere(old(self).store@, e)
                    &&& final(self).inv()
                    &&& inactive(final(self).store@, from.segment)
                    &&& old(self).moved(final(self), from.segment)
                },
                Err(DrainError::Lost(_)) => !final(self).has_room(),
            },
    {
        let ghost view = record@;
        let ghost before = *self;
        let key = LiveKey::of(record);
        proof {
            self.lemma_placed(from, view);
            lemma_moved_refl(*self, from.segment);
        }
        let at = match key.current_location(self, Ghost(view)) {
            Some(at) => at,
            None => { return Ok(()) },
        };
        if !(at.segment == from.segment && at.page == from.page && at.slot == from.slot && at.length == from.length) {
            return Ok(());
        }
        let ghost db = self@;
        let ghost s0 = self.store@;
        let location = match self.store.append(record) {
            Ok(location) => location,
            Err(StoreError::Full) => {
                proof {
                    lemma_agrees_kept(cache@, s0, self.store@);
                }
                return Err(DrainError::Lost(TableError::Heap(StoreError::Full)));
            },
            Err(e) => {
                proof {
                    lemma_agrees_kept(cache@, s0, self.store@);
                    reveal(Tables::keeps_spare);
                    reveal(stays_inactive);
                }
                return Err(DrainError::Kept(e));
            },
        };
        let ghost s1 = self.store@;
        let ghost mid = *self;
        proof {
            lemma_agrees_kept(cache@, s0, s1);
            lemma_nodes_kept(self.primary@, db.nodes, s0, s1);
            lemma_edges_kept(self.edge_out@, self.edge_in@, db.edges, s0, s1);
            lemma_history_kept(self.history@, db.history, s0, s1);
            assert(self.inv());
            assert(inactive(s0, from.segment));
            assert forall|s: u32| #[trigger] self.spare(s) implies location.segment != s by {
                assert(inactive(s1, s));
            }
        }
        match self.repoint(&key, location, from, Ghost(view)) {
            Ok(()) => {},
            Err(e) => { return Err(DrainError::Lost(e)) },
        }
        proof {
            reveal(Tables::keeps_spare);
            reveal(stays_inactive);
            assert forall|s: u32| #[trigger] before.spare(s) implies self.spare(s) by {
                assert(inactive(s0, s));
                assert(mid.spare(s));
            }
            assert(record_at(s1, from) == record_at(s0, from));
            self.lemma_placed(from, view);
        }
        Ok(())
    }
}

proof fn lemma_moved_refl(t: Tables, segment: u32)
    ensures
        t.moved(&t, segment),
{
    reveal(Tables::keeps_spare);
    reveal(stays_inactive);
    lemma_keeps_refl(t.store@);
    lemma_undisturbed_refl(t.store@);
}

proof fn lemma_agrees_outside(entries: CacheView, u: StoreView, v: StoreView, segment: u32)
    requires
        agrees(entries, u),
        forall|l: RecordLocation| l.segment != segment ==> #[trigger] record_at(v, l) == record_at(u, l),
    ensures
        agrees(outside(entries, segment), v),
{
    let keep = |e: (RecordLocation, crate::types::NodeView)| e.0.segment != segment;
    let rest = outside(entries, segment);
    assert forall|i: int| 0 <= i < rest.len() implies record_at(v, (#[trigger] rest[i]).0) == Ok::<
        HeapView,
        StoreError,
    >(HeapView::Node(rest[i].1)) by {
        crate::seqs::lemma_filter_member(entries, keep, i);
        let j = choose|j: int| 0 <= j < entries.len() && entries[j] == rest[i];
        assert(record_at(u, entries[j].0) == Ok::<HeapView, StoreError>(HeapView::Node(entries[j].1)));
    }
}

proof fn lemma_stays(u: StoreView, v: StoreView, s: u32)
    requires
        stays_inactive(u, v),
        inactive(u, s),
    ensures
        inactive(v, s),
{
    reveal(stays_inactive);
}

proof fn lemma_stays_trans(u: StoreView, v: StoreView, w: StoreView)
    requires
        stays_inactive(u, v),
        stays_inactive(v, w),
    ensures
        stays_inactive(u, w),
{
    reveal(stays_inactive);
}

pub proof fn lemma_spare_kept(a: Tables, b: Tables, s: u32)
    requires
        a.keeps_spare(&b),
        a.spare(s),
    ensures
        b.spare(s),
{
    reveal(Tables::keeps_spare);
}

pub proof fn lemma_spare_trans(a: Tables, b: Tables, c: Tables)
    requires
        a.keeps_spare(&b),
        b.keeps_spare(&c),
    ensures
        a.keeps_spare(&c),
{
    reveal(Tables::keeps_spare);
}

/// Records outside the segment are where they were.
spec fn keeps_outside(u: StoreView, v: StoreView, segment: u32) -> bool {
    forall|l: RecordLocation, x: HeapView| l.segment != segment && #[trigger] holds(u, l, x) ==> holds(v, l, x)
}

proof fn lemma_points_outside(tree: Entries, k: Seq<u8>, u: StoreView, v: StoreView, segment: u32, r: HeapView)
    requires
        keeps_outside(u, v, segment),
        vacates(tree, segment),
        tree.contains_key(k),
        points(u, tree[k], r),
    ensures
        points(v, tree[k], r),
{
    let l = location_of(tree[k])->0;
    assert(holds(u, l, r));
}

proof fn lemma_nodes_dropped(
    tree: Entries,
    nodes: crate::tables::model::Nodes,
    u: StoreView,
    v: StoreView,
    segment: u32,
)
    requires
        nodes_ok(tree, nodes, u),
        vacates(tree, segment),
        keeps_outside(u, v, segment),
    ensures
        nodes_ok(tree, nodes, v),
{
    reveal(nodes_ok);
    assert forall|a: Seq<char>| #[trigger] nodes.contains_key(a) implies tree.contains_key(utf8(a)) && points(
        v,
        tree[utf8(a)],
        HeapView::Node(nodes[a]),
    ) by {
        lemma_points_outside(tree, utf8(a), u, v, segment, HeapView::Node(nodes[a]));
    }
}

proof fn lemma_history_dropped(
    tree: Entries,
    history: Map<(Seq<char>, u64), crate::types::HistoryView>,
    u: StoreView,
    v: StoreView,
    segment: u32,
)
    requires
        history_ok(tree, history, u),
        vacates(tree, segment),
        keeps_outside(u, v, segment),
    ensures
        history_ok(tree, history, v),
{
    reveal(history_ok);
    assert forall|x: (Seq<char>, u64)| #[trigger] history.contains_key(x) implies points(
        v,
        tree[version_key(x.0, x.1)],
        HeapView::History(history[x]),
    ) by {
        lemma_points_outside(tree, version_key(x.0, x.1), u, v, segment, HeapView::History(history[x]));
    }
}

proof fn lemma_edges_dropped(
    outs: Entries,
    ins: Entries,
    edges: Map<EdgeIdView, crate::types::EdgeView>,
    u: StoreView,
    v: StoreView,
    segment: u32,
)
    requires
        edges_ok(outs, ins, edges, u),
        vacates(outs, segment),
        keeps_outside(u, v, segment),
    ensures
        edges_ok(outs, ins, edges, v),
{
    reveal(edges_ok);
    assert forall|id: EdgeIdView| #[trigger] edges.contains_key(id) implies points(
        v,
        outs[out_key(id)],
        HeapView::Edge(edges[id]),
    ) by {
        lemma_points_outside(outs, out_key(id), u, v, segment, HeapView::Edge(edges[id]));
    }
}

proof fn lemma_moved_trans(a: Tables, b: Tables, c: Tables, segment: u32)
    requires
        a.moved(&b, segment),
        b.moved(&c, segment),
    ensures
        a.moved(&c, segment),
{
    reveal(Tables::keeps_spare);
    reveal(stays_inactive);
    lemma_keeps_trans(a.store@, b.store@, c.store@);
    lemma_undisturbed_trans(a.store@, b.store@, c.store@);
}

impl Tables {
    /// Moves every record that an index leads to out of a segment that takes
    /// no more of them.
    #[verifier::rlimit(30)]
    pub(crate) fn drain_segment(&mut self, segment: u32, cache: &RecordCache) -> (r: Result<(), DrainError>)
        requires
            old(self).inv(),
            agrees(cache@, old(self).heap()),
            inactive(old(self).heap(), segment),
            has_segment(old(self).heap().catalog.segments, segment),
        ensures
            agrees(cache@, final(self).heap()),
            match r {
                Ok(()) => {
                    &&& final(self).inv()
                    &&& final(self)@ == old(self)@
                    &&& old(self).keeps_spare(final(self))
                    &&& stays_inactive(old(self).heap(), final(self).heap())
                    &&& keeps(old(self).heap(), final(self).heap())
                    &&& undisturbed(old(self).heap(), final(self).heap())
                    &&& final(self).spare(segment)
                },
                Err(DrainError::Kept(e)) => {
                    &&& damaged(old(self).heap(), segment, e)
                    &&& final(self).inv()
                    &&& final(self)@ == old(self)@
                    &&& old(self).keeps_spare(final(self))
                    &&& stays_inactive(old(self).heap(), final(self).heap())
                },
                Err(DrainError::Lost(_)) => !final(self).has_room(),
            },
    {
        let ghost start = *self;
        let ghost v0 = self.store@;
        proof {
            lemma_moved_refl(start, segment);
            self.store.lemma_wf();
        }
        let found = match self.store.scan_segment(segment) {
            Ok(found) => found,
            Err(e) => {
                proof {
                    let i = choose|i: int| {
                        &&& 0 <= i < locations(v0, segment).len()
                        &&& record_at(v0, #[trigger] locations(v0, segment)[i]) == Err::<HeapView, StoreError>(e)
                    };
                    assert(damaged_at(v0, segment, i, e));
                }
                return Err(DrainError::Kept(e));
            },
        };
        let mut i: usize = 0;
        proof {
            assert forall|j: int| 0 <= j < found@.len() implies (#[trigger] found@[j]).0.segment == segment by {
                lemma_locations_in(v0, segment, j);
            }
        }
        while i < found.len()
            invariant
                i <= found@.len(),
                self.inv(),
                agrees(cache@, self.heap()),
                inactive(self.store@, segment),
                start.moved(self, segment),
                v0 == start.store@,
                start == *old(self),
                found@.len() == locations(v0, segment).len(),
                forall|j: int|
                    0 <= j < found@.len() ==> (#[trigger] found@[j]).0 == locations(v0, segment)[j] && record_at(
                        v0,
                        found@[j].0,
                    ) == Ok::<HeapView, StoreError>(found@[j].1@) && found@[j].0.segment == segment,
                forall|j: int| 0 <= j < i ==> !self.led((#[trigger] found@[j]).0),
            decreases found.len() - i,
        {
            let ghost before = *self;
            let (from, record) = &found[i];
            proof {
                assert(found@[i as int].0 == *from);
                assert(record_at(self.store@, *from) == record_at(v0, *from));
            }
            match self.move_record(*from, record, cache) {
                Ok(()) => {},
                Err(e) => {
                    proof {
                        if let DrainError::Kept(x) = e {
                            lemma_moved_trans(start, before, *self, segment);
                            if overlong(record@, x) {
                                assert(damaged_at(v0, segment, i as int, x));
                            } else {
                                lemma_nowhere(v0, before.store@, segment, x);
                            }
                        }
                    }
                    return Err(e);
                },
            }
            proof {
                lemma_moved_trans(start, before, *self, segment);
                assert forall|j: int| 0 <= j < i + 1 implies !self.led((#[trigger] found@[j]).0) by {
                    if j < i {
                        assert(!before.led(found@[j].0));
                    }
                }
            }
            i = i + 1;
        }
        proof {
            assert forall|l: RecordLocation| l.segment == segment implies !#[trigger] self.led(l) by {
                if self.led(l) {
                    assert(start.led(l));
                    let r = start.lemma_led(l);
                    assert(has_segment(v0.catalog.segments, segment));
                    start.store.lemma_wf();
                    law_scan_is_complete(v0, l, r);
                    let j = choose|j: int| 0 <= j < locations(v0, segment).len() && locations(v0, segment)[j] == l;
                    assert(found@[j].0 == l);
                }
            }
            assert forall|k: Seq<u8>|
                self.primary@.contains_key(k) && location_of(#[trigger] self.primary@[k]) is Some implies location_of(
                self.primary@[k],
            )->0.segment != segment by {
                let l = location_of(self.primary@[k])->0;
                assert(leads_to(self.primary@, l));
                assert(self.led(l));
            }
            assert forall|k: Seq<u8>|
                self.history@.contains_key(k) && location_of(#[trigger] self.history@[k]) is Some implies location_of(
                self.history@[k],
            )->0.segment != segment by {
                let l = location_of(self.history@[k])->0;
                assert(leads_to(self.history@, l));
                assert(self.led(l));
            }
            assert forall|k: Seq<u8>|
                self.edge_out@.contains_key(k) && location_of(#[trigger] self.edge_out@[k]) is Some implies location_of(
                self.edge_out@[k],
            )->0.segment != segment by {
                let l = location_of(self.edge_out@[k])->0;
                assert(leads_to(self.edge_out@, l));
                assert(self.led(l));
            }
            assert forall|k: Seq<u8>|
                self.edge_in@.contains_key(k) && location_of(#[trigger] self.edge_in@[k]) is Some implies location_of(
                self.edge_in@[k],
            )->0.segment != segment by {
                let l = location_of(self.edge_in@[k])->0;
                assert(leads_to(self.edge_in@, l));
                assert(self.led(l));
            }
            assert(self.spare(segment));
        }
        Ok(())
    }

    /// Drains up to `most` segments of which a share of `part` in `whole` is
    /// obsolete; says which.
    pub(crate) fn compact(&mut self, part: u32, whole: u32, most: usize, cache: &RecordCache) -> (r: Result<
        Vec<u32>,
        DrainError,
    >)
        requires
            old(self).inv(),
            agrees(cache@, old(self).heap()),
        ensures
            agrees(cache@, final(self).heap()),
            match r {
                Ok(drained) => {
                    &&& final(self).inv()
                    &&& final(self)@ == old(self)@
                    &&& old(self).keeps_spare(final(self))
                    &&& drained@ == (if candidates(old(self).heap().catalog, part as nat, whole as nat).len() < most {
                        candidates(old(self).heap().catalog, part as nat, whole as nat)
                    } else {
                        candidates(old(self).heap().catalog, part as nat, whole as nat).take(most as int)
                    })
                    &&& forall|i: int| 0 <= i < drained@.len() ==> final(self).spare(#[trigger] drained@[i])
                    &&& keeps(old(self).heap(), final(self).heap())
                    &&& undisturbed(old(self).heap(), final(self).heap())
                },
                Err(DrainError::Kept(e)) => {
                    &&& exists|k: int|
                        0 <= k < most && k < candidates(
                            old(self).heap().catalog,
                            part as nat,
                            whole as nat,
                        ).len() && #[trigger] damaged(
                            old(self).heap(),
                            candidates(old(self).heap().catalog, part as nat, whole as nat)[k],
                            e,
                        )
                    &&& final(self).inv()
                    &&& final(self)@ == old(self)@
                    &&& old(self).keeps_spare(final(self))
                },
                Err(DrainError::Lost(_)) => !final(self).has_room(),
            },
    {
        let ghost all = candidates(self.heap().catalog, part as nat, whole as nat);
        let ghost v0 = self.store@;
        let ghost start = *self;
        let list = self.store.compaction_candidates(part, whole);
        let n: usize = if list.len() < most {
            list.len()
        } else {
            most
        };
        let mut drained: Vec<u32> = Vec::new();
        let mut i: usize = 0;
        proof {
            reveal(Tables::keeps_spare);
            reveal(stays_inactive);
            self.store.lemma_wf();
            lemma_keeps_refl(self.store@);
            lemma_undisturbed_refl(self.store@);
            assert forall|k: int| 0 <= k < list@.len() implies inactive(v0, #[trigger] list@[k]) && has_segment(
                v0.catalog.segments,
                list@[k],
            ) by {
                lemma_candidate(v0, part as nat, whole as nat, k);
            }
        }
        while i < n
            invariant
                i <= n <= list@.len(),
                self.inv(),
                self@ == start@,
                start == *old(self),
                v0 == start.store@,
                start.inv(),
                start.keeps_spare(self),
                agrees(cache@, self.heap()),
                drained@ == list@.take(i as int),
                forall|k: int|
                    0 <= k < list@.len() ==> inactive(v0, #[trigger] list@[k]) && has_segment(
                        v0.catalog.segments,
                        list@[k],
                    ),
                undisturbed(v0, self.store@),
                stays_inactive(v0, self.store@),
                keeps(v0, self.store@),
                list@ == all,
                n <= most,
                all == candidates(old(self).heap().catalog, part as nat, whole as nat),
                forall|k: int| 0 <= k < i ==> self.spare(#[trigger] list@[k]),
            decreases n - i,
        {
            let segment: u32 = list[i];
            let ghost before = *self;
            proof {
                assert(inactive(v0, list@[i as int]));
                lemma_stays(v0, self.store@, segment);
                start.store.lemma_wf();
                self.store.lemma_wf();
                lemma_undisturbed(v0, self.store@, segment);
            }
            match self.drain_segment(segment, cache) {
                Ok(()) => {},
                Err(e) => {
                    proof {
                        if let DrainError::Kept(x) = e {
                            lemma_spare_trans(start, before, *self);
                            lemma_damaged(v0, before.store@, segment, x);
                            assert(damaged(v0, all[i as int], x));
                        }
                    }
                    return Err(e);
                },
            }
            drained.push(segment);
            proof {
                lemma_spare_trans(start, before, *self);
                lemma_stays_trans(v0, before.store@, self.store@);
                lemma_keeps_trans(v0, before.store@, self.store@);
                lemma_undisturbed_trans(v0, before.store@, self.store@);
                assert(drained@ =~= list@.take(i + 1));
                assert forall|k: int| 0 <= k < i + 1 implies self.spare(#[trigger] list@[k]) by {
                    if k < i {
                        assert(before.spare(list@[k]));
                        lemma_spare_kept(before, *self, list@[k]);
                    }
                }
            }
            i = i + 1;
        }
        proof {
            if all.len() < most {
                assert(list@.take(n as int) =~= all);
            }
            assert forall|k: int| 0 <= k < drained@.len() implies self.spare(#[trigger] drained@[k]) by {
                assert(self.spare(list@[k]));
            }
        }
        Ok(drained)
    }

    /// Takes a segment that nothing leads into out of the heap; the steps say
    /// what is to happen to its file.
    pub(crate) fn drop_segment(&mut self, segment: u32, cache: &mut RecordCache) -> (r: Vec<StoreStep>)
        requires
            old(self).inv(),
            old(self).spare(segment),
            old(cache).wf(),
            agrees(old(cache)@, old(self).heap()),
        ensures
            final(self).inv(),
            final(self)@ == old(self)@,
            final(self).heap() == dropped(old(self).heap(), segment),
            old(self).keeps_spare(final(self)),
            old(self).settled() ==> final(self).settled(),
            final(cache).wf(),
            agrees(final(cache)@, final(self).heap()),
            r@ == seq![StoreStep::SaveCatalog, StoreStep::Remove(segment)],
    {
        let ghost u = self.store@;
        let ghost entries = cache@;
        let steps = self.store.drop_segment(segment);
        let ghost v = self.store@;
        cache.forget_segment(segment);
        proof {
            reveal(Tables::keeps_spare);
            let db = self@;
            lemma_nodes_dropped(self.primary@, db.nodes, u, v, segment);
            lemma_history_dropped(self.history@, db.history, u, v, segment);
            lemma_edges_dropped(self.edge_out@, self.edge_in@, db.edges, u, v, segment);
            lemma_agrees_outside(entries, u, v, segment);
        }
        steps
    }
}

} // verus!
