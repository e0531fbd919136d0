//! From the steps of a transaction to operations.

use vstd::prelude::*;

use crate::cache::RecordCache;
use crate::defs::{ReferenceDef, ReferentialAction};
use crate::filter::{evaluates, judge, verdict_view, Filter};
use crate::json::{field_of, same_value, Json};
use crate::order::{encode_order_value, lemma_code_prefix, order_code};
use crate::sort::{has_text, sorted_distinct, texts_sorted};
use crate::tables::lists::{covers, data_find, lemma_covers, reference_defs};
use crate::tables::model::{lemma_nodes_at, DbView, Nodes};
use crate::tables::plan::{
    cascaded, chosen, condition, delete_closure, faithful, followed, fresh_stage, is_child, lemma_cascade_grows,
    listing, nulled, removed_all, selection_deleted, stepped, suspect, worked_out, writable, StageView,
};
use crate::tables::read::node_in;
use crate::tables::refs::{referenced_key, referencing_key};
use crate::tables::rows::{belongs, is_listing, law_listing_is_unique, live, scanned, under_prefix, RankBy};
use crate::tables::stage::{in_group, Stage};
use crate::tables::{agrees, Tables};
use crate::text::{str_eq, text_lt, utf8};
use crate::textmap::TextMap;
use crate::transaction::{
    set_if_next, with_field_null, EdgeEnd, Invalidity, StorageFault, TransactionError, TxErrorView, TxOperation, Unmet,
};
use crate::types::{Node, NodeView};
use crate::wal::Operation;

verus! {

pub open spec fn nodes_view(nodes: Seq<Node>) -> Seq<NodeView> {
    Seq::new(nodes.len(), |i: int| nodes[i]@)
}

proof fn lemma_listing_is(rows: Seq<NodeView>, nodes: Nodes, pick: spec_fn(NodeView) -> bool)
    requires
        is_listing(rows, nodes, pick, RankBy::Address, None, false),
    ensures
        listing(nodes, pick) == rows,
{
    law_listing_is_unique(listing(nodes, pick), rows, nodes, pick, RankBy::Address, None, false);
}

/// The rows are those of the first `i` addresses that are picked.
spec fn gathered(
    rows: Seq<NodeView>,
    nodes: Nodes,
    pick: spec_fn(NodeView) -> bool,
    list: Seq<String>,
    i: int,
) -> bool {
    &&& forall|x: int, y: int|
        0 <= x < y < rows.len() ==> text_lt((#[trigger] rows[x]).address, (#[trigger] rows[y]).address)
    &&& forall|x: int|
        0 <= x < rows.len() ==> live(nodes, #[trigger] rows[x]) && pick(rows[x]) && listed_before(
            list,
            i,
            rows[x].address,
        )
    &&& forall|k: int|
        0 <= k < i ==> (node_in(nodes, (#[trigger] list[k])@) matches Some(n) ==> (pick(n) ==> rows.contains(n)))
}

spec fn listed_before(list: Seq<String>, i: int, a: Seq<char>) -> bool {
    exists|k: int| 0 <= k < i && (#[trigger] list[k])@ == a
}

proof fn lemma_gather_push(
    rows: Seq<NodeView>,
    nodes: Nodes,
    pick: spec_fn(NodeView) -> bool,
    list: Seq<String>,
    i: int,
    n: NodeView,
)
    requires
        gathered(rows, nodes, pick, list, i),
        0 <= i < list.len(),
        texts_sorted(list),
        n.address == list[i]@,
        live(nodes, n),
        pick(n),
    ensures
        gathered(rows.push(n), nodes, pick, list, i + 1),
{
    let next = rows.push(n);
    assert forall|x: int, y: int| 0 <= x < y < next.len() implies text_lt(
        (#[trigger] next[x]).address,
        (#[trigger] next[y]).address,
    ) by {
        assert(next[x] == rows[x]);
        if y < rows.len() {
            assert(next[y] == rows[y]);
        } else {
            assert(listed_before(list, i, rows[x].address));
            let k = choose|k: int| 0 <= k < i && (#[trigger] list[k])@ == rows[x].address;
            assert(text_lt(list[k]@, list[i]@));
        }
    }
    assert forall|x: int| 0 <= x < next.len() implies live(nodes, #[trigger] next[x]) && pick(next[x])
        && listed_before(list, i + 1, next[x].address) by {
        if x < rows.len() {
            assert(next[x] == rows[x]);
            let k = choose|k: int| 0 <= k < i && (#[trigger] list[k])@ == rows[x].address;
            assert(list[k]@ == next[x].address);
        } else {
            assert(list[i]@ == next[x].address);
        }
    }
    assert forall|k: int| 0 <= k < i + 1 implies (node_in(nodes, (#[trigger] list[k])@) matches Some(m) ==> (pick(m)
        ==> next.contains(m))) by {
        match node_in(nodes, list[k]@) {
            Some(m) => {
                if pick(m) {
                    if k < i {
                        assert(rows.contains(m));
                        let w = choose|w: int| 0 <= w < rows.len() && rows[w] == m;
                        assert(next[w] == m);
                    } else {
                        assert(next[rows.len() as int] == m);
                    }
                }
            },
            None => {},
        }
    }
}

proof fn lemma_gather_skip(
    rows: Seq<NodeView>,
    nodes: Nodes,
    pick: spec_fn(NodeView) -> bool,
    list: Seq<String>,
    i: int,
)
    requires
        gathered(rows, nodes, pick, list, i),
        0 <= i < list.len(),
        node_in(nodes, list[i]@) matches Some(n) ==> !pick(n),
    ensures
        gathered(rows, nodes, pick, list, i + 1),
{
    assert forall|x: int| 0 <= x < rows.len() implies live(nodes, #[trigger] rows[x]) && pick(rows[x])
        && listed_before(list, i + 1, rows[x].address) by {
        let k = choose|k: int| 0 <= k < i && (#[trigger] list[k])@ == rows[x].address;
        assert(list[k]@ == rows[x].address);
    }
}

proof fn lemma_gathered_all(
    rows: Seq<NodeView>,
    nodes: Nodes,
    pick: spec_fn(NodeView) -> bool,
    list: Seq<String>,
)
    requires
        gathered(rows, nodes, pick, list, list.len() as int),
        forall|n: NodeView| live(nodes, n) && #[trigger] pick(n) ==> has_text(list, n.address),
    ensures
        is_listing(rows, nodes, pick, RankBy::Address, None, false),
        listing(nodes, pick) == rows,
{
    assert forall|n: NodeView| #[trigger] belongs(nodes, pick, RankBy::Address, None, false, n) implies rows.contains(
        n,
    ) by {
        assert(pick(n));
        let k = choose|k: int| 0 <= k < list.len() && (#[trigger] list[k])@ == n.address;
        assert(node_in(nodes, list[k]@) == Some(n));
    }
    lemma_listing_is(rows, nodes, pick);
}

impl Tables {
    /// The nodes that name `key` through a reference, as a step sees them,
    /// but for those deleted; none if the index to find them is gone.
    fn referencing_nodes(
        &self,
        def: &ReferenceDef,
        key: &Json,
        stage: &Stage,
        kinds: &TextMap<Vec<String>>,
        dead: &TextMap<()>,
        cache: &mut RecordCache,
        Ghost(origin): Ghost<StageView>,
    ) -> (r: Option<Vec<Node>>)
        requires
            self.inv(),
            stage.wf(self@),
            old(cache).wf(),
            agrees(old(cache)@, self.heap()),
            kinds.wf(),
            dead.wf(),
            forall|kind: Seq<char>, a: Seq<char>| #[trigger]
                in_group(kinds@, kind, a) <==> origin.written.contains(a) && origin.nodes[a].kind == kind,
        ensures
            final(cache).wf(),
            agrees(final(cache)@, self.heap()),
            match r {
                Some(kids) => covers(self@.data, def@.kind, def@.field) is Some && nodes_view(kids@) == listing(
                    stage@.nodes,
                    is_child(self@, origin, def@, key@, dead@.dom()),
                ),
                None => covers(self@.data, def@.kind, def@.field) is None,
            },
    {
        let ghost db = self@;
        let ghost nodes = db.nodes;
        let x: usize = match data_find(&self.data, &def.kind, &def.field) {
            Some(x) => x,
            None => { return None },
        };
        let ghost d = db.data[x as int];
        let code = encode_order_value(Some(key));
        let ghost under = under_prefix(d.kind, d.field, code@);
        let ghost by = RankBy::Field(d.field);
        proof {
            lemma_covers(db.data, def@.kind, def@.field);
        }
        let mut found: Vec<String> = Vec::new();
        let mut rows = self.scan_data(x, crate::bytes::copy_bytes(&code), None, false);
        let ghost all = rows.all();
        loop
            invariant
                rows.wf(self),
                rows.all() == all,
                found@.len() == rows.taken(),
                forall|k: int| 0 <= k < found@.len() ==> (#[trigger] found@[k])@ == all[k].address,
            ensures
                rows.taken() == all.len(),
            decreases all.len() - rows.taken(),
        {
            match rows.next_address(self) {
                None => {
                    break;
                },
                Some(address) => {
                    found.push(address);
                },
            }
        }
        let ghost scanned_part = found@;
        match kinds.get(&def.kind) {
            Some(group) => {
                let mut g: usize = 0;
                while g < group.len()
                    invariant
                        g <= group@.len(),
                        found@.len() == scanned_part.len() + g,
                        forall|k: int| 0 <= k < scanned_part.len() ==> #[trigger] found@[k] == scanned_part[k],
                        forall|k: int|
                            scanned_part.len() <= k < found@.len() ==> (#[trigger] found@[k])@ == group@[k
                                - scanned_part.len()]@,
                    decreases group.len() - g,
                {
                    found.push(group[g].clone());
                    g = g + 1;
                }
            },
            None => {},
        }
        proof {
            assert forall|a: Seq<char>| #[trigger] suspect(db, origin, def@, key@, a) implies has_text(found@, a) by {
                if db.nodes.contains_key(a) && db.nodes[a].kind == def@.kind && order_code(
                    field_of(db.nodes[a].data, def@.field),
                ) == order_code(Some(key@)) {
                    let n = nodes[a];
                    lemma_nodes_at(self.primary@, nodes, self.store@, a);
                    lemma_code_prefix(field_of(n.data, d.field), utf8(n.address), Some(key@));
                    assert(belongs(nodes, under, by, None, false, n));
                    assert(all.contains(n));
                    let k = choose|k: int| 0 <= k < all.len() && all[k] == n;
                    assert(scanned_part[k]@ == a);
                    assert(found@[k]@ == a);
                } else {
                    assert(in_group(kinds@, def@.kind, a));
                    let group = kinds@[def@.kind];
                    let k = choose|k: int| 0 <= k < group@.len() && (#[trigger] group@[k])@ == a;
                    assert(found@[scanned_part.len() + k]@ == a);
                }
            }
            assert forall|a: Seq<char>| #[trigger] has_text(found@, a) implies suspect(db, origin, def@, key@, a) by {
                let k = choose|k: int| 0 <= k < found@.len() && (#[trigger] found@[k])@ == a;
                if k < scanned_part.len() {
                    let n = all[k];
                    assert(belongs(nodes, under, by, None, false, n));
                    lemma_code_prefix(field_of(n.data, d.field), utf8(n.address), Some(key@));
                    assert(scanned_part[k]@ == n.address);
                } else {
                    let group = kinds@[def@.kind];
                    assert(group@[k - scanned_part.len()]@ == a);
                    assert(in_group(kinds@, def@.kind, a));
                }
            }
        }
        let list = sorted_distinct(&found);
        let ghost seen = stage@.nodes;
        let ghost pick = is_child(db, origin, def@, key@, dead@.dom());
        let mut kids: Vec<Node> = Vec::new();
        let mut i: usize = 0;
        proof {
            assert(nodes_view(kids@) =~= Seq::<NodeView>::empty());
        }
        while i < list.len()
            invariant
                self.inv(),
                db == self@,
                stage.wf(db),
                cache.wf(),
                agrees(cache@, self.heap()),
                dead.wf(),
                seen == stage@.nodes,
                pick == is_child(db, origin, def@, key@, dead@.dom()),
                texts_sorted(list@),
                forall|a: Seq<char>| #[trigger] has_text(list@, a) ==> suspect(db, origin, def@, key@, a),
                i <= list@.len(),
                gathered(nodes_view(kids@), seen, pick, list@, i as int),
            decreases list.len() - i,
        {
            let ghost rows_before = nodes_view(kids@);
            proof {
                assert(has_text(list@, list@[i as int]@));
                stage.lemma_wf(db);
            }
            match stage.staged_node(self, &list[i], cache) {
                Some(node) => {
                    let ghost n = node@;
                    let names: bool = if str_eq(&node.kind, &def.kind) {
                        match referencing_key(&node, def) {
                            Some(k) => same_value(&k, key),
                            None => false,
                        }
                    } else {
                        false
                    };
                    if names && !dead.contains(&list[i]) {
                        kids.push(node);
                        proof {
                            assert(seen.contains_key(list@[i as int]@));
                            lemma_gather_push(rows_before, seen, pick, list@, i as int, n);
                            assert(nodes_view(kids@) =~= rows_before.push(n));
                        }
                    } else {
                        proof {
                            assert(seen.contains_key(list@[i as int]@));
                            lemma_gather_skip(rows_before, seen, pick, list@, i as int);
                        }
                    }
                },
                None => {
                    proof {
                        lemma_gather_skip(rows_before, seen, pick, list@, i as int);
                    }
                },
            }
            i = i + 1;
        }
        proof {
            assert forall|n: NodeView| live(seen, n) && #[trigger] pick(n) implies has_text(list@, n.address) by {
                assert(suspect(db, origin, def@, key@, n.address));
                assert(has_text(found@, n.address));
            }
            lemma_gathered_all(nodes_view(kids@), seen, pick, list@);
        }
        Some(kids)
    }

    /// Sets the field of nodes to null, one after the other.
    fn lower_nulls(&self, stage: &mut Stage, kids: &Vec<Node>, name: &str) -> (r: Result<(), TransactionError>)
        requires
            old(stage).wf(self@),
        ensures
            match r {
                Ok(()) => final(stage).wf(self@) && nulled(old(stage)@, nodes_view(kids@), name@) == Ok::<
                    StageView,
                    TxErrorView,
                >(final(stage)@),
                Err(e) => nulled(old(stage)@, nodes_view(kids@), name@) == Err::<StageView, TxErrorView>(e@),
            },
    {
        let ghost view = nodes_view(kids@);
        let ghost whole = nulled(stage@, view, name@);
        let mut i: usize = 0;
        proof {
            assert(view.skip(0) =~= view);
        }
        while i < kids.len()
            invariant
                stage.wf(self@),
                view == nodes_view(kids@),
                i <= kids@.len(),
                whole == nulled(old(stage)@, view, name@),
                nulled(stage@, view.skip(i as int), name@) == whole,
            decreases kids.len() - i,
        {
            proof {
                assert(view.skip(i as int)[0] == kids@[i as int]@);
                assert(view.skip(i as int).drop_first() =~= view.skip(i + 1));
            }
            let next = match with_field_null(&kids[i], name) {
                Some(next) => next,
                None => {
                    return Err(
                        TransactionError::Invalid(Invalidity::NotObject { address: kids[i].address.clone() }),
                    );
                },
            };
            match stage.replace(&kids[i], next, Ghost(self@)) {
                Ok(()) => {},
                Err(e) => { return Err(e) },
            }
            i = i + 1;
        }
        proof {
            assert(view.skip(i as int) =~= Seq::<NodeView>::empty());
        }
        Ok(())
    }

    /// Sees to the nodes that name a deleted one: they join the queue, keep
    /// it from being deleted, or lose the field.
    fn follow_references(
        &self,
        node: &Node,
        stage: &mut Stage,
        queue: &mut Vec<Node>,
        head: usize,
        kinds: &TextMap<Vec<String>>,
        dead: &TextMap<()>,
        cache: &mut RecordCache,
        Ghost(origin): Ghost<StageView>,
    ) -> (r: Result<(), TransactionError>)
        requires
            self.inv(),
            old(stage).wf(self@),
            old(cache).wf(),
            agrees(old(cache)@, self.heap()),
            head <= old(queue)@.len(),
            kinds.wf(),
            dead.wf(),
            forall|kind: Seq<char>, a: Seq<char>| #[trigger]
                in_group(kinds@, kind, a) <==> origin.written.contains(a) && origin.nodes[a].kind == kind,
        ensures
            final(cache).wf(),
            agrees(final(cache)@, self.heap()),
            head <= final(queue)@.len(),
            match r {
                Ok(()) => final(stage).wf(self@) && followed(
                    self@,
                    origin,
                    old(stage)@,
                    node@,
                    dead@.dom(),
                    nodes_view(old(queue)@).skip(head as int),
                    0,
                ) == Ok::<(StageView, Seq<NodeView>), TxErrorView>(
                    (final(stage)@, nodes_view(final(queue)@).skip(head as int)),
                ),
                Err(e) => followed(
                    self@,
                    origin,
                    old(stage)@,
                    node@,
                    dead@.dom(),
                    nodes_view(old(queue)@).skip(head as int),
                    0,
                ) == Err::<(StageView, Seq<NodeView>), TxErrorView>(e@),
            },
    {
        let ghost db = self@;
        let ghost n = node@;
        let ghost goal = followed(
            db,
            origin,
            stage@,
            n,
            dead@.dom(),
            nodes_view(queue@).skip(head as int),
            0,
        );
        proof {
            assert(self.references@.len() == db.references.len());
        }
        let mut r: usize = 0;
        while r < self.references.len()
            invariant
                self.inv(),
                db == self@,
                self.references@.len() == db.references.len(),
                stage.wf(db),
                cache.wf(),
                agrees(cache@, self.heap()),
                kinds.wf(),
                dead.wf(),
                forall|kind: Seq<char>, a: Seq<char>| #[trigger]
                    in_group(kinds@, kind, a) <==> origin.written.contains(a) && origin.nodes[a].kind == kind,
                head <= queue@.len(),
                n == node@,
                r <= self.references@.len(),
                goal == followed(
                    db,
                    origin,
                    old(stage)@,
                    n,
                    dead@.dom(),
                    nodes_view(old(queue)@).skip(head as int),
                    0,
                ),
                followed(
                    db,
                    origin,
                    stage@,
                    n,
                    dead@.dom(),
                    nodes_view(queue@).skip(head as int),
                    r as int,
                ) == goal,
            decreases self.references.len() - r,
        {
            let def = &self.references[r];
            let ghost q0 = nodes_view(queue@).skip(head as int);
            proof {
                assert(reference_defs(self.references@)[r as int] == def@);
            }
            if str_eq(&def.parent_kind, &node.kind) {
                match referenced_key(node, def) {
                    Some(key) => {
                        let kids = match self.referencing_nodes(def, &key, stage, kinds, dead, cache, Ghost(origin)) {
                            Some(kids) => kids,
                            None => {
                                return Err(
                                    TransactionError::Storage(
                                        StorageFault::IndexGone { reference: def.name.clone() },
                                    ),
                                );
                            },
                        };
                        let ghost kv = nodes_view(kids@);
                        if kids.len() > 0 {
                            match def.on_delete {
                                ReferentialAction::Cascade => {
                                    let ghost queue0 = queue@;
                                    let mut kids = kids;
                                    queue.append(&mut kids);
                                    proof {
                                        assert(nodes_view(queue@) =~= nodes_view(queue0) + kv);
                                        assert(nodes_view(queue@).skip(head as int) =~= q0 + kv);
                                    }
                                },
                                ReferentialAction::Restrict => {
                                    return Err(
                                        TransactionError::Precondition(
                                            Unmet::Restricted {
                                                address: node.address.clone(),
                                                child: kids[0].address.clone(),
                                                reference: def.name.clone(),
                                                count: kids.len(),
                                            },
                                        ),
                                    );
                                },
                                ReferentialAction::SetNull => {
                                    match self.lower_nulls(stage, &kids, &def.field) {
                                        Ok(()) => {},
                                        Err(e) => { return Err(e) },
                                    }
                                },
                            }
                        }
                    },
                    None => {},
                }
            }
            r = r + 1;
        }
        Ok(())
    }

    /// Deletes nodes, with what references lead to.
    fn lower_delete_closure(
        &self,
        seeds: Vec<Node>,
        stage: &mut Stage,
        bound: usize,
        cache: &mut RecordCache,
    ) -> (r: Result<(), TransactionError>)
        requires
            self.inv(),
            old(stage).wf(self@),
            old(cache).wf(),
            agrees(old(cache)@, self.heap()),
        ensures
            final(cache).wf(),
            agrees(final(cache)@, self.heap()),
            match r {
                Ok(()) => final(stage).wf(self@) && delete_closure(
                    self@,
                    old(stage)@,
                    nodes_view(seeds@),
                    bound as nat,
                ) == Ok::<StageView, TxErrorView>(final(stage)@),
                Err(e) => delete_closure(self@, old(stage)@, nodes_view(seeds@), bound as nat) == Err::<
                    StageView,
                    TxErrorView,
                >(e@),
            },
    {
        let ghost db = self@;
        let ghost view = nodes_view(seeds@);
        proof {
            assert(view.skip(0) =~= view);
        }
        if self.references.len() == 0 {
            proof {
                assert(db.references.len() == 0);
            }
            let ghost whole = removed_all(stage@, view);
            let mut i: usize = 0;
            while i < seeds.len()
                invariant
                    db == self@,
                    stage.wf(db),
                    view == nodes_view(seeds@),
                    i <= seeds@.len(),
                    whole == removed_all(old(stage)@, view),
                    removed_all(stage@, view.skip(i as int)) == whole,
                    db.references.len() == 0,
                    cache.wf(),
                    agrees(cache@, self.heap()),
                decreases seeds.len() - i,
            {
                proof {
                    assert(view.skip(i as int)[0] == seeds@[i as int]@);
                    assert(view.skip(i as int).drop_first() =~= view.skip(i + 1));
                }
                match stage.remove(&seeds[i], Ghost(db)) {
                    Ok(()) => {},
                    Err(e) => { return Err(e) },
                }
                i = i + 1;
            }
            proof {
                assert(view.skip(i as int) =~= Seq::<NodeView>::empty());
            }
            return Ok(());
        }
        let ghost origin = stage@;
        let ghost whole = cascaded(db, origin, origin, view, Set::empty(), bound as nat);
        let kinds = stage.written_kinds(Ghost(db));
        let mut queue: Vec<Node> = seeds;
        let mut head: usize = 0;
        let mut dead: TextMap<()> = TextMap::new();
        proof {
            assert(dead@.dom() =~= Set::<Seq<char>>::empty());
            assert(self.references@.len() == db.references.len());
        }
        while head < queue.len()
            invariant
                self.inv(),
                db == self@,
                self.references@.len() == db.references.len(),
                db.references.len() > 0,
                stage.wf(db),
                cache.wf(),
                agrees(cache@, self.heap()),
                kinds.wf(),
                dead.wf(),
                forall|kind: Seq<char>, a: Seq<char>| #[trigger]
                    in_group(kinds@, kind, a) <==> origin.written.contains(a) && origin.nodes[a].kind == kind,
                head <= queue@.len(),
                whole == delete_closure(db, old(stage)@, nodes_view(seeds@), bound as nat),
                cascaded(db, origin, stage@, nodes_view(queue@).skip(head as int), dead@.dom(), bound as nat) == whole,
            decreases
                    if bound + 1 >= stage@.ops.len() {
                        bound + 1 - stage@.ops.len()
                    } else {
                        0
                    },
                    queue@.len() - head,
        {
            let ghost q = nodes_view(queue@).skip(head as int);
            let ghost before = stage@;
            proof {
                stage.lemma_wf(db);
            }
            let ghost dead0 = dead@.dom();
            let node = queue[head].copy();
            let ghost n = node@;
            head = head + 1;
            let ghost rest = nodes_view(queue@).skip(head as int);
            proof {
                assert(q[0] == n);
                assert(q.drop_first() =~= rest);
            }
            if dead.contains(&node.address) {
                continue;
            }
            dead.insert(node.address.clone(), ());
            let ghost dead1 = dead@.dom();
            proof {
                assert(dead1 =~= dead0.insert(n.address));
            }
            match stage.remove(&node, Ghost(db)) {
                Ok(()) => {},
                Err(e) => { return Err(e) },
            }
            let ghost s = stage@;
            match self.follow_references(&node, stage, &mut queue, head, &kinds, &dead, cache, Ghost(origin)) {
                Ok(()) => {},
                Err(e) => { return Err(e) },
            }
            proof {
                lemma_cascade_grows(db, origin, before, n, dead1, rest);
            }
            if stage.len() > bound {
                return Err(TransactionError::Invalid(Invalidity::CascadeTooLarge { address: node.address }));
            }
        }
        proof {
            assert(nodes_view(queue@).skip(head as int) =~= Seq::<NodeView>::empty());
        }
        Ok(())
    }
}

impl Tables {
    /// The nodes of a kind that the requester may write, as a step sees them,
    /// in the order of their addresses.
    fn staged_candidates(
        &self,
        stage: &Stage,
        kind: &str,
        owner: &str,
        is_admin: bool,
        cache: &mut RecordCache,
    ) -> (r: Vec<Node>)
        requires
            self.inv(),
            stage.wf(self@),
            old(cache).wf(),
            agrees(old(cache)@, self.heap()),
        ensures
            final(cache).wf(),
            agrees(final(cache)@, self.heap()),
            nodes_view(r@) == listing(stage@.nodes, writable(kind@, owner@, is_admin)),
    {
        let ghost db = self@;
        let ghost nodes = db.nodes;
        let ghost of_kind = scanned(Some(kind@), None);
        let mut found: Vec<String> = Vec::new();
        let mut rows = self.scan_candidates(Some(kind), None, None, false);
        let ghost all = rows.all();
        loop
            invariant
                rows.wf(self),
                rows.all() == all,
                found@.len() == rows.taken(),
                forall|k: int| 0 <= k < found@.len() ==> (#[trigger] found@[k])@ == all[k].address,
            ensures
                rows.taken() == all.len(),
            decreases all.len() - rows.taken(),
        {
            match rows.next_address(self) {
                None => {
                    break;
                },
                Some(address) => {
                    found.push(address);
                },
            }
        }
        let ghost scanned_part = found@;
        let mut touched = stage.touched_addresses(Ghost(db));
        let ghost touched_part = touched@;
        found.append(&mut touched);
        let ghost seen = stage@.nodes;
        let ghost pick = writable(kind@, owner@, is_admin);
        proof {
            stage.lemma_wf(db);
            assert forall|n: NodeView| live(seen, n) && #[trigger] pick(n) implies has_text(found@, n.address) by {
                let a = n.address;
                if has_text(touched_part, a) {
                    let k = choose|k: int| 0 <= k < touched_part.len() && (#[trigger] touched_part[k])@ == a;
                    assert(found@[scanned_part.len() + k]@ == a);
                } else {
                    assert(node_in(seen, a) == node_in(nodes, a));
                    assert(node_in(seen, a) == Some(n));
                    assert(belongs(nodes, of_kind, RankBy::Address, None, false, n));
                    assert(all.contains(n));
                    let k = choose|k: int| 0 <= k < all.len() && all[k] == n;
                    assert(scanned_part[k]@ == a);
                    assert(found@[k]@ == a);
                }
            }
        }
        let list = sorted_distinct(&found);
        let mut out: Vec<Node> = Vec::new();
        let mut i: usize = 0;
        proof {
            assert(nodes_view(out@) =~= Seq::<NodeView>::empty());
        }
        while i < list.len()
            invariant
                self.inv(),
                db == self@,
                stage.wf(db),
                cache.wf(),
                agrees(cache@, self.heap()),
                seen == stage@.nodes,
                pick == writable(kind@, owner@, is_admin),
                texts_sorted(list@),
                i <= list@.len(),
                gathered(nodes_view(out@), seen, pick, list@, i as int),
            decreases list.len() - i,
        {
            let ghost before = nodes_view(out@);
            proof {
                stage.lemma_wf(db);
            }
            match stage.staged_node(self, &list[i], cache) {
                Some(node) => {
                    let ghost n = node@;
                    proof {
                        assert(seen.contains_key(list@[i as int]@));
                    }
                    if str_eq(&node.kind, kind) && (is_admin || node.can_write(owner)) {
                        out.push(node);
                        proof {
                            lemma_gather_push(before, seen, pick, list@, i as int, n);
                            assert(nodes_view(out@) =~= before.push(n));
                        }
                    } else {
                        proof {
                            lemma_gather_skip(before, seen, pick, list@, i as int);
                        }
                    }
                },
                None => {
                    proof {
                        lemma_gather_skip(before, seen, pick, list@, i as int);
                    }
                },
            }
            i = i + 1;
        }
        proof {
            assert forall|n: NodeView| live(seen, n) && #[trigger] pick(n) implies has_text(list@, n.address) by {
                assert(has_text(found@, n.address));
            }
            lemma_gathered_all(nodes_view(out@), seen, pick, list@);
        }
        out
    }

    /// Deletes the nodes of a kind that the requester may write and that a
    /// condition holds of.
    fn lower_selection<F: Fn(&Filter, &Node) -> Result<bool, String>>(
        &self,
        stage: &mut Stage,
        kind: &str,
        where_: &Option<Filter>,
        owner: &str,
        is_admin: bool,
        eval: &F,
        bound: usize,
        cache: &mut RecordCache,
    ) -> (r: Result<(), TransactionError>)
        requires
            self.inv(),
            old(stage).wf(self@),
            old(cache).wf(),
            agrees(old(cache)@, self.heap()),
            evaluates(*eval),
        ensures
            final(cache).wf(),
            agrees(final(cache)@, self.heap()),
            match r {
                Ok(()) => final(stage).wf(self@) && selection_deleted(
                    self@,
                    old(stage)@,
                    *eval,
                    kind@,
                    *where_,
                    owner@,
                    is_admin,
                    bound as nat,
                ) == Ok::<StageView, TxErrorView>(final(stage)@),
                Err(e) => selection_deleted(
                    self@,
                    old(stage)@,
                    *eval,
                    kind@,
                    *where_,
                    owner@,
                    is_admin,
                    bound as nat,
                ) == Err::<StageView, TxErrorView>(e@),
            },
    {
        let rows = self.staged_candidates(stage, kind, owner, is_admin, cache);
        let ghost view = nodes_view(rows@);
        let mut seeds: Vec<Node> = Vec::new();
        let mut i: usize = 0;
        proof {
            assert(nodes_view(seeds@) =~= Seq::<NodeView>::empty());
        }
        while i < rows.len()
            invariant
                evaluates(*eval),
                view == nodes_view(rows@),
                i <= rows@.len(),
                chosen(*eval, *where_, view, i as int) == Ok::<Seq<NodeView>, Seq<char>>(nodes_view(seeds@)),
                view == listing(old(stage)@.nodes, writable(kind@, owner@, is_admin)),
                cache.wf(),
                agrees(cache@, self.heap()),
            decreases rows.len() - i,
        {
            let node = &rows[i];
            let taken: Result<bool, String> = match where_ {
                Some(f) => judge(eval, f, node),
                None => Ok(true),
            };
            let ghost before = nodes_view(seeds@);
            proof {
                assert(view[i as int] == node@);
                assert(verdict_view(taken) == condition(*eval, *where_, node@));
            }
            match taken {
                Ok(true) => {
                    seeds.push(node.copy());
                    proof {
                        assert(nodes_view(seeds@) =~= before.push(node@));
                    }
                },
                Ok(false) => {},
                Err(message) => {
                    proof {
                        lemma_chosen_err(*eval, *where_, view, i + 1, view.len() as int);
                    }
                    return Err(TransactionError::Invalid(Invalidity::Condition { message }));
                },
            }
            i = i + 1;
        }
        self.lower_delete_closure(seeds, stage, bound, cache)
    }

    /// Works out one step.
    fn lower_step<F: Fn(&Filter, &Node) -> Result<bool, String>>(
        &self,
        stage: &mut Stage,
        op: &TxOperation,
        eval: &F,
        bound: usize,
        cache: &mut RecordCache,
    ) -> (r: Result<(), TransactionError>)
        requires
            self.inv(),
            old(stage).wf(self@),
            old(cache).wf(),
            agrees(old(cache)@, self.heap()),
            evaluates(*eval),
        ensures
            final(cache).wf(),
            agrees(final(cache)@, self.heap()),
            match r {
                Ok(()) => final(stage).wf(self@) && stepped(self@, old(stage)@, *op, *eval, bound as nat) == Ok::<
                    StageView,
                    TxErrorView,
                >(final(stage)@),
                Err(e) => stepped(self@, old(stage)@, *op, *eval, bound as nat) == Err::<StageView, TxErrorView>(e@),
            },
    {
        let ghost db = self@;
        proof {
            stage.lemma_wf(db);
        }
        match op {
            TxOperation::InsertNode(node) => match stage.staged_node(self, &node.address, cache) {
                Some(existing) => {
                    proof {
                        assert(stage@.nodes.contains_key(node@.address));
                    }
                    if !str_eq(&existing.owner, &node.owner) {
                        return Err(
                            TransactionError::Invalid(
                                Invalidity::Owned { address: node.address.clone(), by: existing.owner },
                            ),
                        );
                    }
                    stage.replace(&existing, node.copy(), Ghost(db))
                },
                None => {
                    stage.put(node.copy(), Ghost(db));
                    Ok(())
                },
            },
            TxOperation::DeleteNode(address) => {
                if stage.is_gone(address, Ghost(db)) {
                    return Ok(());
                }
                match stage.staged_node(self, address, cache) {
                    Some(node) => {
                        let mut seeds: Vec<Node> = Vec::new();
                        seeds.push(node);
                        proof {
                            assert(nodes_view(seeds@) =~= seq![stage@.nodes[address@]]);
                        }
                        self.lower_delete_closure(seeds, stage, bound, cache)
                    },
                    None => Err(
                        TransactionError::Invalid(Invalidity::TargetNotFound { address: address.clone() }),
                    ),
                }
            },
            TxOperation::ClearKind { kind, owner, is_admin } => {
                let none: Option<Filter> = None;
                self.lower_selection(stage, kind, &none, owner, *is_admin, eval, bound, cache)
            },
            TxOperation::DeleteWhere { kind, where_, owner, is_admin } => self.lower_selection(
                stage,
                kind,
                where_,
                owner,
                *is_admin,
                eval,
                bound,
                cache,
            ),
            TxOperation::SetIf { address, field, expect, set, owner, is_admin } => {
                let node = match stage.staged_node(self, address, cache) {
                    Some(node) => node,
                    None => {
                        return Err(
                            TransactionError::Precondition(Unmet::SetIfTarget { address: address.clone() }),
                        );
                    },
                };
                proof {
                    assert(stage@.nodes.contains_key(address@));
                }
                if !(*is_admin || node.can_write(owner)) {
                    return Err(
                        TransactionError::Invalid(Invalidity::NotAuthorized { address: address.clone() }),
                    );
                }
                let next = match set_if_next(&node, field, expect, set) {
                    Ok(next) => next,
                    Err(e) => { return Err(e) },
                };
                stage.replace(&node, next, Ghost(db))
            },
            TxOperation::InsertEdge(edge) => {
                if stage.staged_node(self, &edge.from, cache).is_none() {
                    return Err(
                        TransactionError::Invalid(
                            Invalidity::EndpointNotFound { end: EdgeEnd::From, address: edge.from.clone() },
                        ),
                    );
                }
                if stage.staged_node(self, &edge.to, cache).is_none() {
                    return Err(
                        TransactionError::Invalid(
                            Invalidity::EndpointNotFound { end: EdgeEnd::To, address: edge.to.clone() },
                        ),
                    );
                }
                stage.set_edge(edge.id(), Some(edge.copy()), Operation::InsertEdge(edge.copy()), Ghost(db));
                Ok(())
            },
            TxOperation::DeleteEdge { id, owner, is_admin } => {
                if stage.is_gone_edge(id, Ghost(db)) {
                    return Ok(());
                }
                let edge = match stage.staged_edge(self, id) {
                    Some(edge) => edge,
                    None => {
                        return Err(TransactionError::Invalid(Invalidity::EdgeNotFound { id: id.copy() }));
                    },
                };
                if !(*is_admin || edge.can_write(owner)) {
                    return Err(TransactionError::Invalid(Invalidity::EdgeNotAuthorized { id: id.copy() }));
                }
                stage.set_edge(id.copy(), None, Operation::DeleteEdge(id.copy()), Ghost(db));
                Ok(())
            },
        }
    }

    /// Works the deletion of a node out: the operations that carry it out,
    /// and the version that comes after those it used.
    pub(crate) fn lower_delete(&self, node: Node, stamp: u64, bound: usize, cache: &mut RecordCache) -> (r: Result<
        (Vec<Operation>, u64),
        TransactionError,
    >)
        requires
            self.inv(),
            old(cache).wf(),
            agrees(old(cache)@, self.heap()),
        ensures
            final(cache).wf(),
            agrees(final(cache)@, self.heap()),
            match delete_closure(self@, fresh_stage(self@, stamp), seq![node@], bound as nat) {
                Ok(st) => {
                    &&& r matches Ok((list, next))
                    &&& crate::wal::operations_view(list@) == st.ops
                    &&& next == st.stamp
                    &&& st.first == stamp
                    &&& faithful(self@, st)
                },
                Err(e) => r matches Err(x) && x@ == e,
            },
    {
        let ghost db = self@;
        let ghost n = node@;
        let mut stage = Stage::new(self, stamp);
        let ghost start = stage@;
        let mut seeds: Vec<Node> = Vec::new();
        seeds.push(node);
        proof {
            assert(nodes_view(seeds@) =~= seq![n]);
            stage.lemma_wf(db);
        }
        match self.lower_delete_closure(seeds, &mut stage, bound, cache) {
            Ok(()) => {},
            Err(e) => { return Err(e) },
        }
        proof {
            stage.lemma_wf(db);
            crate::tables::plan::lemma_delete_closure(db, start, seq![n], bound as nat);
        }
        Ok(stage.finish())
    }

    /// Works a transaction out: the operations that carry it out, and the
    /// version that comes after those it used.
    pub(crate) fn lower_transaction<F: Fn(&Filter, &Node) -> Result<bool, String>>(
        &self,
        ops: &Vec<TxOperation>,
        stamp: u64,
        eval: &F,
        bound: usize,
        cache: &mut RecordCache,
    ) -> (r: Result<(Vec<Operation>, u64), TransactionError>)
        requires
            self.inv(),
            old(cache).wf(),
            agrees(old(cache)@, self.heap()),
            evaluates(*eval),
        ensures
            final(cache).wf(),
            agrees(final(cache)@, self.heap()),
            match worked_out(self@, fresh_stage(self@, stamp), ops@, *eval, bound as nat) {
                Ok(st) => {
                    &&& r matches Ok((list, next))
                    &&& crate::wal::operations_view(list@) == st.ops
                    &&& next == st.stamp
                    &&& st.first == stamp
                    &&& faithful(self@, st)
                },
                Err(e) => r matches Err(x) && x@ == e,
            },
    {
        let ghost db = self@;
        let mut stage = Stage::new(self, stamp);
        let ghost start = stage@;
        let ghost whole = worked_out(db, start, ops@, *eval, bound as nat);
        let mut i: usize = 0;
        proof {
            assert(ops@.take(0) =~= Seq::<TxOperation>::empty());
        }
        while i < ops.len()
            invariant
                self.inv(),
                db == self@,
                stage.wf(db),
                cache.wf(),
                agrees(cache@, self.heap()),
                evaluates(*eval),
                i <= ops@.len(),
                start == fresh_stage(db, stamp),
                whole == worked_out(db, start, ops@, *eval, bound as nat),
                worked_out(db, start, ops@.take(i as int), *eval, bound as nat) == Ok::<StageView, TxErrorView>(
                    stage@,
                ),
            decreases ops.len() - i,
        {
            proof {
                let next = ops@.take(i + 1);
                assert(next.drop_last() =~= ops@.take(i as int));
                assert(next.last() == ops@[i as int]);
            }
            match self.lower_step(&mut stage, &ops[i], eval, bound, cache) {
                Ok(()) => {},
                Err(e) => {
                    proof {
                        lemma_worked_err(db, start, ops@, *eval, bound as nat, i + 1);
                    }
                    return Err(e);
                },
            }
            i = i + 1;
        }
        proof {
            assert(ops@.take(ops@.len() as int) =~= ops@);
            stage.lemma_wf(db);
            lemma_nodes_at(self.primary@, db.nodes, self.store@, Seq::empty());
            crate::tables::plan::law_lowering_is_faithful(db, stamp, ops@, *eval, bound as nat);
        }
        Ok(stage.finish())
    }
}

pub proof fn lemma_chosen_err<F: Fn(&Filter, &Node) -> Result<bool, String>>(
    eval: F,
    where_: Option<Filter>,
    rows: Seq<NodeView>,
    k: int,
    m: int,
)
    requires
        k <= m,
        chosen(eval, where_, rows, k) is Err,
    ensures
        chosen(eval, where_, rows, m) == chosen(eval, where_, rows, k),
    decreases m - k,
{
    if k < m {
        lemma_chosen_err(eval, where_, rows, k, m - 1);
    }
}

proof fn lemma_worked_err<F: Fn(&Filter, &Node) -> Result<bool, String>>(
    db: DbView,
    st: StageView,
    ops: Seq<TxOperation>,
    eval: F,
    bound: nat,
    k: int,
)
    requires
        0 <= k <= ops.len(),
        worked_out(db, st, ops.take(k), eval, bound) is Err,
    ensures
        worked_out(db, st, ops, eval, bound) == worked_out(db, st, ops.take(k), eval, bound),
    decreases ops.len() - k,
{
    if k < ops.len() {
        let next = ops.take(k + 1);
        assert(next.drop_last() =~= ops.take(k));
        lemma_worked_err(db, st, ops, eval, bound, k + 1);
    } else {
        assert(ops.take(k) =~= ops);
    }
}

} // verus!
