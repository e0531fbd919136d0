//! Opening the tables: reading the logs of what is declared, and putting the
//! parts together.

use vstd::prelude::*;

use crate::binary::{replay_users, UserOpRecord, UserOpView};
use crate::btree::BTree;
use crate::bytes::Order;
use crate::catalog::fresh_catalog;
use crate::defs::{
    IndexDef, IndexDefView, IndexOpRecord, IndexOpView, ReferenceDef, ReferenceDefView, ReferenceOpRecord,
    ReferenceOpView, TextIndexDef, TextIndexDefView, TextIndexOpRecord, TextIndexOpView,
};
use crate::heap::{roomy, RecordStore};
use crate::tables::audit::{audit_parts, parts_wf};
use crate::tables::declared::{index_defs_view, text_index_defs_view};
use crate::tables::files::law_parts_hold_one_database;
use crate::tables::lists::{data_defs, reference_defs, text_defs, DataIndex, TextIndex};
use crate::tables::model::{
    data_names, drop_named, edges_ok, history_ok, index_ok, lemma_put_sorted, name_slot, names_sorted, nodes_ok,
    put_named, reference_names, replay_data, replay_references, replay_text, text_names, DbView, NodeIndex,
};
use crate::tables::{index_ops, reference_ops, text_ops, user_ops, users_view, Tables};
use crate::text::{str_order, text_lt, utf8};
use crate::textmap::TextMap;
use crate::types::{UserRecord, UserView};

verus! {

pub open spec fn texts_view(list: Seq<String>) -> Seq<Seq<char>> {
    Seq::new(list.len(), |i: int| list[i]@)
}

/// Where a name stands among sorted names, or would stand; and whether it is
/// there.
fn find_name(names: &Vec<String>, name: &str) -> (r: (usize, bool))
    requires
        names_sorted(texts_view(names@)),
    ensures
        r.0 == name_slot(texts_view(names@), name@),
        r.0 <= names@.len(),
        r.1 == (r.0 < names@.len() && names@[r.0 as int]@ == name@),
{
    let ghost view = texts_view(names@);
    let mut i: usize = 0;
    while i < names.len()
        invariant
            i <= names@.len(),
            view == texts_view(names@),
            forall|j: int| 0 <= j < i ==> text_lt(#[trigger] view[j], name@),
        decreases names.len() - i,
    {
        match str_order(&names[i], name) {
            Order::Less => {
                proof {
                    assert(view[i as int] == names@[i as int]@);
                }
            },
            Order::Equal => {
                proof {
                    assert(view[i as int] == name@);
                    crate::bytes::lemma_lt_irreflexive(utf8(name@));
                    crate::tables::model::lemma_name_slot(view, name@, i as int);
                }
                return (i, true);
            },
            Order::Greater => {
                proof {
                    crate::bytes::lemma_lt_total(utf8(view[i as int]), utf8(name@));
                    crate::tables::model::lemma_name_slot(view, name@, i as int);
                }
                return (i, false);
            },
        }
        i = i + 1;
    }
    proof {
        crate::tables::model::lemma_name_slot(view, name@, i as int);
    }
    (i, false)
}

/// The data indexes that a log leaves, by name.
pub fn index_definitions(log: &Vec<IndexOpRecord>) -> (r: Vec<IndexDef>)
    ensures
        index_defs_view(r@) == replay_data(index_ops(log@)),
        names_sorted(data_names(replay_data(index_ops(log@)))),
{
    let ghost view = index_ops(log@);
    let mut defs: Vec<IndexDef> = Vec::new();
    let mut names: Vec<String> = Vec::new();
    let mut i: usize = 0;
    proof {
        assert(view.take(0) =~= Seq::<IndexOpView>::empty());
        assert(index_defs_view(defs@) =~= Seq::<IndexDefView>::empty());
        assert(data_names(replay_data(view.take(0))) =~= texts_view(names@));
    }
    while i < log.len()
        invariant
            i <= log@.len(),
            view == index_ops(log@),
            index_defs_view(defs@) == replay_data(view.take(i as int)),
            texts_view(names@) == data_names(replay_data(view.take(i as int))),
            names_sorted(texts_view(names@)),
        decreases log.len() - i,
    {
        let ghost before = replay_data(view.take(i as int));
        let ghost known = texts_view(names@);
        proof {
            let next = view.take(i + 1);
            assert(next.drop_last() =~= view.take(i as int));
            assert(next.last() == log@[i as int]@);
        }
        match &log[i] {
            IndexOpRecord::Put(def) => {
                let (at, found) = find_name(&names, &def.name);
                proof {
                    lemma_put_sorted(known, def.name@);
                }
                let ghost d = def@;
                let ghost after = put_named(before, data_names(before), d, d.name);
                if found {
                    defs.set(at, def.copy());
                } else {
                    defs.insert(at, def.copy());
                    names.insert(at, def.name.clone());
                }
                proof {
                    assert(index_defs_view(defs@) =~= after);
                    assert(texts_view(names@) =~= put_named(known, known, d.name, d.name));
                    assert(data_names(after) =~= texts_view(names@));
                }
            },
            IndexOpRecord::Drop(name) => {
                let (at, found) = find_name(&names, name);
                proof {
                    lemma_put_sorted(known, name@);
                }
                let ghost after = drop_named(before, data_names(before), name@);
                if found {
                    let _def = defs.remove(at);
                    let _name = names.remove(at);
                }
                proof {
                    assert(index_defs_view(defs@) =~= after);
                    assert(texts_view(names@) =~= drop_named(known, known, name@));
                    assert(data_names(after) =~= texts_view(names@));
                }
            },
        }
        i = i + 1;
    }
    proof {
        assert(view.take(view.len() as int) =~= view);
    }
    defs
}

/// The text indexes that a log leaves, by name.
pub fn text_index_definitions(log: &Vec<TextIndexOpRecord>) -> (r: Vec<TextIndexDef>)
    ensures
        text_index_defs_view(r@) == replay_text(text_ops(log@)),
        names_sorted(text_names(replay_text(text_ops(log@)))),
{
    let ghost view = text_ops(log@);
    let mut defs: Vec<TextIndexDef> = Vec::new();
    let mut names: Vec<String> = Vec::new();
    let mut i: usize = 0;
    proof {
        assert(view.take(0) =~= Seq::<TextIndexOpView>::empty());
        assert(text_index_defs_view(defs@) =~= Seq::<TextIndexDefView>::empty());
        assert(text_names(replay_text(view.take(0))) =~= texts_view(names@));
    }
    while i < log.len()
        invariant
            i <= log@.len(),
            view == text_ops(log@),
            text_index_defs_view(defs@) == replay_text(view.take(i as int)),
            texts_view(names@) == text_names(replay_text(view.take(i as int))),
            names_sorted(texts_view(names@)),
        decreases log.len() - i,
    {
        let ghost before = replay_text(view.take(i as int));
        let ghost known = texts_view(names@);
        proof {
            let next = view.take(i + 1);
            assert(next.drop_last() =~= view.take(i as int));
            assert(next.last() == log@[i as int]@);
        }
        match &log[i] {
            TextIndexOpRecord::Put(def) => {
                let (at, found) = find_name(&names, &def.name);
                proof {
                    lemma_put_sorted(known, def.name@);
                }
                let ghost d = def@;
                let ghost after = put_named(before, text_names(before), d, d.name);
                if found {
                    defs.set(at, def.copy());
                } else {
                    defs.insert(at, def.copy());
                    names.insert(at, def.name.clone());
                }
                proof {
                    assert(text_index_defs_view(defs@) =~= after);
                    assert(texts_view(names@) =~= put_named(known, known, d.name, d.name));
                    assert(text_names(after) =~= texts_view(names@));
                }
            },
            TextIndexOpRecord::Drop(name) => {
                let (at, found) = find_name(&names, name);
                proof {
                    lemma_put_sorted(known, name@);
                }
                let ghost after = drop_named(before, text_names(before), name@);
                if found {
                    let _def = defs.remove(at);
                    let _name = names.remove(at);
                }
                proof {
                    assert(text_index_defs_view(defs@) =~= after);
                    assert(texts_view(names@) =~= drop_named(known, known, name@));
                    assert(text_names(after) =~= texts_view(names@));
                }
            },
        }
        i = i + 1;
    }
    proof {
        assert(view.take(view.len() as int) =~= view);
    }
    defs
}

/// The references that a log leaves, by name.
pub fn reference_definitions(log: &Vec<ReferenceOpRecord>) -> (r: Vec<ReferenceDef>)
    ensures
        reference_defs(r@) == replay_references(reference_ops(log@)),
        names_sorted(reference_names(replay_references(reference_ops(log@)))),
{
    let ghost view = reference_ops(log@);
    let mut defs: Vec<ReferenceDef> = Vec::new();
    let mut names: Vec<String> = Vec::new();
    let mut i: usize = 0;
    proof {
        assert(view.take(0) =~= Seq::<ReferenceOpView>::empty());
        assert(reference_defs(defs@) =~= Seq::<ReferenceDefView>::empty());
        assert(reference_names(replay_references(view.take(0))) =~= texts_view(names@));
    }
    while i < log.len()
        invariant
            i <= log@.len(),
            view == reference_ops(log@),
            reference_defs(defs@) == replay_references(view.take(i as int)),
            texts_view(names@) == reference_names(replay_references(view.take(i as int))),
            names_sorted(texts_view(names@)),
        decreases log.len() - i,
    {
        let ghost before = replay_references(view.take(i as int));
        let ghost known = texts_view(names@);
        proof {
            let next = view.take(i + 1);
            assert(next.drop_last() =~= view.take(i as int));
            assert(next.last() == log@[i as int]@);
        }
        match &log[i] {
            ReferenceOpRecord::Put(def) => {
                let (at, found) = find_name(&names, &def.name);
                proof {
                    lemma_put_sorted(known, def.name@);
                }
                let ghost d = def@;
                let ghost after = put_named(before, reference_names(before), d, d.name);
                if found {
                    defs.set(at, def.copy());
                } else {
                    defs.insert(at, def.copy());
                    names.insert(at, def.name.clone());
                }
                proof {
                    assert(reference_defs(defs@) =~= after);
                    assert(texts_view(names@) =~= put_named(known, known, d.name, d.name));
                    assert(reference_names(after) =~= texts_view(names@));
                }
            },
            ReferenceOpRecord::Drop(name) => {
                let (at, found) = find_name(&names, name);
                proof {
                    lemma_put_sorted(known, name@);
                }
                let ghost after = drop_named(before, reference_names(before), name@);
                if found {
                    let _def = defs.remove(at);
                    let _name = names.remove(at);
                }
                proof {
                    assert(reference_defs(defs@) =~= after);
                    assert(texts_view(names@) =~= drop_named(known, known, name@));
                    assert(reference_names(after) =~= texts_view(names@));
                }
            },
        }
        i = i + 1;
    }
    proof {
        assert(view.take(view.len() as int) =~= view);
    }
    defs
}

/// The users that a log leaves.
pub fn user_table(log: &Vec<UserOpRecord>) -> (r: TextMap<UserRecord>)
    ensures
        r.wf(),
        users_view(r@) == replay_users(user_ops(log@)),
{
    let ghost view = user_ops(log@);
    let mut users: TextMap<UserRecord> = TextMap::new();
    let mut i: usize = 0;
    proof {
        assert(view.take(0) =~= Seq::<UserOpView>::empty());
        assert(users_view(users@) =~= Map::<Seq<char>, UserView>::empty());
    }
    while i < log.len()
        invariant
            i <= log@.len(),
            view == user_ops(log@),
            users.wf(),
            users_view(users@) == replay_users(view.take(i as int)),
        decreases log.len() - i,
    {
        let ghost before = users@;
        proof {
            let next = view.take(i + 1);
            assert(next.drop_last() =~= view.take(i as int));
            assert(next.last() == log@[i as int]@);
        }
        match &log[i] {
            UserOpRecord::Put(user) => {
                users.insert(user.token_hash.clone(), user.copy());
                proof {
                    assert(users_view(users@) =~= users_view(before).insert(user@.token_hash, user@));
                }
            },
            UserOpRecord::Revoke(hash) => {
                let _gone = users.remove(hash);
                proof {
                    assert(users_view(users@) =~= users_view(before).remove(hash@));
                }
            },
        }
        i = i + 1;
    }
    proof {
        assert(view.take(view.len() as int) =~= view);
    }
    users
}

/// The parts that tables are made of, each read from its file: the heap, the
/// indexes (those declared in the order of their names), and the logs.
pub struct Parts {
    pub store: RecordStore,
    pub primary: BTree,
    pub kind: BTree,
    pub owner: BTree,
    pub history: BTree,
    pub edge_out: BTree,
    pub edge_in: BTree,
    pub data: Vec<BTree>,
    pub text: Vec<BTree>,
    pub user_log: Vec<UserOpRecord>,
    pub index_log: Vec<IndexOpRecord>,
    pub text_log: Vec<TextIndexOpRecord>,
    pub reference_log: Vec<ReferenceOpRecord>,
}

/// The parts agree, and hold this.
pub open spec fn parts_hold(p: Parts, db: DbView) -> bool {
    &&& p.store.wf()
    &&& p.primary.wf()
    &&& p.kind.wf()
    &&& p.owner.wf()
    &&& p.history.wf()
    &&& p.edge_out.wf()
    &&& p.edge_in.wf()
    &&& forall|i: int| 0 <= i < p.data@.len() ==> (#[trigger] p.data@[i]).wf()
    &&& forall|i: int| 0 <= i < p.text@.len() ==> (#[trigger] p.text@[i]).wf()
    &&& db.users == replay_users(user_ops(p.user_log@))
    &&& db.data == replay_data(index_ops(p.index_log@))
    &&& db.text == replay_text(text_ops(p.text_log@))
    &&& db.references == replay_references(reference_ops(p.reference_log@))
    &&& nodes_ok(p.primary@, db.nodes, p.store@)
    &&& index_ok(NodeIndex::Kind, p.kind@, db.nodes)
    &&& index_ok(NodeIndex::Owner, p.owner@, db.nodes)
    &&& edges_ok(p.edge_out@, p.edge_in@, db.edges, p.store@)
    &&& history_ok(p.history@, db.history, p.store@)
    &&& forall|i: int|
        0 <= i < p.data@.len() ==> index_ok(NodeIndex::Data(db.data[i]), (#[trigger] p.data@[i])@, db.nodes)
    &&& forall|i: int|
        0 <= i < p.text@.len() ==> index_ok(NodeIndex::Text(db.text[i]), (#[trigger] p.text@[i])@, db.nodes)
}

impl Tables {
    /// Puts the parts together as they are; none where there are not as many
    /// declared indexes as definitions. Where the parts agree, the tables hold
    /// what they hold.
    pub fn assemble(parts: Parts) -> (r: Option<Tables>)
        ensures
            match r {
                Some(t) => {
                    &&& replay_data(index_ops(parts.index_log@)).len() == parts.data@.len()
                    &&& replay_text(text_ops(parts.text_log@)).len() == parts.text@.len()
                    &&& forall|db: DbView| #[trigger] parts_hold(parts, db) ==> {
                        &&& t.inv()
                        &&& t@ == db
                        &&& t.heap() == parts.store@
                    }
                },
                None => replay_data(index_ops(parts.index_log@)).len() != parts.data@.len() || replay_text(
                    text_ops(parts.text_log@),
                ).len() != parts.text@.len(),
            },
    {
        let ghost p = parts;
        let mut defs = index_definitions(&parts.index_log);
        let mut text_list = text_index_definitions(&parts.text_log);
        let references = reference_definitions(&parts.reference_log);
        let users = user_table(&parts.user_log);
        let ghost data_views = index_defs_view(defs@);
        let ghost text_views = text_index_defs_view(text_list@);
        if defs.len() != parts.data.len() || text_list.len() != parts.text.len() {
            proof {
                assert(data_views.len() == defs@.len());
                assert(text_views.len() == text_list@.len());
            }
            return None;
        }
        let ghost db = choose|db: DbView| parts_hold(p, db);
        let ghost trees = parts.data@;
        let ghost text_trees = parts.text@;
        let data = pair_data(defs, parts.data);
        let text = pair_text(text_list, parts.text);
        let t = Tables {
            store: parts.store,
            primary: parts.primary,
            kind: parts.kind,
            owner: parts.owner,
            history: parts.history,
            edge_out: parts.edge_out,
            edge_in: parts.edge_in,
            data,
            text,
            references,
            users,
            user_log: parts.user_log,
            index_log: parts.index_log,
            text_log: parts.text_log,
            reference_log: parts.reference_log,
            db: Ghost(db),
        };
        proof {
            assert(data_defs(t.data@) =~= data_views);
            assert(text_defs(t.text@) =~= text_views);
            if exists|db: DbView| parts_hold(p, db) {
                assert(parts_hold(p, db));
                assert forall|other: DbView| #[trigger] parts_hold(p, other) implies other == db by {
                    law_parts_hold_one_database(p, other, db);
                }
                assert forall|i: int| 0 <= i < t.data@.len() implies index_ok(
                    NodeIndex::Data((#[trigger] t.data@[i]).def@),
                    t.data@[i].tree@,
                    db.nodes,
                ) && t.data@[i].tree.wf() by {
                    assert(t.data@[i].tree == trees[i]);
                    assert(data_defs(t.data@)[i] == db.data[i]);
                    assert(p.data@[i] == trees[i]);
                }
                assert forall|i: int| 0 <= i < t.text@.len() implies index_ok(
                    NodeIndex::Text((#[trigger] t.text@[i]).def@),
                    t.text@[i].tree@,
                    db.nodes,
                ) && t.text@[i].tree.wf() by {
                    assert(t.text@[i].tree == text_trees[i]);
                    assert(text_defs(t.text@)[i] == db.text[i]);
                    assert(p.text@[i] == text_trees[i]);
                }
            }
        }
        Some(t)
    }

    /// Puts the parts together, with the highest version of a state kept;
    /// none where there are not as many declared indexes as definitions, or
    /// where the indexes and the heap do not agree.
    pub fn open(parts: Parts) -> (r: Option<(Tables, u64)>)
        requires
            parts_wf(parts),
        ensures
            match r {
                Some((t, top)) => {
                    &&& t.inv()
                    &&& parts_hold(parts, t@)
                    &&& t.heap() == parts.store@
                    &&& replay_data(index_ops(parts.index_log@)).len() == parts.data@.len()
                    &&& replay_text(text_ops(parts.text_log@)).len() == parts.text@.len()
                    &&& forall|x: (Seq<char>, u64)| #[trigger] t@.history.contains_key(x) ==> x.1 <= top
                    &&& top > 0 ==> exists|x: (Seq<char>, u64)| #[trigger] t@.history.contains_key(x) && x.1 == top
                },
                None => {
                    ||| replay_data(index_ops(parts.index_log@)).len() != parts.data@.len()
                    ||| replay_text(text_ops(parts.text_log@)).len() != parts.text@.len()
                    ||| forall|db: DbView| !#[trigger] parts_hold(parts, db)
                },
            },
    {
        let ghost p = parts;
        let defs = index_definitions(&parts.index_log);
        let texts = text_index_definitions(&parts.text_log);
        proof {
            assert(index_defs_view(defs@).len() == defs@.len());
            assert(text_index_defs_view(texts@).len() == texts@.len());
        }
        if defs.len() != parts.data.len() || texts.len() != parts.text.len() {
            return None;
        }
        let (Ghost(db), top) = match audit_parts(&parts) {
            Some(found) => found,
            None => { return None },
        };
        match Tables::assemble(parts) {
            Some(t) => {
                proof {
                    assert(parts_hold(p, db));
                }
                Some((t, top))
            },
            None => None,
        }
    }
}

impl Tables {
    /// Tables that hold nothing.
    pub fn fresh() -> (r: Tables)
        ensures
            r.inv(),
            r@ == empty_db(),
            r.heap().catalog == fresh_catalog(),
            r.has_room(),
    {
        let parts = Parts::fresh();
        let r = Tables {
            store: parts.store,
            primary: parts.primary,
            kind: parts.kind,
            owner: parts.owner,
            history: parts.history,
            edge_out: parts.edge_out,
            edge_in: parts.edge_in,
            data: Vec::new(),
            text: Vec::new(),
            references: Vec::new(),
            users: TextMap::new(),
            user_log: parts.user_log,
            index_log: parts.index_log,
            text_log: parts.text_log,
            reference_log: parts.reference_log,
            db: Ghost(empty_db()),
        };
        proof {
            assert(data_defs(r.data@) =~= empty_db().data);
            assert(text_defs(r.text@) =~= empty_db().text);
            assert(reference_defs(r.references@) =~= empty_db().references);
            assert(users_view(r.users@) =~= empty_db().users);
        }
        r
    }
}

/// The trees in the opposite order.
pub(super) fn turned(trees: Vec<BTree>) -> (r: Vec<BTree>)
    ensures
        r@.len() == trees@.len(),
        forall|i: int| 0 <= i < r@.len() ==> #[trigger] r@[i] == trees@[trees@.len() - 1 - i],
{
    let ghost all = trees@;
    let mut rest = trees;
    let mut back: Vec<BTree> = Vec::new();
    while rest.len() > 0
        invariant
            rest@.len() + back@.len() == all.len(),
            rest@ == all.take(rest@.len() as int),
            forall|i: int| 0 <= i < back@.len() ==> #[trigger] back@[i] == all[all.len() - 1 - i],
        decreases rest.len(),
    {
        let ghost at = rest@.len() - 1;
        if let Some(tree) = rest.pop() {
            proof {
                assert(tree == all[at]);
                assert(rest@ =~= all.take(at));
            }
            back.push(tree);
        }
    }
    back
}

fn pair_data(defs: Vec<IndexDef>, trees: Vec<BTree>) -> (r: Vec<DataIndex>)
    requires
        defs@.len() == trees@.len(),
    ensures
        r@.len() == defs@.len(),
        forall|i: int| 0 <= i < r@.len() ==> (#[trigger] r@[i]).def@ == defs@[i]@ && r@[i].tree == trees@[i],
{
    let ghost all = trees@;
    let mut back = turned(trees);
    let ghost backs = back@;
    let mut out: Vec<DataIndex> = Vec::new();
    while back.len() > 0
        invariant
            back@.len() + out@.len() == all.len(),
            defs@.len() == all.len(),
            backs.len() == all.len(),
            back@ == backs.take(back@.len() as int),
            forall|i: int| 0 <= i < backs.len() ==> #[trigger] backs[i] == all[all.len() - 1 - i],
            forall|i: int| 0 <= i < out@.len() ==> (#[trigger] out@[i]).def@ == defs@[i]@ && out@[i].tree == all[i],
        decreases back.len(),
    {
        let ghost at = back@.len() - 1;
        let k: usize = out.len();
        if let Some(tree) = back.pop() {
            proof {
                assert(tree == backs[at]);
                assert(back@ =~= backs.take(at));
            }
            out.push(DataIndex { def: defs[k].copy(), tree });
        }
    }
    out
}

fn pair_text(defs: Vec<TextIndexDef>, trees: Vec<BTree>) -> (r: Vec<TextIndex>)
    requires
        defs@.len() == trees@.len(),
    ensures
        r@.len() == defs@.len(),
        forall|i: int| 0 <= i < r@.len() ==> (#[trigger] r@[i]).def@ == defs@[i]@ && r@[i].tree == trees@[i],
{
    let ghost all = trees@;
    let mut back = turned(trees);
    let ghost backs = back@;
    let mut out: Vec<TextIndex> = Vec::new();
    while back.len() > 0
        invariant
            back@.len() + out@.len() == all.len(),
            defs@.len() == all.len(),
            backs.len() == all.len(),
            back@ == backs.take(back@.len() as int),
            forall|i: int| 0 <= i < backs.len() ==> #[trigger] backs[i] == all[all.len() - 1 - i],
            forall|i: int| 0 <= i < out@.len() ==> (#[trigger] out@[i]).def@ == defs@[i]@ && out@[i].tree == all[i],
        decreases back.len(),
    {
        let ghost at = back@.len() - 1;
        let k: usize = out.len();
        if let Some(tree) = back.pop() {
            proof {
                assert(tree == backs[at]);
                assert(back@ =~= backs.take(at));
            }
            out.push(TextIndex { def: defs[k].copy(), tree });
        }
    }
    out
}

/// A database that holds nothing.
pub open spec fn empty_db() -> DbView {
    DbView {
        nodes: Map::empty(),
        edges: Map::empty(),
        history: Map::empty(),
        users: Map::empty(),
        data: Seq::empty(),
        text: Seq::empty(),
        references: Seq::empty(),
    }
}

impl Parts {
    /// The parts of a database that holds nothing.
    pub fn fresh() -> (r: Parts)
        ensures
            parts_hold(r, empty_db()),
            r.data@.len() == 0,
            r.text@.len() == 0,
            r.index_log@.len() == 0,
            r.text_log@.len() == 0,
            r.store@.catalog == fresh_catalog(),
            roomy(r.store@),
            r.primary.has_room_spec(),
            r.kind.has_room_spec(),
            r.owner.has_room_spec(),
            r.history.has_room_spec(),
            r.edge_out.has_room_spec(),
            r.edge_in.has_room_spec(),
    {
        let r = Parts {
            store: RecordStore::fresh(),
            primary: BTree::fresh(),
            kind: BTree::fresh(),
            owner: BTree::fresh(),
            history: BTree::fresh(),
            edge_out: BTree::fresh(),
            edge_in: BTree::fresh(),
            data: Vec::new(),
            text: Vec::new(),
            user_log: Vec::new(),
            index_log: Vec::new(),
            text_log: Vec::new(),
            reference_log: Vec::new(),
        };
        proof {
            reveal(nodes_ok);
            reveal(index_ok);
            reveal(edges_ok);
            reveal(history_ok);
            assert(user_ops(r.user_log@) =~= Seq::<UserOpView>::empty());
            assert(index_ops(r.index_log@) =~= Seq::<IndexOpView>::empty());
            assert(text_ops(r.text_log@) =~= Seq::<TextIndexOpView>::empty());
            assert(reference_ops(r.reference_log@) =~= Seq::<ReferenceOpView>::empty());
            assert(replay_users(user_ops(r.user_log@)) =~= empty_db().users);
        }
        r
    }
}

} // verus!
