//! Carrying operations out twice.

use vstd::prelude::*;

use crate::defs::{IndexDefView, ReferenceDefView, TextIndexDefView};
use crate::tables::model::{
    applied, applied_all, data_names, drop_named, lemma_put_sorted, name_slot, names_sorted, put_named, reference_names,
    text_names, DbView,
};
use crate::text::text_lt;
use crate::types::{EdgeIdView, EdgeView, HistoryView, NodeView, UserView};
use crate::wal::OperationView;

verus! {

/// Operations in two lists, one after the other.
pub proof fn lemma_applied_join(db: DbView, a: Seq<OperationView>, b: Seq<OperationView>)
    ensures
        applied_all(db, a + b) == applied_all(applied_all(db, a), b),
    decreases b.len(),
{
    if b.len() == 0 {
        assert(a + b =~= a);
    } else {
        let all = a + b;
        assert(all.drop_last() =~= a + b.drop_last());
        assert(all.last() == b.last());
        lemma_applied_join(db, a, b.drop_last());
    }
}

/// The item of a name in a list that goes with the names.
pub open spec fn item_named<T>(list: Seq<T>, names: Seq<Seq<char>>, name: Seq<char>) -> Option<T> {
    let at = name_slot(names, name);
    if 0 <= at < names.len() && names[at] == name {
        Some(list[at])
    } else {
        None
    }
}

pub proof fn lemma_slot_within(names: Seq<Seq<char>>, name: Seq<char>)
    ensures
        0 <= name_slot(names, name) <= names.len(),
    decreases names.len(),
{
    if names.len() > 0 {
        lemma_slot_within(names.drop_first(), name);
    }
}

/// A name stands where it is.
proof fn lemma_slot_of(names: Seq<Seq<char>>, i: int)
    requires
        names_sorted(names),
        0 <= i < names.len(),
    ensures
        name_slot(names, names[i]) == i,
{
    let name = names[i];
    crate::bytes::lemma_lt_irreflexive(crate::text::utf8(name));
    crate::tables::model::lemma_name_slot(names, name, i);
}

/// What a list has under each name after one is put.
pub proof fn lemma_item_put<T>(list: Seq<T>, names: Seq<Seq<char>>, item: T, name: Seq<char>, other: Seq<char>)
    requires
        names_sorted(names),
        list.len() == names.len(),
    ensures
        put_named(list, names, item, name).len() == put_named(names, names, name, name).len(),
        item_named(put_named(list, names, item, name), put_named(names, names, name, name), other) == (if other
            == name {
            Some(item)
        } else {
            item_named(list, names, other)
        }),
{
    lemma_put_sorted(names, name);
    lemma_put_sorted(names, other);
    let at = name_slot(names, name);
    let after = put_named(names, names, name, name);
    lemma_put_sorted(after, other);
    assert(after[at] == name);
    if other == name {
        lemma_slot_of(after, at);
    } else {
        let found = at < names.len() && names[at] == name;
        let was = name_slot(names, other);
        if was < names.len() && names[was] == other {
            let now = if found || was < at {
                was
            } else {
                was + 1
            };
            assert(after[now] == other);
            lemma_slot_of(after, now);
        } else {
            let now = name_slot(after, other);
            if now < after.len() && after[now] == other {
                let i = if found || now < at {
                    now
                } else {
                    now - 1
                };
                assert(names[i] == other);
                lemma_slot_of(names, i);
            }
        }
    }
}

/// What a list has under each name after one is dropped.
proof fn lemma_item_drop<T>(list: Seq<T>, names: Seq<Seq<char>>, name: Seq<char>, other: Seq<char>)
    requires
        names_sorted(names),
        list.len() == names.len(),
    ensures
        drop_named(list, names, name).len() == drop_named(names, names, name).len(),
        item_named(drop_named(list, names, name), drop_named(names, names, name), other) == (if other == name {
            None
        } else {
            item_named(list, names, other)
        }),
{
    lemma_put_sorted(names, name);
    lemma_put_sorted(names, other);
    let at = name_slot(names, name);
    let after = drop_named(names, names, name);
    lemma_put_sorted(after, other);
    let found = at < names.len() && names[at] == name;
    let was = name_slot(names, other);
    let now = name_slot(after, other);
    if now < after.len() && after[now] == other {
        let i = if !found || now < at {
            now
        } else {
            now + 1
        };
        assert(names[i] == other);
        lemma_slot_of(names, i);
        if other == name && found {
            assert(false);
        }
    }
    if other != name && was < names.len() && names[was] == other {
        let i = if !found || was < at {
            was
        } else {
            was - 1
        };
        assert(after[i] == other);
        lemma_slot_of(after, i);
    }
}

/// Sorted lists that have the same under each name are the same.
proof fn lemma_same_items<T>(a: Seq<T>, an: Seq<Seq<char>>, b: Seq<T>, bn: Seq<Seq<char>>)
    requires
        names_sorted(an),
        names_sorted(bn),
        a.len() == an.len(),
        b.len() == bn.len(),
        forall|name: Seq<char>| #[trigger] item_named(a, an, name) == item_named(b, bn, name),
    ensures
        a == b,
{
    lemma_names_within(a, an, b, bn, an.len());
    lemma_names_within(b, bn, a, an, bn.len());
    assert forall|i: int| 0 <= i < a.len() implies a[i] == b[i] by {
        lemma_slot_of(an, i);
        lemma_slot_of(bn, i);
        assert(item_named(a, an, an[i]) == Some(a[i]));
        assert(item_named(b, bn, bn[i]) == Some(b[i]));
    }
    assert(a =~= b);
}

/// The first names of one are the first names of the other.
proof fn lemma_names_within<T>(a: Seq<T>, an: Seq<Seq<char>>, b: Seq<T>, bn: Seq<Seq<char>>, n: nat)
    requires
        names_sorted(an),
        names_sorted(bn),
        a.len() == an.len(),
        b.len() == bn.len(),
        forall|name: Seq<char>| #[trigger] item_named(a, an, name) == item_named(b, bn, name),
        n <= an.len(),
    ensures
        n <= bn.len(),
        forall|i: int| 0 <= i < n ==> an[i] == bn[i],
    decreases n,
{
    if n > 0 {
        lemma_names_within(a, an, b, bn, (n - 1) as nat);
        let i = n - 1;
        lemma_slot_of(an, i);
        assert(item_named(a, an, an[i]) is Some);
        assert(item_named(b, bn, an[i]) is Some);
        let j = name_slot(bn, an[i]);
        assert(bn[j] == an[i]);
        lemma_put_sorted(bn, an[i]);
        if j < i {
            assert(an[j] == bn[j]);
            assert(text_lt(an[j], an[i]));
            crate::bytes::lemma_lt_irreflexive(crate::text::utf8(an[i]));
        }
        if j > i {
            lemma_slot_of(bn, i);
            assert(item_named(b, bn, bn[i]) is Some);
            assert(item_named(a, an, bn[i]) is Some);
            let k = name_slot(an, bn[i]);
            lemma_put_sorted(an, bn[i]);
            assert(an[k] == bn[i]);
            assert(text_lt(bn[i], bn[j]));
            if k > i {
                assert(text_lt(an[i], an[k]));
                crate::bytes::lemma_lt_transitive(
                    crate::text::utf8(an[i]),
                    crate::text::utf8(an[k]),
                    crate::text::utf8(an[i]),
                );
                crate::bytes::lemma_lt_irreflexive(crate::text::utf8(an[i]));
            } else if k == i {
                crate::bytes::lemma_lt_irreflexive(crate::text::utf8(an[i]));
            } else {
                assert(an[k] == bn[k]);
                assert(text_lt(bn[k], bn[i]));
                crate::bytes::lemma_lt_irreflexive(crate::text::utf8(bn[i]));
            }
        }
    }
}

/// Where a database holds something.
pub enum Place {
    Node(Seq<char>),
    Edge(EdgeIdView),
    Version((Seq<char>, u64)),
    User(Seq<char>),
    Data(Seq<char>),
    Text(Seq<char>),
    Reference(Seq<char>),
}

/// What is at a place.
pub enum Held {
    Node(NodeView),
    Edge(EdgeView),
    Version(HistoryView),
    User(UserView),
    Data(IndexDefView),
    Text(TextIndexDefView),
    Reference(ReferenceDefView),
}

pub open spec fn held(db: DbView, at: Place) -> Option<Held> {
    match at {
        Place::Node(a) => if db.nodes.contains_key(a) {
            Some(Held::Node(db.nodes[a]))
        } else {
            None
        },
        Place::Edge(id) => if db.edges.contains_key(id) {
            Some(Held::Edge(db.edges[id]))
        } else {
            None
        },
        Place::Version(x) => if db.history.contains_key(x) {
            Some(Held::Version(db.history[x]))
        } else {
            None
        },
        Place::User(h) => if db.users.contains_key(h) {
            Some(Held::User(db.users[h]))
        } else {
            None
        },
        Place::Data(name) => match item_named(db.data, data_names(db.data), name) {
            Some(d) => Some(Held::Data(d)),
            None => None,
        },
        Place::Text(name) => match item_named(db.text, text_names(db.text), name) {
            Some(d) => Some(Held::Text(d)),
            None => None,
        },
        Place::Reference(name) => match item_named(db.references, reference_names(db.references), name) {
            Some(d) => Some(Held::Reference(d)),
            None => None,
        },
    }
}

/// What an operation leaves at a place, if it is about that place.
pub open spec fn touch(op: OperationView, at: Place) -> Option<Option<Held>> {
    match op {
        OperationView::Archive(h) => if at == Place::Version((h.address, h.version)) {
            Some(Some(Held::Version(h)))
        } else {
            None
        },
        OperationView::Insert(n) => if at == Place::Node(n.address) {
            Some(Some(Held::Node(n)))
        } else {
            None
        },
        OperationView::Delete(a) => if at == Place::Node(a) {
            Some(None)
        } else {
            None
        },
        OperationView::InsertEdge(e) => if at == Place::Edge(e.id()) {
            Some(Some(Held::Edge(e)))
        } else {
            None
        },
        OperationView::DeleteEdge(id) => if at == Place::Edge(id) {
            Some(None)
        } else {
            None
        },
        OperationView::InsertUser(u) => if at == Place::User(u.token_hash) {
            Some(Some(Held::User(u)))
        } else {
            None
        },
        OperationView::RevokeUser(h) => if at == Place::User(h) {
            Some(None)
        } else {
            None
        },
        OperationView::CreateIndex(d) => if at == Place::Data(d.name) {
            Some(Some(Held::Data(d)))
        } else {
            None
        },
        OperationView::DropIndex(name) => if at == Place::Data(name) {
            Some(None)
        } else {
            None
        },
        OperationView::CreateReference(d) => if at == Place::Reference(d.name) {
            Some(Some(Held::Reference(d)))
        } else {
            None
        },
        OperationView::DropReference(name) => if at == Place::Reference(name) {
            Some(None)
        } else {
            None
        },
        OperationView::CreateTextIndex(d) => if at == Place::Text(d.name) {
            Some(Some(Held::Text(d)))
        } else {
            None
        },
        OperationView::DropTextIndex(name) => if at == Place::Text(name) {
            Some(None)
        } else {
            None
        },
    }
}

/// What operations leave at a place, if any is about that place.
pub open spec fn fate(ops: Seq<OperationView>, at: Place) -> Option<Option<Held>>
    decreases ops.len(),
{
    if ops.len() == 0 {
        None
    } else {
        match touch(ops.last(), at) {
            Some(v) => Some(v),
            None => fate(ops.drop_last(), at),
        }
    }
}

/// What is declared is in the order of its names.
pub open spec fn well_named(db: DbView) -> bool {
    &&& names_sorted(data_names(db.data))
    &&& names_sorted(text_names(db.text))
    &&& names_sorted(reference_names(db.references))
}

proof fn lemma_touch(db: DbView, op: OperationView, at: Place)
    requires
        well_named(db),
    ensures
        well_named(applied(db, op)),
        held(applied(db, op), at) == (match touch(op, at) {
            Some(v) => v,
            None => held(db, at),
        }),
{
    let after = applied(db, op);
    match op {
        OperationView::CreateIndex(d) => {
            let names = data_names(db.data);
            lemma_put_sorted(names, d.name);
            assert(data_names(after.data) =~= put_named(names, names, d.name, d.name));
            if let Place::Data(other) = at {
                lemma_item_put(db.data, names, d, d.name, other);
            }
        },
        OperationView::DropIndex(name) => {
            let names = data_names(db.data);
            lemma_put_sorted(names, name);
            assert(data_names(after.data) =~= drop_named(names, names, name));
            if let Place::Data(other) = at {
                lemma_item_drop(db.data, names, name, other);
            }
        },
        OperationView::CreateReference(d) => {
            let names = reference_names(db.references);
            lemma_put_sorted(names, d.name);
            assert(reference_names(after.references) =~= put_named(names, names, d.name, d.name));
            if let Place::Reference(other) = at {
                lemma_item_put(db.references, names, d, d.name, other);
            }
        },
        OperationView::DropReference(name) => {
            let names = reference_names(db.references);
            lemma_put_sorted(names, name);
            assert(reference_names(after.references) =~= drop_named(names, names, name));
            if let Place::Reference(other) = at {
                lemma_item_drop(db.references, names, name, other);
            }
        },
        OperationView::CreateTextIndex(d) => {
            let names = text_names(db.text);
            lemma_put_sorted(names, d.name);
            assert(text_names(after.text) =~= put_named(names, names, d.name, d.name));
            if let Place::Text(other) = at {
                lemma_item_put(db.text, names, d, d.name, other);
            }
        },
        OperationView::DropTextIndex(name) => {
            let names = text_names(db.text);
            lemma_put_sorted(names, name);
            assert(text_names(after.text) =~= drop_named(names, names, name));
            if let Place::Text(other) = at {
                lemma_item_drop(db.text, names, name, other);
            }
        },
        _ => {},
    }
}

proof fn lemma_fate(db: DbView, ops: Seq<OperationView>, at: Place)
    requires
        well_named(db),
    ensures
        well_named(applied_all(db, ops)),
        held(applied_all(db, ops), at) == (match fate(ops, at) {
            Some(v) => v,
            None => held(db, at),
        }),
    decreases ops.len(),
{
    if ops.len() > 0 {
        lemma_fate(db, ops.drop_last(), at);
        lemma_touch(applied_all(db, ops.drop_last()), ops.last(), at);
    }
}

/// What is touched early on is touched.
proof fn lemma_fate_kept(ops: Seq<OperationView>, k: int, at: Place)
    requires
        0 <= k <= ops.len(),
        fate(ops, at) is None,
    ensures
        fate(ops.take(k), at) is None,
    decreases ops.len(),
{
    if k == ops.len() {
        assert(ops.take(k) =~= ops);
    } else {
        lemma_fate_kept(ops.drop_last(), k, at);
        assert(ops.drop_last().take(k) =~= ops.take(k));
    }
}

proof fn lemma_same_nodes(a: DbView, b: DbView)
    requires
        forall|at: Place| #[trigger] held(a, at) == held(b, at),
    ensures
        a.nodes == b.nodes,
{
    assert forall|x: Seq<char>|
        #[trigger] a.nodes.contains_key(x) == b.nodes.contains_key(x) && (a.nodes.contains_key(x) ==> a.nodes[x]
            == b.nodes[x]) by {
        assert(held(a, Place::Node(x)) == held(b, Place::Node(x)));
    }
    assert(a.nodes =~= b.nodes);
}

proof fn lemma_same_edges(a: DbView, b: DbView)
    requires
        forall|at: Place| #[trigger] held(a, at) == held(b, at),
    ensures
        a.edges == b.edges,
{
    assert forall|x: EdgeIdView|
        #[trigger] a.edges.contains_key(x) == b.edges.contains_key(x) && (a.edges.contains_key(x) ==> a.edges[x]
            == b.edges[x]) by {
        assert(held(a, Place::Edge(x)) == held(b, Place::Edge(x)));
    }
    assert(a.edges =~= b.edges);
}

proof fn lemma_same_history(a: DbView, b: DbView)
    requires
        forall|at: Place| #[trigger] held(a, at) == held(b, at),
    ensures
        a.history == b.history,
{
    assert forall|x: (Seq<char>, u64)|
        #[trigger] a.history.contains_key(x) == b.history.contains_key(x) && (a.history.contains_key(x) ==> a.history[x]
            == b.history[x]) by {
        assert(held(a, Place::Version(x)) == held(b, Place::Version(x)));
    }
    assert(a.history =~= b.history);
}

proof fn lemma_same_users(a: DbView, b: DbView)
    requires
        forall|at: Place| #[trigger] held(a, at) == held(b, at),
    ensures
        a.users == b.users,
{
    assert forall|x: Seq<char>|
        #[trigger] a.users.contains_key(x) == b.users.contains_key(x) && (a.users.contains_key(x) ==> a.users[x]
            == b.users[x]) by {
        assert(held(a, Place::User(x)) == held(b, Place::User(x)));
    }
    assert(a.users =~= b.users);
}

proof fn lemma_same_data(a: DbView, b: DbView)
    requires
        well_named(a),
        well_named(b),
        forall|at: Place| #[trigger] held(a, at) == held(b, at),
    ensures
        a.data == b.data,
{
    let an = data_names(a.data);
    let bn = data_names(b.data);
    assert forall|name: Seq<char>| #[trigger] item_named(a.data, an, name) == item_named(b.data, bn, name) by {
        assert(held(a, Place::Data(name)) == held(b, Place::Data(name)));
    }
    lemma_same_items(a.data, an, b.data, bn);
}

proof fn lemma_same_text(a: DbView, b: DbView)
    requires
        well_named(a),
        well_named(b),
        forall|at: Place| #[trigger] held(a, at) == held(b, at),
    ensures
        a.text == b.text,
{
    let an = text_names(a.text);
    let bn = text_names(b.text);
    assert forall|name: Seq<char>| #[trigger] item_named(a.text, an, name) == item_named(b.text, bn, name) by {
        assert(held(a, Place::Text(name)) == held(b, Place::Text(name)));
    }
    lemma_same_items(a.text, an, b.text, bn);
}

proof fn lemma_same_references(a: DbView, b: DbView)
    requires
        well_named(a),
        well_named(b),
        forall|at: Place| #[trigger] held(a, at) == held(b, at),
    ensures
        a.references == b.references,
{
    let an = reference_names(a.references);
    let bn = reference_names(b.references);
    assert forall|name: Seq<char>| #[trigger] item_named(a.references, an, name) == item_named(b.references, bn, name) by {
        assert(held(a, Place::Reference(name)) == held(b, Place::Reference(name)));
    }
    lemma_same_items(a.references, an, b.references, bn);
}

proof fn lemma_same_db(a: DbView, b: DbView)
    requires
        well_named(a),
        well_named(b),
        forall|at: Place| #[trigger] held(a, at) == held(b, at),
    ensures
        a == b,
{
    lemma_same_nodes(a, b);
    lemma_same_edges(a, b);
    lemma_same_history(a, b);
    lemma_same_users(a, b);
    lemma_same_data(a, b);
    lemma_same_text(a, b);
    lemma_same_references(a, b);
}

/// Carrying operations out again changes nothing: whatever part of a log was
/// carried out before, carrying out the whole of it gives what it would have
/// given at first.
pub proof fn law_replay_is_idempotent(db: DbView, ops: Seq<OperationView>, k: int)
    requires
        well_named(db),
        0 <= k <= ops.len(),
    ensures
        applied_all(applied_all(db, ops.take(k)), ops) == applied_all(db, ops),
{
    let part = applied_all(db, ops.take(k));
    let twice = applied_all(part, ops);
    let once = applied_all(db, ops);
    assert forall|at: Place| #[trigger] held(twice, at) == held(once, at) by {
        lemma_fate(db, ops.take(k), at);
        lemma_fate(part, ops, at);
        lemma_fate(db, ops, at);
        if fate(ops, at) is None {
            lemma_fate_kept(ops, k, at);
        }
    }
    lemma_fate(db, ops.take(k), Place::Node(Seq::empty()));
    lemma_fate(part, ops, Place::Node(Seq::empty()));
    lemma_fate(db, ops, Place::Node(Seq::empty()));
    lemma_same_db(twice, once);
}

} // verus!
