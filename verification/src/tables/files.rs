//! What the files of the tables hold.

use vstd::prelude::*;

use crate::binary::{replay_users, UserOpRecord};
use crate::btree::BTree;
use crate::defs::{IndexOpRecord, ReferenceOpRecord, TextIndexOpRecord};
use crate::heap::{RecordStore, StoreView};
use crate::tables::lists::{data_defs, text_defs, DataIndex, TextIndex};
use crate::tables::model::{
    edges_ok, history_ok, index_ok, lemma_edges_at, lemma_history_at, lemma_nodes_at, nodes_ok, replay_data,
    replay_references, replay_text, DbView, NodeIndex,
};
use crate::tables::open::{parts_hold, turned, Parts};
use crate::tables::{index_ops, reference_ops, text_ops, user_ops, Entries, Tables};
use crate::types::EdgeIdView;

verus! {

/// One of the indexes; those declared by their place among their like.
#[derive(Clone, Copy, PartialEq, Eq, Debug, Structural)]
pub enum TreeId {
    Primary,
    Kind,
    Owner,
    History,
    EdgeOut,
    EdgeIn,
    Data(usize),
    Text(usize),
}

/// There is such an index.
pub open spec fn has_tree(db: DbView, id: TreeId) -> bool {
    match id {
        TreeId::Data(i) => i < db.data.len(),
        TreeId::Text(i) => i < db.text.len(),
        _ => true,
    }
}

/// The entries are those of the index.
pub open spec fn tree_holds(id: TreeId, tree: Entries, db: DbView, heap: StoreView) -> bool {
    match id {
        TreeId::Primary => nodes_ok(tree, db.nodes, heap),
        TreeId::Kind => index_ok(NodeIndex::Kind, tree, db.nodes),
        TreeId::Owner => index_ok(NodeIndex::Owner, tree, db.nodes),
        TreeId::History => history_ok(tree, db.history, heap),
        TreeId::EdgeOut => exists|ins: Entries| edges_ok(tree, ins, db.edges, heap),
        TreeId::EdgeIn => exists|outs: Entries| edges_ok(outs, tree, db.edges, heap),
        TreeId::Data(i) => index_ok(NodeIndex::Data(db.data[i as int]), tree, db.nodes),
        TreeId::Text(i) => index_ok(NodeIndex::Text(db.text[i as int]), tree, db.nodes),
    }
}

fn trees_of_data(list: Vec<DataIndex>) -> (r: Vec<BTree>)
    ensures
        r@.len() == list@.len(),
        forall|i: int| 0 <= i < r@.len() ==> #[trigger] r@[i] == list@[i].tree,
{
    let ghost all = list@;
    let mut rest = list;
    let mut back: Vec<BTree> = Vec::new();
    while rest.len() > 0
        invariant
            rest@.len() + back@.len() == all.len(),
            rest@ == all.take(rest@.len() as int),
            forall|i: int| 0 <= i < back@.len() ==> #[trigger] back@[i] == all[all.len() - 1 - i].tree,
        decreases rest.len(),
    {
        let ghost at = rest@.len() - 1;
        if let Some(index) = rest.pop() {
            proof {
                assert(index == all[at]);
                assert(rest@ =~= all.take(at));
            }
            back.push(index.tree);
        }
    }
    let trees = turned(back);
    proof {
        assert forall|i: int| 0 <= i < trees@.len() implies #[trigger] trees@[i] == all[i].tree by {
            assert(trees@[i] == back@[all.len() - 1 - i]);
        }
    }
    trees
}

fn trees_of_text(list: Vec<TextIndex>) -> (r: Vec<BTree>)
    ensures
        r@.len() == list@.len(),
        forall|i: int| 0 <= i < r@.len() ==> #[trigger] r@[i] == list@[i].tree,
{
    let ghost all = list@;
    let mut rest = list;
    let mut back: Vec<BTree> = Vec::new();
    while rest.len() > 0
        invariant
            rest@.len() + back@.len() == all.len(),
            rest@ == all.take(rest@.len() as int),
            forall|i: int| 0 <= i < back@.len() ==> #[trigger] back@[i] == all[all.len() - 1 - i].tree,
        decreases rest.len(),
    {
        let ghost at = rest@.len() - 1;
        if let Some(index) = rest.pop() {
            proof {
                assert(index == all[at]);
                assert(rest@ =~= all.take(at));
            }
            back.push(index.tree);
        }
    }
    let trees = turned(back);
    proof {
        assert forall|i: int| 0 <= i < trees@.len() implies #[trigger] trees@[i] == all[i].tree by {
            assert(trees@[i] == back@[all.len() - 1 - i]);
        }
    }
    trees
}

impl Tables {
    /// One of the indexes, for the application to write.
    pub fn tree(&self, id: TreeId) -> (r: Option<&BTree>)
        requires
            self.inv(),
        ensures
            match r {
                Some(t) => has_tree(self@, id) && t.wf() && tree_holds(id, t@, self@, self.heap()),
                None => !has_tree(self@, id),
            },
    {
        proof {
            assert(edges_ok(self.edge_out@, self.edge_in@, self@.edges, self.heap()));
            assert(data_defs(self.data@).len() == self.data@.len());
            assert(text_defs(self.text@).len() == self.text@.len());
        }
        match id {
            TreeId::Primary => Some(&self.primary),
            TreeId::Kind => Some(&self.kind),
            TreeId::Owner => Some(&self.owner),
            TreeId::History => Some(&self.history),
            TreeId::EdgeOut => Some(&self.edge_out),
            TreeId::EdgeIn => Some(&self.edge_in),
            TreeId::Data(i) => if i < self.data.len() {
                proof {
                    assert(data_defs(self.data@)[i as int] == self.data@[i as int].def@);
                }
                Some(&self.data[i].tree)
            } else {
                None
            },
            TreeId::Text(i) => if i < self.text.len() {
                proof {
                    assert(text_defs(self.text@)[i as int] == self.text@[i as int].def@);
                }
                Some(&self.text[i].tree)
            } else {
                None
            },
        }
    }

    /// The heap.
    pub fn store(&self) -> (r: &RecordStore)
        requires
            self.inv(),
        ensures
            r.wf(),
            r@ == self.heap(),
    {
        &self.store
    }

    pub fn user_log(&self) -> (r: &Vec<UserOpRecord>)
        requires
            self.inv(),
        ensures
            replay_users(user_ops(r@)) == self@.users,
    {
        &self.user_log
    }

    pub fn index_log(&self) -> (r: &Vec<IndexOpRecord>)
        requires
            self.inv(),
        ensures
            replay_data(index_ops(r@)) == self@.data,
    {
        &self.index_log
    }

    pub fn text_log(&self) -> (r: &Vec<TextIndexOpRecord>)
        requires
            self.inv(),
        ensures
            replay_text(text_ops(r@)) == self@.text,
    {
        &self.text_log
    }

    pub fn reference_log(&self) -> (r: &Vec<ReferenceOpRecord>)
        requires
            self.inv(),
        ensures
            replay_references(reference_ops(r@)) == self@.references,
    {
        &self.reference_log
    }

    /// Takes the tables apart.
    pub fn into_parts(self) -> (r: Parts)
        requires
            self.inv(),
        ensures
            parts_hold(r, self@),
            r.store@ == self.heap(),
            r.data@.len() == self@.data.len(),
            r.text@.len() == self@.text.len(),
    {
        let ghost t = self;
        let data = trees_of_data(self.data);
        let text = trees_of_text(self.text);
        proof {
            assert(data_defs(t.data@).len() == t.data@.len());
            assert(text_defs(t.text@).len() == t.text@.len());
            assert forall|i: int| 0 <= i < data@.len() implies (#[trigger] data@[i]).wf() && index_ok(
                NodeIndex::Data(t@.data[i]),
                data@[i]@,
                t@.nodes,
            ) by {
                assert(data@[i] == t.data@[i].tree);
                assert(data_defs(t.data@)[i] == t.data@[i].def@);
            }
            assert forall|i: int| 0 <= i < text@.len() implies (#[trigger] text@[i]).wf() && index_ok(
                NodeIndex::Text(t@.text[i]),
                text@[i]@,
                t@.nodes,
            ) by {
                assert(text@[i] == t.text@[i].tree);
                assert(text_defs(t.text@)[i] == t.text@[i].def@);
            }
        }
        Parts {
            store: self.store,
            primary: self.primary,
            kind: self.kind,
            owner: self.owner,
            history: self.history,
            edge_out: self.edge_out,
            edge_in: self.edge_in,
            data,
            text,
            user_log: self.user_log,
            index_log: self.index_log,
            text_log: self.text_log,
            reference_log: self.reference_log,
        }
    }
}

/// What parts hold is what they hold: there is only one such database.
pub proof fn law_parts_hold_one_database(p: Parts, a: DbView, b: DbView)
    requires
        parts_hold(p, a),
        parts_hold(p, b),
    ensures
        a == b,
{
    let s = p.store@;
    assert forall|x: Seq<char>|
        #[trigger] a.nodes.contains_key(x) == b.nodes.contains_key(x) && (a.nodes.contains_key(x) ==> a.nodes[x]
            == b.nodes[x]) by {
        lemma_nodes_at(p.primary@, a.nodes, s, x);
        lemma_nodes_at(p.primary@, b.nodes, s, x);
    }
    assert(a.nodes =~= b.nodes);
    assert forall|x: EdgeIdView|
        #[trigger] a.edges.contains_key(x) == b.edges.contains_key(x) && (a.edges.contains_key(x) ==> a.edges[x]
            == b.edges[x]) by {
        lemma_edges_at(p.edge_out@, p.edge_in@, a.edges, s, x);
        lemma_edges_at(p.edge_out@, p.edge_in@, b.edges, s, x);
    }
    assert(a.edges =~= b.edges);
    assert forall|x: (Seq<char>, u64)|
        #[trigger] a.history.contains_key(x) == b.history.contains_key(x) && (a.history.contains_key(x)
            ==> a.history[x] == b.history[x]) by {
        if a.history.contains_key(x) || b.history.contains_key(x) {
            assert(crate::keys::version_key(x.0, x.1).len() <= crate::btree::model::MAX_KEY_LEN) by {
                reveal(history_ok);
            }
            lemma_history_at(p.history@, a.history, s, x);
            lemma_history_at(p.history@, b.history, s, x);
        }
    }
    assert(a.history =~= b.history);
}

} // verus!
