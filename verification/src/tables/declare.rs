//! Users, declared indexes and references.

use vstd::prelude::*;

use crate::binary::{UserOpRecord, UserOpView};
use crate::btree::{BTree, TreeError};
use crate::cache::RecordCache;
use crate::defs::{IndexDef, IndexOpRecord, ReferenceDef, ReferenceOpRecord, TextIndexDef, TextIndexOpRecord};
use crate::page::Pager;
use crate::tables::lists::{
    data_defs, find_data, find_reference, find_text, reference_defs, text_defs, DataIndex, TextIndex,
};
use crate::tables::model::{
    addressed, admissible, applied, data_fits, data_names, drop_named, entry, index_ok, lemma_nodes_at,
    lemma_put_sorted, listed, put_named, reference_names, text_fits, text_names, Entries, NodeIndex, Nodes,
};
use crate::tables::rows::{belongs, is_listing, scanned, RankBy};
use crate::tables::{agrees, index_ops, reference_ops, text_ops, user_ops, users_view, TableError, Tables};
use crate::types::{NodeView, UserRecord};
use crate::wal::OperationView;

verus! {

/// The tree has the keys of the first `n` rows.
spec fn filled(ix: NodeIndex, tree: Entries, rows: Seq<NodeView>, n: int) -> bool {
    forall|k: Seq<u8>| #[trigger] tree.contains_key(k) <==> exists|i: int| #[trigger] row_entry(ix, rows, n, i, k)
}

spec fn row_entry(ix: NodeIndex, rows: Seq<NodeView>, n: int, i: int, k: Seq<u8>) -> bool {
    0 <= i < n && entry(ix, rows[i], k)
}

proof fn lemma_filled_step(ix: NodeIndex, before: Entries, after: Entries, rows: Seq<NodeView>, n: int)
    requires
        filled(ix, before, rows, n),
        0 <= n < rows.len(),
        forall|k: Seq<u8>| #[trigger] after.contains_key(k) <==> before.contains_key(k) || entry(ix, rows[n], k),
    ensures
        filled(ix, after, rows, n + 1),
{
    assert forall|k: Seq<u8>| #[trigger] after.contains_key(k) <==> exists|i: int| #[trigger]
        row_entry(ix, rows, n + 1, i, k) by {
        if before.contains_key(k) {
            let i = choose|i: int| #[trigger] row_entry(ix, rows, n, i, k);
            assert(row_entry(ix, rows, n + 1, i, k));
        }
        if entry(ix, rows[n], k) {
            assert(row_entry(ix, rows, n + 1, n, k));
        }
        if exists|i: int| #[trigger] row_entry(ix, rows, n + 1, i, k) {
            let i = choose|i: int| #[trigger] row_entry(ix, rows, n + 1, i, k);
            if i < n {
                assert(row_entry(ix, rows, n, i, k));
            }
        }
    }
}

proof fn lemma_filled_all(ix: NodeIndex, tree: Entries, rows: Seq<NodeView>, nodes: Nodes, kind: Seq<char>)
    requires
        filled(ix, tree, rows, rows.len() as int),
        is_listing(rows, nodes, scanned(Some(kind), None), RankBy::Address, None, false),
        addressed(nodes),
        ix matches NodeIndex::Data(d) ==> d.kind == kind,
        ix matches NodeIndex::Text(d) ==> d.kind == kind,
        ix is Data || ix is Text,
    ensures
        index_ok(ix, tree, nodes),
{
    reveal(index_ok);
    let pick = scanned(Some(kind), None);
    assert forall|k: Seq<u8>| #[trigger] tree.contains_key(k) <==> exists|a: Seq<char>| #[trigger]
        listed(ix, nodes, a, k) by {
        if tree.contains_key(k) {
            let i = choose|i: int| #[trigger] row_entry(ix, rows, rows.len() as int, i, k);
            assert(belongs(nodes, pick, RankBy::Address, None, false, rows[i]));
            assert(listed(ix, nodes, rows[i].address, k));
        }
        if exists|a: Seq<char>| #[trigger] listed(ix, nodes, a, k) {
            let a = choose|a: Seq<char>| #[trigger] listed(ix, nodes, a, k);
            let n = nodes[a];
            assert(nodes.contains_key(a));
            assert(belongs(nodes, pick, RankBy::Address, None, false, n));
            assert(rows.contains(n));
            let i = choose|i: int| 0 <= i < rows.len() && rows[i] == n;
            assert(row_entry(ix, rows, rows.len() as int, i, k));
        }
    }
}

impl Tables {
    /// Fills a fresh data index from the nodes of its kind.
    fn backfill_index(&self, index: &mut DataIndex, cache: &mut RecordCache) -> (r: Result<(), TreeError>)
        requires
            self.inv(),
            old(cache).wf(),
            agrees(old(cache)@, self.heap()),
            old(index).tree.wf(),
            old(index).tree@ == Map::<Seq<u8>, Seq<u8>>::empty(),
            forall|a: Seq<char>| #[trigger]
                self@.nodes.contains_key(a) ==> data_fits(old(index).def@, self@.nodes[a]),
        ensures
            final(cache).wf(),
            agrees(final(cache)@, self.heap()),
            final(index).def@ == old(index).def@,
            final(index).tree.wf(),
            match r {
                Ok(()) => index_ok(NodeIndex::Data(old(index).def@), final(index).tree@, self@.nodes),
                Err(e) => !final(index).tree.has_room_spec(),
            },
    {
        let ghost d = index.def@;
        let ghost ix = NodeIndex::Data(d);
        let ghost nodes = self@.nodes;
        let mut rows = self.scan_candidates(Some(&index.def.kind), None, None, false);
        let ghost all = rows.all();
        proof {
            lemma_nodes_at(self.primary@, nodes, self.store@, Seq::empty());
            assert(filled(ix, index.tree@, all, 0));
        }
        loop
            invariant
                self.inv(),
                nodes == self@.nodes,
                cache.wf(),
                agrees(cache@, self.heap()),
                rows.wf(self),
                rows.all() == all,
                index.def@ == d,
                d == old(index).def@,
                ix == NodeIndex::Data(d),
                index.tree.wf(),
                is_listing(all, nodes, scanned(Some(d.kind), None), RankBy::Address, None, false),
                filled(ix, index.tree@, all, rows.taken() as int),
                forall|a: Seq<char>| #[trigger] nodes.contains_key(a) ==> data_fits(d, nodes[a]),
            ensures
                rows.taken() == all.len(),
            decreases all.len() - rows.taken(),
        {
            let ghost at = rows.taken() as int;
            let ghost before = index.tree@;
            match rows.next(self, cache) {
                None => {
                    break;
                },
                Some(node) => {
                    proof {
                        assert(belongs(nodes, scanned(Some(d.kind), None), RankBy::Address, None, false, all[at]));
                    }
                    match index.assert_keys(&node) {
                        Ok(()) => {},
                        Err(e) => { return Err(e) },
                    }
                    proof {
                        lemma_filled_step(ix, before, index.tree@, all, at);
                    }
                },
            }
        }
        proof {
            lemma_nodes_at(self.primary@, nodes, self.store@, Seq::empty());
            lemma_filled_all(ix, index.tree@, all, nodes, d.kind);
        }
        Ok(())
    }

    /// Fills a fresh text index from the nodes of its kind.
    fn backfill_text_index(&self, index: &mut TextIndex, cache: &mut RecordCache) -> (r: Result<(), TreeError>)
        requires
            self.inv(),
            old(cache).wf(),
            agrees(old(cache)@, self.heap()),
            old(index).tree.wf(),
            old(index).tree@ == Map::<Seq<u8>, Seq<u8>>::empty(),
            forall|a: Seq<char>| #[trigger]
                self@.nodes.contains_key(a) ==> text_fits(old(index).def@, self@.nodes[a]),
        ensures
            final(cache).wf(),
            agrees(final(cache)@, self.heap()),
            final(index).def@ == old(index).def@,
            final(index).tree.wf(),
            match r {
                Ok(()) => index_ok(NodeIndex::Text(old(index).def@), final(index).tree@, self@.nodes),
                Err(e) => !final(index).tree.has_room_spec(),
            },
    {
        let ghost d = index.def@;
        let ghost ix = NodeIndex::Text(d);
        let ghost nodes = self@.nodes;
        let mut rows = self.scan_candidates(Some(&index.def.kind), None, None, false);
        let ghost all = rows.all();
        proof {
            assert(filled(ix, index.tree@, all, 0));
        }
        loop
            invariant
                self.inv(),
                nodes == self@.nodes,
                cache.wf(),
                agrees(cache@, self.heap()),
                rows.wf(self),
                rows.all() == all,
                index.def@ == d,
                d == old(index).def@,
                ix == NodeIndex::Text(d),
                index.tree.wf(),
                is_listing(all, nodes, scanned(Some(d.kind), None), RankBy::Address, None, false),
                filled(ix, index.tree@, all, rows.taken() as int),
                forall|a: Seq<char>| #[trigger] nodes.contains_key(a) ==> text_fits(d, nodes[a]),
            ensures
                rows.taken() == all.len(),
            decreases all.len() - rows.taken(),
        {
            let ghost at = rows.taken() as int;
            let ghost before = index.tree@;
            match rows.next(self, cache) {
                None => {
                    break;
                },
                Some(node) => {
                    proof {
                        assert(belongs(nodes, scanned(Some(d.kind), None), RankBy::Address, None, false, all[at]));
                    }
                    match index.assert_keys(&node) {
                        Ok(()) => {},
                        Err(e) => { return Err(e) },
                    }
                    proof {
                        lemma_filled_step(ix, before, index.tree@, all, at);
                    }
                },
            }
        }
        proof {
            lemma_nodes_at(self.primary@, nodes, self.store@, Seq::empty());
            lemma_filled_all(ix, index.tree@, all, nodes, d.kind);
        }
        Ok(())
    }

    /// Declares a data index and fills it.
    pub(crate) fn apply_create_index(&mut self, def: &IndexDef, cache: &mut RecordCache) -> (r: Result<(), TableError>)
        requires
            old(self).inv(),
            old(cache).wf(),
            agrees(old(cache)@, old(self).heap()),
            admissible(old(self)@, OperationView::CreateIndex(def@)),
        ensures
            final(cache).wf(),
            agrees(final(cache)@, final(self).heap()),
            final(self).heap() == old(self).heap(),
            old(self).keeps_spare(final(self)),
            match r {
                Ok(()) => final(self).inv() && final(self)@ == applied(
                    old(self)@,
                    OperationView::CreateIndex(def@),
                ),
                Err(e) => !final(self).has_room(),
            },
    {
        proof {
            reveal(Tables::keeps_spare);
        }
        let ghost db = self@;
        let ghost d = def@;
        let (at, there) = find_data(&self.data, &def.name);
        let tree = match BTree::open(Pager::new()) {
            Ok(tree) => tree,
            Err(e) => {
                proof {
                    assert(false);
                }
                return Err(TableError::Tree(e));
            },
        };
        let mut index = DataIndex { def: def.copy(), tree };
        let filled = self.backfill_index(&mut index, cache);
        let ghost list0 = self.data@;
        let ghost added = index;
        let ghost log0 = self.index_log@;
        self.index_log.push(IndexOpRecord::Put(def.copy()));
        if there {
            self.data[at] = index;
        } else {
            self.data.insert(at, index);
        }
        match filled {
            Ok(()) => {},
            Err(e) => {
                proof {
                    assert(self.data@[at as int] == added);
                    assert(!self.data@[at as int].tree.has_room_spec());
                }
                return Err(TableError::Tree(e));
            },
        }
        proof {
            let names = data_names(db.data);
            lemma_put_sorted(names, d.name);
            let next = applied(db, OperationView::CreateIndex(d));
            assert(data_defs(self.data@) =~= next.data);
            assert(data_names(next.data) =~= put_named(names, names, d.name, d.name));
            assert(index_ops(self.index_log@).drop_last() =~= index_ops(log0));
            assert(index_ops(self.index_log@).last() == crate::defs::IndexOpView::Put(d));
            assert forall|i: int| 0 <= i < self.data@.len() implies (#[trigger] self.data@[i]).tree.wf() && index_ok(
                NodeIndex::Data(self.data@[i].def@),
                self.data@[i].tree@,
                db.nodes,
            ) by {
                if i == at {
                    assert(self.data@[i] == added);
                } else if there || i < at {
                    assert(self.data@[i] == list0[i]);
                } else {
                    assert(self.data@[i] == list0[i - 1]);
                }
            }
            self.db = Ghost(next);
        }
        Ok(())
    }

    /// Takes a data index out.
    pub(crate) fn apply_drop_index(&mut self, name: &str)
        requires
            old(self).inv(),
        ensures
            final(self).inv(),
            final(self).heap() == old(self).heap(),
            old(self).keeps_spare(final(self)),
            final(self)@ == applied(old(self)@, OperationView::DropIndex(name@)),
    {
        proof {
            reveal(Tables::keeps_spare);
        }
        let ghost db = self@;
        let (at, there) = find_data(&self.data, name);
        let ghost list0 = self.data@;
        let ghost log0 = self.index_log@;
        self.index_log.push(IndexOpRecord::Drop(crate::text::own(name)));
        if there {
            let _gone = self.data.remove(at);
        }
        proof {
            let names = data_names(db.data);
            lemma_put_sorted(names, name@);
            let next = applied(db, OperationView::DropIndex(name@));
            assert(data_defs(self.data@) =~= next.data);
            assert(data_names(next.data) =~= drop_named(names, names, name@));
            assert(index_ops(self.index_log@).drop_last() =~= index_ops(log0));
            assert(index_ops(self.index_log@).last() == crate::defs::IndexOpView::Drop(name@));
            assert forall|i: int| 0 <= i < self.data@.len() implies (#[trigger] self.data@[i]).tree.wf() && index_ok(
                NodeIndex::Data(self.data@[i].def@),
                self.data@[i].tree@,
                db.nodes,
            ) by {
                if !there || i < at {
                    assert(self.data@[i] == list0[i]);
                } else {
                    assert(self.data@[i] == list0[i + 1]);
                }
            }
            self.db = Ghost(next);
        }
    }

    /// Declares a text index and fills it.
    pub(crate) fn apply_create_text_index(&mut self, def: &TextIndexDef, cache: &mut RecordCache) -> (r: Result<
        (),
        TableError,
    >)
        requires
            old(self).inv(),
            old(cache).wf(),
            agrees(old(cache)@, old(self).heap()),
            admissible(old(self)@, OperationView::CreateTextIndex(def@)),
        ensures
            final(cache).wf(),
            agrees(final(cache)@, final(self).heap()),
            final(self).heap() == old(self).heap(),
            old(self).keeps_spare(final(self)),
            match r {
                Ok(()) => final(self).inv() && final(self)@ == applied(
                    old(self)@,
                    OperationView::CreateTextIndex(def@),
                ),
                Err(e) => !final(self).has_room(),
            },
    {
        proof {
            reveal(Tables::keeps_spare);
        }
        let ghost db = self@;
        let ghost d = def@;
        let (at, there) = find_text(&self.text, &def.name);
        let tree = match BTree::open(Pager::new()) {
            Ok(tree) => tree,
            Err(e) => {
                proof {
                    assert(false);
                }
                return Err(TableError::Tree(e));
            },
        };
        let mut index = TextIndex { def: def.copy(), tree };
        let filled = self.backfill_text_index(&mut index, cache);
        let ghost list0 = self.text@;
        let ghost added = index;
        let ghost log0 = self.text_log@;
        self.text_log.push(TextIndexOpRecord::Put(def.copy()));
        if there {
            self.text[at] = index;
        } else {
            self.text.insert(at, index);
        }
        match filled {
            Ok(()) => {},
            Err(e) => {
                proof {
                    assert(self.text@[at as int] == added);
                    assert(!self.text@[at as int].tree.has_room_spec());
                }
                return Err(TableError::Tree(e));
            },
        }
        proof {
            let names = text_names(db.text);
            lemma_put_sorted(names, d.name);
            let next = applied(db, OperationView::CreateTextIndex(d));
            assert(text_defs(self.text@) =~= next.text);
            assert(text_names(next.text) =~= put_named(names, names, d.name, d.name));
            assert(text_ops(self.text_log@).drop_last() =~= text_ops(log0));
            assert(text_ops(self.text_log@).last() == crate::defs::TextIndexOpView::Put(d));
            assert forall|i: int| 0 <= i < self.text@.len() implies (#[trigger] self.text@[i]).tree.wf() && index_ok(
                NodeIndex::Text(self.text@[i].def@),
                self.text@[i].tree@,
                db.nodes,
            ) by {
                if i == at {
                    assert(self.text@[i] == added);
                } else if there || i < at {
                    assert(self.text@[i] == list0[i]);
                } else {
                    assert(self.text@[i] == list0[i - 1]);
                }
            }
            self.db = Ghost(next);
        }
        Ok(())
    }

    /// Takes a text index out.
    pub(crate) fn apply_drop_text_index(&mut self, name: &str)
        requires
            old(self).inv(),
        ensures
            final(self).inv(),
            final(self).heap() == old(self).heap(),
            old(self).keeps_spare(final(self)),
            final(self)@ == applied(old(self)@, OperationView::DropTextIndex(name@)),
    {
        proof {
            reveal(Tables::keeps_spare);
        }
        let ghost db = self@;
        let (at, there) = find_text(&self.text, name);
        let ghost list0 = self.text@;
        let ghost log0 = self.text_log@;
        self.text_log.push(TextIndexOpRecord::Drop(crate::text::own(name)));
        if there {
            let _gone = self.text.remove(at);
        }
        proof {
            let names = text_names(db.text);
            lemma_put_sorted(names, name@);
            let next = applied(db, OperationView::DropTextIndex(name@));
            assert(text_defs(self.text@) =~= next.text);
            assert(text_names(next.text) =~= drop_named(names, names, name@));
            assert(text_ops(self.text_log@).drop_last() =~= text_ops(log0));
            assert(text_ops(self.text_log@).last() == crate::defs::TextIndexOpView::Drop(name@));
            assert forall|i: int| 0 <= i < self.text@.len() implies (#[trigger] self.text@[i]).tree.wf() && index_ok(
                NodeIndex::Text(self.text@[i].def@),
                self.text@[i].tree@,
                db.nodes,
            ) by {
                if !there || i < at {
                    assert(self.text@[i] == list0[i]);
                } else {
                    assert(self.text@[i] == list0[i + 1]);
                }
            }
            self.db = Ghost(next);
        }
    }

    /// Declares a reference.
    pub(crate) fn apply_create_reference(&mut self, def: &ReferenceDef)
        requires
            old(self).inv(),
        ensures
            final(self).inv(),
            final(self).heap() == old(self).heap(),
            old(self).keeps_spare(final(self)),
            final(self)@ == applied(old(self)@, OperationView::CreateReference(def@)),
    {
        proof {
            reveal(Tables::keeps_spare);
        }
        let ghost db = self@;
        let ghost d = def@;
        let (at, there) = find_reference(&self.references, &def.name);
        let ghost log0 = self.reference_log@;
        self.reference_log.push(ReferenceOpRecord::Put(def.copy()));
        if there {
            self.references[at] = def.copy();
        } else {
            self.references.insert(at, def.copy());
        }
        proof {
            let names = reference_names(db.references);
            lemma_put_sorted(names, d.name);
            let next = applied(db, OperationView::CreateReference(d));
            assert(reference_defs(self.references@) =~= next.references);
            assert(reference_names(next.references) =~= put_named(names, names, d.name, d.name));
            assert(reference_ops(self.reference_log@).drop_last() =~= reference_ops(log0));
            assert(reference_ops(self.reference_log@).last() == crate::defs::ReferenceOpView::Put(d));
            self.db = Ghost(next);
        }
    }

    /// Takes a reference out.
    pub(crate) fn apply_drop_reference(&mut self, name: &str)
        requires
            old(self).inv(),
        ensures
            final(self).inv(),
            final(self).heap() == old(self).heap(),
            old(self).keeps_spare(final(self)),
            final(self)@ == applied(old(self)@, OperationView::DropReference(name@)),
    {
        proof {
            reveal(Tables::keeps_spare);
        }
        let ghost db = self@;
        let (at, there) = find_reference(&self.references, name);
        let ghost log0 = self.reference_log@;
        self.reference_log.push(ReferenceOpRecord::Drop(crate::text::own(name)));
        if there {
            let _gone = self.references.remove(at);
        }
        proof {
            let names = reference_names(db.references);
            lemma_put_sorted(names, name@);
            let next = applied(db, OperationView::DropReference(name@));
            assert(reference_defs(self.references@) =~= next.references);
            assert(reference_names(next.references) =~= drop_named(names, names, name@));
            assert(reference_ops(self.reference_log@).drop_last() =~= reference_ops(log0));
            assert(reference_ops(self.reference_log@).last() == crate::defs::ReferenceOpView::Drop(name@));
            self.db = Ghost(next);
        }
    }

    /// Keeps a user.
    pub(crate) fn apply_insert_user(&mut self, record: &UserRecord)
        requires
            old(self).inv(),
        ensures
            final(self).inv(),
            final(self).heap() == old(self).heap(),
            old(self).keeps_spare(final(self)),
            final(self)@ == applied(old(self)@, OperationView::InsertUser(record@)),
    {
        proof {
            reveal(Tables::keeps_spare);
        }
        let ghost db = self@;
        let ghost log0 = self.user_log@;
        let ghost users0 = self.users@;
        self.user_log.push(UserOpRecord::Put(record.copy()));
        self.users.insert(record.token_hash.clone(), record.copy());
        proof {
            let next = applied(db, OperationView::InsertUser(record@));
            assert(users_view(self.users@) =~= next.users);
            assert(user_ops(self.user_log@).drop_last() =~= user_ops(log0));
            assert(user_ops(self.user_log@).last() == UserOpView::Put(record@));
            self.db = Ghost(next);
        }
    }

    /// Forgets a user.
    pub(crate) fn apply_revoke_user(&mut self, token_hash: &str)
        requires
            old(self).inv(),
        ensures
            final(self).inv(),
            final(self).heap() == old(self).heap(),
            old(self).keeps_spare(final(self)),
            final(self)@ == applied(old(self)@, OperationView::RevokeUser(token_hash@)),
    {
        proof {
            reveal(Tables::keeps_spare);
        }
        let ghost db = self@;
        let ghost log0 = self.user_log@;
        self.user_log.push(UserOpRecord::Revoke(crate::text::own(token_hash)));
        let _gone = self.users.remove(token_hash);
        proof {
            let next = applied(db, OperationView::RevokeUser(token_hash@));
            assert(users_view(self.users@) =~= next.users);
            assert(user_ops(self.user_log@).drop_last() =~= user_ops(log0));
            assert(user_ops(self.user_log@).last() == UserOpView::Revoke(token_hash@));
            self.db = Ghost(next);
        }
    }
}

} // verus!
