//! What is declared, and how much there is.

use vstd::prelude::*;

use crate::bytes::Order;
use crate::defs::{IndexDef, IndexDefView, ReferenceDef, TextIndexDef, TextIndexDefView};
use crate::engine::read::ReadError;
use crate::engine::StorageEngine;
use crate::tables::declared::{index_defs_view, text_index_defs_view};
use crate::tables::listing::{kind_counts, KindCount};
use crate::tables::lists::reference_defs;
use crate::tables::stats::{storage_stats_of, StorageStats};
use crate::text::{str_order, text_lt};

verus! {

/// An index of either sort.
#[derive(Debug)]
pub struct IndexInfo {
    pub name: String,
    pub kind: String,
    pub field: String,
    pub unique: bool,
    /// Over values in order, not over text.
    pub ordered: bool,
}

#[verifier::ext_equal]
pub struct IndexInfoView {
    pub name: Seq<char>,
    pub kind: Seq<char>,
    pub field: Seq<char>,
    pub unique: bool,
    pub ordered: bool,
}

impl View for IndexInfo {
    type V = IndexInfoView;

    open spec fn view(&self) -> IndexInfoView {
        IndexInfoView {
            name: self.name@,
            kind: self.kind@,
            field: self.field@,
            unique: self.unique,
            ordered: self.ordered,
        }
    }
}

pub open spec fn infos_view(list: Seq<IndexInfo>) -> Seq<IndexInfoView> {
    Seq::new(list.len(), |i: int| list[i]@)
}

pub open spec fn ordered_infos(defs: Seq<IndexDefView>) -> Seq<IndexInfoView> {
    Seq::new(
        defs.len(),
        |i: int|
            IndexInfoView {
                name: defs[i].name,
                kind: defs[i].kind,
                field: defs[i].field,
                unique: defs[i].unique,
                ordered: true,
            },
    )
}

pub open spec fn text_infos(defs: Seq<TextIndexDefView>) -> Seq<IndexInfoView> {
    Seq::new(
        defs.len(),
        |i: int|
            IndexInfoView {
                name: defs[i].name,
                kind: defs[i].kind,
                field: defs[i].field,
                unique: false,
                ordered: false,
            },
    )
}

/// Two lists by name as one.
pub open spec fn merged_infos(a: Seq<IndexInfoView>, b: Seq<IndexInfoView>) -> Seq<IndexInfoView>
    decreases a.len() + b.len(),
{
    if a.len() == 0 {
        b
    } else if b.len() == 0 {
        a
    } else if text_lt(b[0].name, a[0].name) {
        seq![b[0]] + merged_infos(a, b.drop_first())
    } else {
        seq![a[0]] + merged_infos(a.drop_first(), b)
    }
}

fn merge_infos(a: Vec<IndexInfo>, b: Vec<IndexInfo>) -> (r: Vec<IndexInfo>)
    ensures
        infos_view(r@) == merged_infos(infos_view(a@), infos_view(b@)),
{
    let ghost x = infos_view(a@);
    let ghost y = infos_view(b@);
    let ghost whole = merged_infos(x, y);
    let mut out: Vec<IndexInfo> = Vec::new();
    let mut i: usize = 0;
    let mut j: usize = 0;
    proof {
        assert(x.skip(0) =~= x);
        assert(y.skip(0) =~= y);
        assert(infos_view(out@) + whole =~= whole);
    }
    while i < a.len() || j < b.len()
        invariant
            i <= a@.len(),
            j <= b@.len(),
            x == infos_view(a@),
            y == infos_view(b@),
            infos_view(out@) + merged_infos(x.skip(i as int), y.skip(j as int)) == whole,
        decreases a.len() - i + (b.len() - j),
    {
        let ghost before = out@;
        let ghost p = x.skip(i as int);
        let ghost q = y.skip(j as int);
        let second: bool = if i >= a.len() {
            true
        } else if j >= b.len() {
            false
        } else {
            match str_order(&b[j].name, &a[i].name) {
                Order::Less => true,
                _ => false,
            }
        };
        if second {
            out.push(copy_info(&b[j]));
            proof {
                assert(q[0] == b@[j as int]@);
                assert(infos_view(out@) =~= infos_view(before).push(q[0]));
                assert(q.drop_first() =~= y.skip(j + 1));
                if p.len() == 0 {
                    assert(q =~= seq![q[0]] + q.drop_first());
                } else {
                    assert(p[0] == a@[i as int]@);
                }
                assert(merged_infos(p, q) =~= seq![q[0]] + merged_infos(p, y.skip(j + 1)));
                assert(infos_view(out@) + merged_infos(p, y.skip(j + 1)) =~= infos_view(before) + merged_infos(p, q));
            }
            j = j + 1;
        } else {
            out.push(copy_info(&a[i]));
            proof {
                assert(p[0] == a@[i as int]@);
                assert(infos_view(out@) =~= infos_view(before).push(p[0]));
                assert(p.drop_first() =~= x.skip(i + 1));
                if q.len() == 0 {
                    assert(p =~= seq![p[0]] + p.drop_first());
                    if p.drop_first().len() == 0 {
                        assert(p.drop_first() =~= q);
                    }
                } else {
                    assert(q[0] == b@[j as int]@);
                }
                assert(merged_infos(p, q) =~= seq![p[0]] + merged_infos(x.skip(i + 1), q));
                assert(infos_view(out@) + merged_infos(x.skip(i + 1), q) =~= infos_view(before) + merged_infos(p, q));
            }
            i = i + 1;
        }
    }
    proof {
        assert(x.skip(i as int) =~= Seq::<IndexInfoView>::empty());
        assert(y.skip(j as int) =~= Seq::<IndexInfoView>::empty());
        assert(infos_view(out@) =~= whole);
    }
    out
}

fn copy_info(info: &IndexInfo) -> (r: IndexInfo)
    ensures
        r@ == info@,
{
    IndexInfo {
        name: info.name.clone(),
        kind: info.kind.clone(),
        field: info.field.clone(),
        unique: info.unique,
        ordered: info.ordered,
    }
}

/// What the engine holds and did.
#[derive(Debug)]
pub struct EngineStats {
    pub node_count: u64,
    pub edge_count: u64,
    pub user_count: u64,
    pub history_entries: u64,
    pub kinds: Vec<KindCount>,
    pub reads_total: u64,
    pub writes_total: u64,
    pub storage: StorageStats,
}

impl StorageEngine {
    /// The indexes over values, by name.
    pub fn list_indexes(&self) -> (r: Vec<IndexDef>)
        requires
            self.inv(),
            !self.failed(),
        ensures
            index_defs_view(r@) == self@.data,
    {
        self.tables.list_indexes()
    }

    /// The indexes over text, by name.
    pub fn list_text_indexes(&self) -> (r: Vec<TextIndexDef>)
        requires
            self.inv(),
            !self.failed(),
        ensures
            text_index_defs_view(r@) == self@.text,
    {
        self.tables.list_text_indexes()
    }

    /// The indexes of both sorts, by name.
    pub fn list_all_indexes(&self) -> (r: Vec<IndexInfo>)
        requires
            self.inv(),
            !self.failed(),
        ensures
            infos_view(r@) == merged_infos(ordered_infos(self@.data), text_infos(self@.text)),
    {
        let data = self.tables.list_indexes();
        let text = self.tables.list_text_indexes();
        let mut a: Vec<IndexInfo> = Vec::new();
        let mut i: usize = 0;
        while i < data.len()
            invariant
                i <= data@.len(),
                index_defs_view(data@) == self@.data,
                a@.len() == i,
                forall|k: int| 0 <= k < i ==> (#[trigger] a@[k])@ == ordered_infos(self@.data)[k],
            decreases data.len() - i,
        {
            let def = &data[i];
            proof {
                assert(index_defs_view(data@)[i as int] == def@);
            }
            a.push(
                IndexInfo {
                    name: def.name.clone(),
                    kind: def.kind.clone(),
                    field: def.field.clone(),
                    unique: def.unique,
                    ordered: true,
                },
            );
            i = i + 1;
        }
        let mut b: Vec<IndexInfo> = Vec::new();
        let mut j: usize = 0;
        while j < text.len()
            invariant
                j <= text@.len(),
                text_index_defs_view(text@) == self@.text,
                b@.len() == j,
                forall|k: int| 0 <= k < j ==> (#[trigger] b@[k])@ == text_infos(self@.text)[k],
            decreases text.len() - j,
        {
            let def = &text[j];
            proof {
                assert(text_index_defs_view(text@)[j as int] == def@);
            }
            b.push(
                IndexInfo {
                    name: def.name.clone(),
                    kind: def.kind.clone(),
                    field: def.field.clone(),
                    unique: false,
                    ordered: false,
                },
            );
            j = j + 1;
        }
        proof {
            assert(infos_view(a@) =~= ordered_infos(self@.data));
            assert(infos_view(b@) =~= text_infos(self@.text));
        }
        merge_infos(a, b)
    }

    /// The references, by name.
    pub fn list_references(&self) -> (r: Vec<ReferenceDef>)
        requires
            self.inv(),
            !self.failed(),
        ensures
            reference_defs(r@) == self@.references,
    {
        self.tables.list_references()
    }

    /// What the engine holds and did.
    pub fn stats(&self) -> (r: Result<EngineStats, ReadError>)
        requires
            self.inv(),
        ensures
            match r {
                Ok(s) => {
                    &&& !self.failed()
                    &&& s.node_count == self@.nodes.len()
                    &&& s.edge_count == self@.edges.len()
                    &&& s.user_count == self@.users.len()
                    &&& s.history_entries == self@.history.len()
                    &&& kind_counts(s.kinds@, self@.nodes)
                    &&& s.reads_total == self.reads()
                    &&& s.writes_total == self.writes()
                    &&& storage_stats_of(s.storage, self.catalog())
                },
                Err(e) => self.failed() && e == ReadError::Failed,
            },
    {
        if self.failed {
            return Err(ReadError::Failed);
        }
        let kinds = self.tables.count_kinds();
        let (node_count, edge_count, history_entries) = self.tables.counts();
        Ok(
            EngineStats {
                node_count,
                edge_count,
                user_count: self.tables.user_count() as u64,
                history_entries,
                kinds,
                reads_total: self.reads_total,
                writes_total: self.writes_total,
                storage: self.tables.storage_stats(),
            },
        )
    }
}

} // verus!
