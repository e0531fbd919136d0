//! What a declaration finds of the nodes that are there already.

use vstd::prelude::*;

use crate::bytes::{bytes_lt, compare, lemma_lt_total, lemma_lt_transitive, Order};
use crate::cache::RecordCache;
use crate::defs::{IndexDef, IndexDefView, ReferenceDef, ReferenceDefView, TextIndexDefView};
use crate::json::field;
use crate::order::encode_order_value;
use crate::tables::check::check_data_key;
use crate::tables::lists::{covers, text_defs};
use crate::tables::model::{data_fits, DbView};
use crate::tables::plan::listing;
use crate::tables::refs::{find_last, referencing, referencing_key, resolves};
use crate::tables::rows::{law_listing_is_unique, scanned, RankBy};
use crate::tables::unique::{code_in, touched};
use crate::tables::{agrees, Tables};
use crate::text::str_eq;
use crate::types::NodeView;
use crate::wal::{operations_view, Operation};

verus! {

/// Why an index cannot be declared over the nodes that are there.
#[derive(Debug)]
pub enum BackfillError {
    /// A node has a value that is too long.
    Unfit { address: String },
    /// Two nodes share a value that is to be unique.
    Shared { first: String, second: String },
}

/// A row before the one at `i` has the same value.
pub open spec fn repeats(d: IndexDefView, rows: Seq<NodeView>, j: int, i: int) -> bool {
    &&& d.unique
    &&& 0 <= j < i
    &&& code_in(d, rows[j]) == code_in(d, rows[i])
}

/// The row at `i` is fit for the index, and no row before it has its value
/// where that is to be unique.
pub open spec fn takes_row(d: IndexDefView, rows: Seq<NodeView>, i: int) -> bool {
    &&& data_fits(d, rows[i])
    &&& forall|j: int| !#[trigger] repeats(d, rows, j, i)
}

/// What is found of the nodes of the kind, in the order of their addresses:
/// the first that does not fit, if there is one.
pub open spec fn backfill(r: Result<(), BackfillError>, d: IndexDefView, rows: Seq<NodeView>) -> bool {
    match r {
        Ok(()) => forall|i: int| 0 <= i < rows.len() ==> #[trigger] takes_row(d, rows, i),
        Err(BackfillError::Unfit { address }) => exists|i: int| {
            &&& #[trigger] first_refused(d, rows, i)
            &&& !data_fits(d, rows[i])
            &&& address@ == rows[i].address
        },
        Err(BackfillError::Shared { first, second }) => exists|i: int, j: int| {
            &&& #[trigger] first_refused(d, rows, i)
            &&& data_fits(d, rows[i])
            &&& #[trigger] repeats(d, rows, j, i)
            &&& first@ == rows[j].address
            &&& second@ == rows[i].address
        },
    }
}

/// The first row that the index does not take.
pub open spec fn first_refused(d: IndexDefView, rows: Seq<NodeView>, i: int) -> bool {
    &&& 0 <= i < rows.len()
    &&& !takes_row(d, rows, i)
    &&& forall|k: int| 0 <= k < i ==> #[trigger] takes_row(d, rows, k)
}

/// A value seen, and where.
struct Seen {
    code: Vec<u8>,
    address: String,
}

spec fn seen_sorted(seen: Seq<Seen>) -> bool {
    forall|i: int, j: int| 0 <= i < j < seen.len() ==> bytes_lt((#[trigger] seen[i]).code@, (#[trigger] seen[j]).code@)
}

/// The entry is that of a row before the one at `n`.
spec fn seen_at(seen: Seen, d: IndexDefView, rows: Seq<NodeView>, n: int, j: int) -> bool {
    0 <= j < n && seen.code@ == code_in(d, rows[j]) && seen.address@ == rows[j].address
}

spec fn seen_before(seen: Seen, d: IndexDefView, rows: Seq<NodeView>, n: int) -> bool {
    exists|j: int| #[trigger] seen_at(seen, d, rows, n, j)
}

spec fn seen_all(seen: Seq<Seen>, d: IndexDefView, rows: Seq<NodeView>, n: int) -> bool {
    &&& seen_sorted(seen)
    &&& forall|k: int| 0 <= k < seen.len() ==> seen_before(#[trigger] seen[k], d, rows, n)
    &&& forall|j: int| 0 <= j < n ==> code_seen(seen, code_in(d, #[trigger] rows[j]))
}

spec fn code_seen(seen: Seq<Seen>, code: Seq<u8>) -> bool {
    exists|k: int| 0 <= k < seen.len() && (#[trigger] seen[k]).code@ == code
}

/// Where a code is among those seen, or belongs.
fn find_seen(seen: &Vec<Seen>, code: &Vec<u8>) -> (r: (usize, bool))
    requires
        seen_sorted(seen@),
    ensures
        r.0 <= seen@.len(),
        r.1 ==> r.0 < seen@.len() && seen@[r.0 as int].code@ == code@,
        !r.1 ==> !code_seen(seen@, code@),
        !r.1 ==> forall|i: int| 0 <= i < r.0 ==> bytes_lt((#[trigger] seen@[i]).code@, code@),
        !r.1 ==> forall|i: int| r.0 <= i < seen@.len() ==> bytes_lt(code@, (#[trigger] seen@[i]).code@),
{
    let mut lo: usize = 0;
    let mut hi: usize = seen.len();
    while lo < hi
        invariant
            seen_sorted(seen@),
            lo <= hi <= seen@.len(),
            forall|i: int| 0 <= i < lo ==> bytes_lt((#[trigger] seen@[i]).code@, code@),
            forall|i: int| hi <= i < seen@.len() ==> bytes_lt(code@, (#[trigger] seen@[i]).code@),
        decreases hi - lo,
    {
        let mid: usize = lo + (hi - lo) / 2;
        match compare(&seen[mid].code, code) {
            Order::Equal => {
                return (mid, true);
            },
            Order::Less => {
                proof {
                    assert forall|i: int| 0 <= i < mid + 1 implies bytes_lt((#[trigger] seen@[i]).code@, code@) by {
                        if i < mid {
                            lemma_lt_transitive(seen@[i].code@, seen@[mid as int].code@, code@);
                        }
                    }
                }
                lo = mid + 1;
            },
            Order::Greater => {
                proof {
                    assert forall|i: int| mid <= i < seen@.len() implies bytes_lt(code@, (#[trigger] seen@[i]).code@) by {
                        if i > mid {
                            lemma_lt_transitive(code@, seen@[mid as int].code@, seen@[i].code@);
                        }
                    }
                }
                hi = mid;
            },
        }
    }
    proof {
        assert forall|i: int| 0 <= i < seen@.len() implies (#[trigger] seen@[i]).code@ != code@ by {
            lemma_lt_total(seen@[i].code@, code@);
        }
    }
    (lo, false)
}

proof fn lemma_seen_insert(
    before: Seq<Seen>,
    at: int,
    entry: Seen,
    d: IndexDefView,
    rows: Seq<NodeView>,
    n: int,
)
    requires
        seen_all(before, d, rows, n),
        0 <= n < rows.len(),
        0 <= at <= before.len(),
        entry.code@ == code_in(d, rows[n]),
        entry.address@ == rows[n].address,
        forall|i: int| 0 <= i < at ==> bytes_lt((#[trigger] before[i]).code@, entry.code@),
        forall|i: int| at <= i < before.len() ==> bytes_lt(entry.code@, (#[trigger] before[i]).code@),
    ensures
        seen_all(before.insert(at, entry), d, rows, n + 1),
{
    let now = before.insert(at, entry);
    assert forall|i: int, j: int| 0 <= i < j < now.len() implies bytes_lt(
        (#[trigger] now[i]).code@,
        (#[trigger] now[j]).code@,
    ) by {
        if j < at {
            assert(now[i] == before[i] && now[j] == before[j]);
        } else if j == at {
            assert(now[i] == before[i]);
        } else if i < at {
            assert(now[i] == before[i] && now[j] == before[j - 1]);
        } else if i == at {
            assert(now[j] == before[j - 1]);
        } else {
            assert(now[i] == before[i - 1] && now[j] == before[j - 1]);
        }
    }
    assert forall|k: int| 0 <= k < now.len() implies seen_before(#[trigger] now[k], d, rows, n + 1) by {
        if k == at {
            assert(seen_at(now[k], d, rows, n + 1, n));
        } else {
            let o = if k < at {
                k
            } else {
                k - 1
            };
            assert(now[k] == before[o]);
            assert(seen_before(before[o], d, rows, n));
            let j = choose|j: int| #[trigger] seen_at(before[o], d, rows, n, j);
            assert(seen_at(now[k], d, rows, n + 1, j));
        }
    }
    assert forall|j: int| 0 <= j < n + 1 implies code_seen(now, code_in(d, #[trigger] rows[j])) by {
        if j < n {
            assert(code_seen(before, code_in(d, rows[j])));
            let k = choose|k: int| 0 <= k < before.len() && (#[trigger] before[k]).code@ == code_in(d, rows[j]);
            if k < at {
                assert(now[k] == before[k]);
            } else {
                assert(now[k + 1] == before[k]);
            }
        } else {
            assert(now[at].code@ == code_in(d, rows[j]));
        }
    }
}

impl Tables {
    /// Whether an index can be declared over the nodes that are there.
    pub(crate) fn check_backfill_admissible(&self, def: &IndexDef, cache: &mut RecordCache) -> (r: Result<
        (),
        BackfillError,
    >)
        requires
            self.inv(),
            old(cache).wf(),
            agrees(old(cache)@, self.heap()),
        ensures
            final(cache).wf(),
            agrees(final(cache)@, self.heap()),
            backfill(r, def@, listing(self@.nodes, scanned(Some(def@.kind), None))),
    {
        let ghost d = def@;
        let ghost all = listing(self@.nodes, scanned(Some(d.kind), None));
        let mut rows = self.scan_candidates(Some(&def.kind), None, None, false);
        proof {
            law_listing_is_unique(
                rows.all(),
                all,
                self@.nodes,
                scanned(Some(d.kind), None),
                RankBy::Address,
                None,
                false,
            );
        }
        let mut seen: Vec<Seen> = Vec::new();
        loop
            invariant
                self.inv(),
                cache.wf(),
                agrees(cache@, self.heap()),
                d == def@,
                rows.wf(self),
                rows.all() == all,
                all == listing(self@.nodes, scanned(Some(d.kind), None)),
                rows.taken() <= all.len(),
                forall|i: int| 0 <= i < rows.taken() ==> #[trigger] takes_row(d, all, i),
                d.unique ==> seen_all(seen@, d, all, rows.taken() as int),
            ensures
                rows.taken() == all.len(),
            decreases all.len() - rows.taken(),
        {
            let ghost at = rows.taken() as int;
            let node = match rows.next(self, cache) {
                Some(node) => node,
                None => {
                    break;
                },
            };
            if !check_data_key(def, &node) {
                proof {
                    assert(!takes_row(d, all, at));
                    assert(first_refused(d, all, at));
                }
                return Err(BackfillError::Unfit { address: node.address });
            }
            if def.unique {
                let value = field(&node.data, &def.field);
                let code = encode_order_value(value.as_ref());
                let (k, found) = find_seen(&seen, &code);
                if found {
                    let first = seen[k].address.clone();
                    proof {
                        assert(seen_before(seen@[k as int], d, all, at));
                        let j = choose|j: int| #[trigger] seen_at(seen@[k as int], d, all, at, j);
                        assert(repeats(d, all, j, at));
                        assert(!takes_row(d, all, at));
                        assert(first_refused(d, all, at));
                    }
                    return Err(BackfillError::Shared { first, second: node.address });
                }
                let entry = Seen { code, address: node.address };
                let ghost before = seen@;
                let ghost added = entry;
                seen.insert(k, entry);
                proof {
                    lemma_seen_insert(before, k as int, added, d, all, at);
                    assert(seen@ =~= before.insert(k as int, added));
                    assert forall|j: int| !#[trigger] repeats(d, all, j, at) by {
                        if repeats(d, all, j, at) {
                            assert(code_seen(before, code_in(d, all[j])));
                        }
                    }
                }
            }
            proof {
                assert(takes_row(d, all, at));
            }
        }
        Ok(())
    }
}

// ---------------------------------------------------------------------
// References
// ---------------------------------------------------------------------

/// What a node names is there.
pub open spec fn names_live(db: DbView, r: ReferenceDefView, n: NodeView) -> bool {
    referencing(n, r) matches Some(key) ==> resolves(db, r, key, |a: Seq<char>| false)
}

/// Why a reference cannot be declared over the nodes that are there.
#[derive(Debug)]
pub enum UnmetReference {
    /// A node names another that is not there.
    Dangling { address: String, value: String },
    /// The index to find that out is gone.
    IndexGone,
}

impl Tables {
    /// Whether every node of the kind names one that is there.
    pub(crate) fn check_reference_satisfied(&self, def: &ReferenceDef, cache: &mut RecordCache) -> (r: Result<
        (),
        UnmetReference,
    >)
        requires
            self.inv(),
            old(cache).wf(),
            agrees(old(cache)@, self.heap()),
        ensures
            final(cache).wf(),
            agrees(final(cache)@, self.heap()),
            ({
                let rows = listing(self@.nodes, scanned(Some(def@.kind), None));
                match r {
                    Ok(()) => forall|i: int| 0 <= i < rows.len() ==> names_live(self@, def@, #[trigger] rows[i]),
                    Err(UnmetReference::Dangling { address, value }) => exists|i: int| {
                        &&& 0 <= i < rows.len()
                        &&& !names_live(self@, def@, #[trigger] rows[i])
                        &&& forall|k: int| 0 <= k < i ==> names_live(self@, def@, #[trigger] rows[k])
                        &&& address@ == rows[i].address
                        &&& value@ == referencing(rows[i], def@)->0.text
                    },
                    Err(UnmetReference::IndexGone) => def@.parent_field matches Some(f) && covers(
                        self@.data,
                        def@.parent_kind,
                        f,
                    ) is None,
                }
            }),
    {
        let ghost d = def@;
        let ghost all = listing(self@.nodes, scanned(Some(d.kind), None));
        let mut rows = self.scan_candidates(Some(&def.kind), None, None, false);
        proof {
            law_listing_is_unique(
                rows.all(),
                all,
                self@.nodes,
                scanned(Some(d.kind), None),
                RankBy::Address,
                None,
                false,
            );
        }
        let none: Vec<Operation> = Vec::new();
        let last = find_last(&none);
        let ghost view = operations_view(none@);
        proof {
            assert((|a: Seq<char>| touched(view, a)) =~= (|a: Seq<char>| false));
        }
        loop
            invariant
                self.inv(),
                cache.wf(),
                agrees(cache@, self.heap()),
                d == def@,
                rows.wf(self),
                rows.all() == all,
                all == listing(self@.nodes, scanned(Some(d.kind), None)),
                last.wf(),
                crate::tables::refs::last_touches(last@, view, none@.len() as int),
                view == operations_view(none@),
                (|a: Seq<char>| touched(view, a)) == (|a: Seq<char>| false),
                rows.taken() <= all.len(),
                forall|i: int| 0 <= i < rows.taken() ==> names_live(self@, d, #[trigger] all[i]),
            ensures
                rows.taken() == all.len(),
            decreases all.len() - rows.taken(),
        {
            let ghost at = rows.taken() as int;
            let node = match rows.next(self, cache) {
                Some(node) => node,
                None => {
                    break;
                },
            };
            match referencing_key(&node, def) {
                Some(key) => match self.resolves_committed(def, &key, &none, &last, cache) {
                    Some(true) => {},
                    Some(false) => {
                        proof {
                            assert(!names_live(self@, d, all[at]));
                        }
                        return Err(UnmetReference::Dangling { address: node.address, value: key.text });
                    },
                    None => { return Err(UnmetReference::IndexGone) },
                },
                None => {},
            }
        }
        Ok(())
    }
}

/// The reference is enforced through the index over the field.
pub open spec fn leans_on(r: ReferenceDefView, kind: Seq<char>, name: Seq<char>) -> bool {
    ||| r.kind == kind && r.field == name
    ||| r.parent_kind == kind && r.parent_field == Some(name)
}

/// The references enforced through the index over the field.
pub open spec fn dependents(refs: Seq<ReferenceDefView>, kind: Seq<char>, name: Seq<char>) -> Seq<ReferenceDefView> {
    refs.filter(|r: ReferenceDefView| leans_on(r, kind, name))
}

fn is_leaning(def: &ReferenceDef, kind: &str, name: &str) -> (r: bool)
    ensures
        r == leans_on(def@, kind@, name@),
{
    if str_eq(&def.kind, kind) && str_eq(&def.field, name) {
        return true;
    }
    match &def.parent_field {
        Some(f) => str_eq(&def.parent_kind, kind) && str_eq(f, name),
        None => false,
    }
}

impl Tables {
    /// The first reference enforced through the index over a field, and how
    /// many there are.
    pub(crate) fn depending_on_index(&self, kind: &str, name: &str) -> (r: Option<(String, usize)>)
        requires
            self.inv(),
        ensures
            match r {
                Some((first, n)) => {
                    &&& dependents(self@.references, kind@, name@).len() == n
                    &&& n > 0
                    &&& first@ == dependents(self@.references, kind@, name@)[0].name
                },
                None => dependents(self@.references, kind@, name@).len() == 0,
            },
    {
        let ghost refs = self@.references;
        let ghost keep = |r: ReferenceDefView| leans_on(r, kind@, name@);
        let mut first: Option<String> = None;
        let mut n: usize = 0;
        let mut i: usize = 0;
        proof {
            reveal(Seq::filter);
            assert(refs.take(0).filter(keep) =~= Seq::<ReferenceDefView>::empty());
        }
        while i < self.references.len()
            invariant
                self.inv(),
                refs == self@.references,
                keep == (|r: ReferenceDefView| leans_on(r, kind@, name@)),
                i <= self.references@.len(),
                n <= i,
                n == refs.take(i as int).filter(keep).len(),
                first is Some <==> n > 0,
                n > 0 ==> first->0@ == refs.take(i as int).filter(keep)[0].name,
            decreases self.references.len() - i,
        {
            let def = &self.references[i];
            proof {
                assert(crate::tables::lists::reference_defs(self.references@)[i as int] == def@);
                let next = refs.take(i + 1);
                reveal(Seq::filter);
                assert(next.drop_last() =~= refs.take(i as int));
                assert(next.last() == def@);
            }
            if is_leaning(def, kind, name) {
                if n == 0 {
                    first = Some(def.name.clone());
                }
                n = n + 1;
            }
            i = i + 1;
        }
        proof {
            assert(refs.take(refs.len() as int) =~= refs);
        }
        match first {
            Some(first) => Some((first, n)),
            None => None,
        }
    }
}

/// The first text index over a field of a kind, by position.
pub open spec fn text_covers(defs: Seq<TextIndexDefView>, kind: Seq<char>, name: Seq<char>, i: int) -> Option<int>
    decreases defs.len() - i,
{
    if i < 0 || i >= defs.len() {
        None
    } else if defs[i].kind == kind && defs[i].field == name {
        Some(i)
    } else {
        text_covers(defs, kind, name, i + 1)
    }
}

impl Tables {
    /// The text index over a field of a kind.
    pub(crate) fn text_find(&self, kind: &str, name: &str) -> (r: Option<usize>)
        requires
            self.inv(),
        ensures
            match r {
                Some(i) => text_covers(self@.text, kind@, name@, 0) == Some(i as int) && i < self@.text.len(),
                None => text_covers(self@.text, kind@, name@, 0) is None,
            },
    {
        let mut i: usize = 0;
        while i < self.text.len()
            invariant
                self.inv(),
                i <= self.text@.len(),
                text_covers(self@.text, kind@, name@, 0) == text_covers(self@.text, kind@, name@, i as int),
            decreases self.text.len() - i,
        {
            let def = &self.text[i].def;
            proof {
                assert(text_defs(self.text@)[i as int] == def@);
            }
            if str_eq(&def.kind, kind) && str_eq(&def.field, name) {
                return Some(i);
            }
            i = i + 1;
        }
        None
    }
}

} // verus!
