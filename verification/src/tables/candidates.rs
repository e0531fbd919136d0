//! Which nodes a query has to look at.

use vstd::prelude::*;

use crate::defs::{IndexDefView, TextIndexDefView};
use crate::filter::{contains_text, pins_hold, Filter};
use crate::keys::{
    add_grams, has_gram, holds_bytes, indexed_text_of, law_substring_has_its_grams, strictly_sorted, text_key, GRAM_LEN,
};
use crate::sort::{has_text, texts_sorted};
use crate::tables::lists::{data_defs, text_defs};
use crate::tables::model::{entry, lemma_index_has, lemma_nodes_at, listed, DbView, NodeIndex};
use crate::tables::rows::{belongs, is_listing, live, rank, with_gram, RankBy};
use crate::tables::Tables;
use crate::text::{str_eq, text_lt, utf8};
use crate::types::NodeView;

verus! {

/// Pieces that a search through a text index may start from.
pub const MAX_TEXT_SEED_GRAMS: usize = 4;

/// A search that starts with this few nodes looks for no better start.
pub const MAX_TEXT_SEED_ENOUGH: usize = 1024;

/// Pieces that the nodes found are held against.
pub const MAX_TEXT_PROBE_GRAMS: usize = 16;

/// So few nodes are not held against further pieces.
pub const MAX_TEXT_PROBE_FLOOR: usize = 64;

// ---------------------------------------------------------------------
// By value
// ---------------------------------------------------------------------

/// The first value, from position `i` on, that the condition pins a member
/// to.
pub open spec fn pinned(f: Filter, name: Seq<char>, i: int) -> Option<int>
    decreases f.equals@.len() - i,
{
    if i < 0 || i >= f.equals@.len() {
        None
    } else if f.equals@[i].0@ == name {
        Some(i)
    } else {
        pinned(f, name, i + 1)
    }
}

pub proof fn lemma_pinned(f: Filter, name: Seq<char>, i: int)
    requires
        0 <= i,
    ensures
        pinned(f, name, i) matches Some(p) ==> i <= p < f.equals@.len() && f.equals@[p].0@ == name,
    decreases f.equals@.len() - i,
{
    if i < f.equals@.len() && f.equals@[i].0@ != name {
        lemma_pinned(f, name, i + 1);
    }
}

/// The first data index, from position `i` on, over a member of the kind
/// that the condition pins to a value.
pub open spec fn value_index(defs: Seq<IndexDefView>, kind: Seq<char>, f: Filter, i: int) -> Option<int>
    decreases defs.len() - i,
{
    if i < 0 || i >= defs.len() {
        None
    } else if defs[i].kind == kind && pinned(f, defs[i].field, 0) is Some {
        Some(i)
    } else {
        value_index(defs, kind, f, i + 1)
    }
}

fn find_pinned(f: &Filter, name: &str) -> (r: Option<usize>)
    ensures
        match r {
            Some(p) => pinned(*f, name@, 0) == Some(p as int) && p < f.equals@.len(),
            None => pinned(*f, name@, 0) is None,
        },
{
    let mut i: usize = 0;
    while i < f.equals.len()
        invariant
            i <= f.equals@.len(),
            pinned(*f, name@, i as int) == pinned(*f, name@, 0),
        decreases f.equals.len() - i,
    {
        if str_eq(&f.equals[i].0, name) {
            return Some(i);
        }
        i = i + 1;
    }
    None
}

/// The first thing, from position `i` on, that the condition says a member's
/// text begins with.
pub open spec fn prefix_pin(f: Filter, name: Seq<char>, i: int) -> Option<int>
    decreases f.prefixes@.len() - i,
{
    if i < 0 || i >= f.prefixes@.len() {
        None
    } else if f.prefixes@[i].0@ == name {
        Some(i)
    } else {
        prefix_pin(f, name, i + 1)
    }
}

pub fn find_prefix(f: &Filter, name: &str) -> (r: Option<usize>)
    ensures
        match r {
            Some(p) => prefix_pin(*f, name@, 0) == Some(p as int) && p < f.prefixes@.len() && f.prefixes@[p as int].0@
                == name@,
            None => prefix_pin(*f, name@, 0) is None,
        },
{
    let mut i: usize = 0;
    while i < f.prefixes.len()
        invariant
            i <= f.prefixes@.len(),
            prefix_pin(*f, name@, i as int) == prefix_pin(*f, name@, 0),
        decreases f.prefixes.len() - i,
    {
        if str_eq(&f.prefixes[i].0, name) {
            return Some(i);
        }
        i = i + 1;
    }
    None
}

/// The data index and the pin that a query starts from, if it has a kind and
/// a condition that allow it.
pub open spec fn selection_of(
    db: DbView,
    kind: Option<Seq<char>>,
    filter: Option<Filter>,
) -> Option<(int, int)> {
    match (kind, filter) {
        (Some(k), Some(f)) => match value_index(db.data, k, f, 0) {
            Some(x) => Some((x, pinned(f, db.data[x].field, 0)->0)),
            None => None,
        },
        _ => None,
    }
}

pub open spec fn filter_view(f: Option<&Filter>) -> Option<Filter> {
    match f {
        Some(f) => Some(*f),
        None => None,
    }
}

impl Tables {
    /// The data index and the pin that a query starts from.
    pub(crate) fn equality_selection(&self, kind: Option<&str>, filter: Option<&Filter>) -> (r: Option<(usize, usize)>)
        requires
            self.inv(),
        ensures
            match r {
                Some((x, p)) => {
                    &&& selection_of(self@, crate::text::str_view(kind), filter_view(filter)) == Some((x as int, p as int))
                    &&& x < self@.data.len()
                    &&& kind is Some
                    &&& self@.data[x as int].kind == kind->0@
                    &&& filter is Some
                    &&& p < filter->0.equals@.len()
                    &&& filter->0.equals@[p as int].0@ == self@.data[x as int].field
                },
                None => selection_of(self@, crate::text::str_view(kind), filter_view(filter)) is None,
            },
    {
        let (k, f) = match (kind, filter) {
            (Some(k), Some(f)) => (k, f),
            _ => { return None },
        };
        let ghost defs = self@.data;
        let mut x: usize = 0;
        while x < self.data.len()
            invariant
                self.inv(),
                defs == self@.data,
                x <= self.data@.len(),
                kind == Some(k),
                filter == Some(f),
                value_index(defs, k@, *f, x as int) == value_index(defs, k@, *f, 0),
            decreases self.data.len() - x,
        {
            let def = &self.data[x].def;
            proof {
                assert(data_defs(self.data@)[x as int] == def@);
            }
            if str_eq(&def.kind, k) {
                match find_pinned(f, &def.field) {
                    Some(p) => {
                        proof {
                            lemma_pinned(*f, def@.field, 0);
                        }
                        return Some((x, p));
                    },
                    None => {},
                }
            }
            x = x + 1;
        }
        proof {
            assert(self.data@.len() == defs.len());
        }
        None
    }
}

// ---------------------------------------------------------------------
// By text
// ---------------------------------------------------------------------

/// The node is of the kind and its text contains all of the pieces.
pub open spec fn has_grams(d: TextIndexDefView, grams: Seq<Vec<u8>>, n: NodeView) -> bool {
    &&& n.kind == d.kind
    &&& indexed_text_of(n.data, d.field) is Some
    &&& forall|i: int|
        0 <= i < grams.len() ==> has_gram(utf8(indexed_text_of(n.data, d.field)->0), (#[trigger] grams[i])@)
}

/// Addresses of nodes, in order, among them those of all nodes whose text
/// contains all of the pieces.
pub open spec fn covers_grams(db: DbView, d: TextIndexDefView, grams: Seq<Vec<u8>>, list: Seq<String>) -> bool {
    &&& texts_sorted(list)
    &&& forall|i: int| 0 <= i < list.len() ==> db.nodes.contains_key((#[trigger] list[i])@)
    &&& forall|n: NodeView| live(db.nodes, n) && #[trigger] has_grams(d, grams, n) ==> has_text(list, n.address)
}

/// Every node at the addresses is of the kind, and its text contains the
/// piece.
pub open spec fn shares_gram(db: DbView, d: TextIndexDefView, gram: Seq<u8>, list: Seq<String>) -> bool {
    forall|i: int|
        0 <= i < list.len() ==> with_gram(d.kind, d.field, gram)(db.nodes[(#[trigger] list[i])@])
}

/// The piece is one of a text that the condition says the member contains.
pub open spec fn from_literals(f: Filter, name: Seq<char>, g: Seq<u8>) -> bool {
    exists|i: int|
        0 <= i < f.contains@.len() && (#[trigger] f.contains@[i]).0@ == name && has_gram(utf8(f.contains@[i].1@), g)
}

/// A text index leaves only the addresses of nodes whose text contains some
/// piece of what the condition looks for.
pub open spec fn text_narrowed(db: DbView, kind: Seq<char>, f: Filter, list: Seq<String>) -> bool {
    exists|x: int, g: Seq<u8>| {
        &&& 0 <= x < db.text.len()
        &&& db.text[x].kind == kind
        &&& from_literals(f, db.text[x].field, g)
        &&& #[trigger] shares_gram(db, db.text[x], g, list)
    }
}

/// More than `limit` nodes of the kind contain the piece.
pub open spec fn broad(db: DbView, d: TextIndexDefView, gram: Seq<u8>, limit: nat) -> bool {
    exists|rows: Seq<NodeView>|
        rows.len() > limit && #[trigger] is_listing(
            rows,
            db.nodes,
            with_gram(d.kind, d.field, gram),
            RankBy::Address,
            None,
            false,
        )
}

/// A text index is of no help: the condition gives nothing to look for in it,
/// or some piece of what it gives is in more nodes than may be listed.
pub open spec fn unhelpful(db: DbView, d: TextIndexDefView, f: Filter, cap: nat) -> bool {
    ||| cap == 0
    ||| forall|g: Seq<u8>| !#[trigger] from_literals(f, d.field, g)
    ||| exists|g: Seq<u8>| #[trigger] from_literals(f, d.field, g) && broad(db, d, g, cap)
}

/// Some text index of the kind is of help.
pub open spec fn text_helps(db: DbView, kind: Option<Seq<char>>, filter: Option<Filter>, cap: nat) -> bool {
    kind is Some && filter is Some && exists|x: int|
        0 <= x < db.text.len() && (#[trigger] db.text[x]).kind == kind->0 && !unhelpful(db, db.text[x], filter->0, cap)
}

impl Tables {
    /// The addresses under one piece, or nothing if there are more than
    /// `limit`; and how many were read.
    fn seed(&self, at: usize, gram: &Vec<u8>, limit: usize) -> (r: (Option<Vec<String>>, usize))
        requires
            self.inv(),
            at < self@.text.len(),
            gram@.len() == GRAM_LEN,
        ensures
            r.1 <= limit,
            r.0 is None ==> broad(self@, self@.text[at as int], gram@, limit as nat),
            r.0 matches Some(list) ==> {
                &&& texts_sorted(list@)
                &&& list@.len() == r.1
                &&& shares_gram(self@, self@.text[at as int], gram@, list@)
                &&& forall|i: int| 0 <= i < list@.len() ==> self@.nodes.contains_key((#[trigger] list@[i])@)
                &&& forall|n: NodeView|
                    live(self@.nodes, n) && #[trigger] with_gram(
                        self@.text[at as int].kind,
                        self@.text[at as int].field,
                        gram@,
                    )(n) ==> has_text(list@, n.address)
            },
    {
        let ghost nodes = self@.nodes;
        let ghost d = self@.text[at as int];
        let ghost pick = with_gram(d.kind, d.field, gram@);
        let mut rows = self.scan_text(at, gram);
        let ghost all = rows.all();
        let mut list: Vec<String> = Vec::new();
        loop
            invariant
                rows.wf(self),
                rows.all() == all,
                list@.len() == rows.taken(),
                list@.len() <= limit,
                nodes == self@.nodes,
                d == self@.text[at as int],
                pick == with_gram(d.kind, d.field, gram@),
                is_listing(all, nodes, pick, RankBy::Address, None, false),
                forall|k: int| 0 <= k < list@.len() ==> (#[trigger] list@[k])@ == all[k].address,
            ensures
                rows.taken() == all.len(),
            decreases all.len() - rows.taken(),
        {
            match rows.next_address(self) {
                None => {
                    break;
                },
                Some(address) => {
                    if list.len() >= limit {
                        proof {
                            assert(all.len() > limit);
                            assert(is_listing(all, nodes, pick, RankBy::Address, None, false));
                        }
                        return (None, limit);
                    }
                    list.push(address);
                },
            }
        }
        proof {
            assert forall|i: int, j: int| 0 <= i < j < list@.len() implies text_lt(
                (#[trigger] list@[i])@,
                (#[trigger] list@[j])@,
            ) by {
                assert(crate::btree::walker::past(
                    rank(RankBy::Address, all[i]),
                    rank(RankBy::Address, all[j]),
                    false,
                ));
            }
            assert forall|i: int| 0 <= i < list@.len() implies nodes.contains_key((#[trigger] list@[i])@) && pick(
                nodes[list@[i]@],
            ) by {
                assert(belongs(nodes, pick, RankBy::Address, None, false, all[i]));
            }
            assert forall|n: NodeView| live(nodes, n) && #[trigger] pick(n) implies has_text(list@, n.address) by {
                assert(belongs(nodes, pick, RankBy::Address, None, false, n));
                assert(all.contains(n));
                let i = choose|i: int| 0 <= i < all.len() && all[i] == n;
                assert(list@[i]@ == n.address);
            }
        }
        let n: usize = list.len();
        (Some(list), n)
    }

    /// Those of the addresses that the text index has under a piece.
    fn probe(&self, at: usize, gram: &Vec<u8>, list: &Vec<String>, Ghost(grams): Ghost<Seq<Vec<u8>>>) -> (r: Vec<String>)
        requires
            self.inv(),
            at < self@.text.len(),
            gram@.len() == GRAM_LEN,
            covers_grams(self@, self@.text[at as int], grams, list@),
            holds_bytes(grams, gram@),
        ensures
            covers_grams(self@, self@.text[at as int], grams, r@),
            r@.len() <= list@.len(),
            forall|g: Seq<u8>| shares_gram(self@, self@.text[at as int], g, list@) ==> #[trigger] shares_gram(
                self@,
                self@.text[at as int],
                g,
                r@,
            ),
    {
        let ghost db = self@;
        let ghost d = db.text[at as int];
        let ghost ix = NodeIndex::Text(d);
        let index = &self.text[at];
        proof {
            assert(text_defs(self.text@)[at as int] == index.def@);
        }
        let mut kept: Vec<String> = Vec::new();
        let mut i: usize = 0;
        while i < list.len()
            invariant
                self.inv(),
                db == self@,
                d == db.text[at as int],
                at < db.text.len(),
                ix == NodeIndex::Text(d),
                index == &self.text@[at as int],
                index.def@ == d,
                gram@.len() == GRAM_LEN,
                holds_bytes(grams, gram@),
                covers_grams(db, d, grams, list@),
                i <= list@.len(),
                kept@.len() <= i,
                forall|x: int, y: int| 0 <= x < y < kept@.len() ==> text_lt(
                    (#[trigger] kept@[x])@,
                    (#[trigger] kept@[y])@,
                ),
                forall|x: int| 0 <= x < kept@.len() ==> kept_from(list@, i as int, (#[trigger] kept@[x])@),
                forall|k: int|
                    0 <= k < i && db.nodes.contains_key((#[trigger] list@[k])@) && has_grams(
                        d,
                        grams,
                        db.nodes[list@[k]@],
                    ) ==> has_text(kept@, list@[k]@),
            decreases list.len() - i,
        {
            let key = text_key(gram, &list[i]);
            let ghost a = list@[i as int]@;
            let ghost before = kept@;
            let there: bool = index.tree.get(&key).is_some();
            proof {
                lemma_nodes_at(self.primary@, db.nodes, self.store@, a);
                if db.nodes.contains_key(a) && has_grams(d, grams, db.nodes[a]) {
                    let w = choose|w: int| 0 <= w < grams.len() && (#[trigger] grams[w])@ == gram@;
                    assert(key@.take(GRAM_LEN as int) =~= gram@);
                    assert(entry(ix, db.nodes[a], key@));
                    assert(listed(ix, db.nodes, a, key@));
                    lemma_index_has(ix, index.tree@, db.nodes, key@);
                    assert(there);
                }
            }
            if there {
                kept.push(list[i].clone());
            }
            proof {
                assert forall|x: int, y: int| 0 <= x < y < kept@.len() implies text_lt(
                    (#[trigger] kept@[x])@,
                    (#[trigger] kept@[y])@,
                ) by {
                    if y < before.len() {
                        assert(kept@[x] == before[x] && kept@[y] == before[y]);
                    } else {
                        assert(kept_from(list@, i as int, before[x]@));
                        let k = choose|k: int| 0 <= k < i && (#[trigger] list@[k])@ == before[x]@;
                        assert(text_lt(list@[k]@, list@[i as int]@));
                    }
                }
                assert forall|x: int| 0 <= x < kept@.len() implies kept_from(list@, i + 1, (#[trigger] kept@[x])@) by {
                    if x < before.len() {
                        assert(kept_from(list@, i as int, before[x]@));
                        let k = choose|k: int| 0 <= k < i && (#[trigger] list@[k])@ == before[x]@;
                        assert(list@[k]@ == kept@[x]@);
                    } else {
                        assert(list@[i as int]@ == kept@[x]@);
                    }
                }
                assert forall|k: int|
                    0 <= k < i + 1 && db.nodes.contains_key((#[trigger] list@[k])@) && has_grams(
                        d,
                        grams,
                        db.nodes[list@[k]@],
                    ) implies has_text(kept@, list@[k]@) by {
                    if k < i {
                        assert(has_text(before, list@[k]@));
                        let w = choose|w: int| 0 <= w < before.len() && (#[trigger] before[w])@ == list@[k]@;
                        assert(kept@[w]@ == list@[k]@);
                    } else {
                        assert(kept@[before.len() as int]@ == list@[k]@);
                    }
                }
            }
            i = i + 1;
        }
        proof {
            assert forall|x: int| 0 <= x < kept@.len() implies db.nodes.contains_key((#[trigger] kept@[x])@) by {
                assert(kept_from(list@, list@.len() as int, kept@[x]@));
                let k = choose|k: int| 0 <= k < list@.len() && (#[trigger] list@[k])@ == kept@[x]@;
                assert(db.nodes.contains_key(list@[k]@));
            }
            assert forall|n: NodeView| live(db.nodes, n) && #[trigger] has_grams(d, grams, n) implies has_text(
                kept@,
                n.address,
            ) by {
                assert(has_text(list@, n.address));
                let k = choose|k: int| 0 <= k < list@.len() && (#[trigger] list@[k])@ == n.address;
                assert(db.nodes.contains_key(list@[k]@));
            }
        }
        proof {
            assert forall|g: Seq<u8>| shares_gram(db, d, g, list@) implies #[trigger] shares_gram(db, d, g, kept@) by {
                assert forall|x: int| 0 <= x < kept@.len() implies with_gram(d.kind, d.field, g)(
                    db.nodes[(#[trigger] kept@[x])@],
                ) by {
                    assert(kept_from(list@, list@.len() as int, kept@[x]@));
                    let k = choose|k: int| 0 <= k < list@.len() && (#[trigger] list@[k])@ == kept@[x]@;
                    assert(with_gram(d.kind, d.field, g)(db.nodes[list@[k]@]));
                }
            }
        }
        kept
    }

    /// Addresses of nodes that may contain all of the pieces; none if every
    /// start is too broad. No more than `cap` entries are read for the start,
    /// nor for holding the nodes against further pieces.
    pub(crate) fn text_candidates(&self, at: usize, grams: &Vec<Vec<u8>>, cap: usize) -> (r: Option<Vec<String>>)
        requires
            self.inv(),
            at < self@.text.len(),
            forall|i: int| 0 <= i < grams@.len() ==> (#[trigger] grams@[i])@.len() == GRAM_LEN,
        ensures
            r matches Some(list) ==> {
                &&& covers_grams(self@, self@.text[at as int], grams@, list@)
                &&& list@.len() <= cap
                &&& exists|s: int|
                    0 <= s < grams@.len() && s < MAX_TEXT_SEED_GRAMS && shares_gram(
                        self@,
                        self@.text[at as int],
                        (#[trigger] grams@[s])@,
                        list@,
                    )
            },
            r is None ==> grams@.len() == 0 || cap == 0 || broad(
                self@,
                self@.text[at as int],
                grams@[0]@,
                cap as nat,
            ),
    {
        let ghost db = self@;
        let ghost d = db.text[at as int];
        let mut best: Option<Vec<String>> = None;
        let mut best_len: usize = cap;
        let mut budget: usize = cap;
        let ghost mut start: int = 0;
        let mut i: usize = 0;
        while i < grams.len() && i < MAX_TEXT_SEED_GRAMS
            invariant_except_break
                i == 0 ==> best is None && best_len == cap && budget == cap,
            invariant
                self.inv(),
                db == self@,
                at < db.text.len(),
                d == db.text[at as int],
                forall|k: int| 0 <= k < grams@.len() ==> (#[trigger] grams@[k])@.len() == GRAM_LEN,
                i <= grams@.len(),
                best_len <= cap,
                budget <= cap,
                i > 0 && best is None ==> broad(db, d, grams@[0]@, cap as nat),
                best is None ==> best_len == cap,
                best matches Some(list) ==> {
                    &&& covers_grams(db, d, grams@, list@)
                    &&& list@.len() <= cap
                    &&& 0 <= start < grams@.len()
                    &&& start < MAX_TEXT_SEED_GRAMS
                    &&& shares_gram(db, d, grams@[start]@, list@)
                },
            ensures
                best is None ==> grams@.len() == 0 || cap == 0 || broad(db, d, grams@[0]@, cap as nat),
            decreases grams.len() - i,
        {
            let limit: usize = if best_len < budget {
                best_len
            } else {
                budget
            };
            if limit == 0 {
                break;
            }
            let (found, read) = self.seed(at, &grams[i], limit);
            budget = budget - read;
            match found {
                Some(list) => {
                    proof {
                        assert forall|n: NodeView| live(db.nodes, n) && #[trigger] has_grams(d, grams@, n) implies has_text(
                            list@,
                            n.address,
                        ) by {
                            assert(has_gram(utf8(indexed_text_of(n.data, d.field)->0), grams@[i as int]@));
                            assert(with_gram(d.kind, d.field, grams@[i as int]@)(n));
                        }
                        start = i as int;
                    }
                    best_len = list.len();
                    best = Some(list);
                    if best_len <= MAX_TEXT_SEED_ENOUGH {
                        break;
                    }
                },
                None => {},
            }
            i = i + 1;
        }
        let mut candidates: Vec<String> = match best {
            Some(list) => list,
            None => { return None },
        };
        let mut budget: usize = cap;
        let mut j: usize = 0;
        while j < grams.len() && j < MAX_TEXT_PROBE_GRAMS
            invariant
                self.inv(),
                db == self@,
                at < db.text.len(),
                d == db.text[at as int],
                forall|k: int| 0 <= k < grams@.len() ==> (#[trigger] grams@[k])@.len() == GRAM_LEN,
                j <= grams@.len(),
                covers_grams(db, d, grams@, candidates@),
                candidates@.len() <= cap,
                0 <= start < grams@.len(),
                start < MAX_TEXT_SEED_GRAMS,
                shares_gram(db, d, grams@[start]@, candidates@),
            decreases grams.len() - j,
        {
            if candidates.len() <= MAX_TEXT_PROBE_FLOOR || budget < candidates.len() {
                break;
            }
            budget = budget - candidates.len();
            proof {
                assert(holds_bytes(grams@, grams@[j as int]@));
            }
            candidates = self.probe(at, &grams[j], &candidates, Ghost(grams@));
            j = j + 1;
        }
        Some(candidates)
    }

    /// Addresses of nodes that a condition may hold of, found through the
    /// first text index of the kind that the condition gives something to
    /// look for in.
    pub(crate) fn text_candidate_plan(&self, kind: Option<&str>, filter: Option<&Filter>, cap: usize) -> (r: Option<
        Vec<String>,
    >)
        requires
            self.inv(),
        ensures
            r matches Some(list) ==> {
                &&& kind is Some
                &&& filter is Some
                &&& text_narrowed(self@, kind->0@, *filter->0, list@)
                &&& texts_sorted(list@)
                &&& list@.len() <= cap
                &&& forall|i: int| 0 <= i < list@.len() ==> self@.nodes.contains_key((#[trigger] list@[i])@)
                &&& forall|n: NodeView|
                    live(self@.nodes, n) && n.kind == kind->0@ && #[trigger] pins_hold(*filter->0, n) ==> has_text(
                        list@,
                        n.address,
                    )
            },
            r is None ==> !text_helps(self@, crate::text::str_view(kind), filter_view(filter), cap as nat),
    {
        let (k, f) = match (kind, filter) {
            (Some(k), Some(f)) => (k, f),
            _ => { return None },
        };
        let mut x: usize = 0;
        while x < self.text.len()
            invariant
                self.inv(),
                x <= self.text@.len(),
                kind == Some(k),
                filter == Some(f),
                forall|y: int|
                    0 <= y < x && (#[trigger] self@.text[y]).kind == k@ ==> unhelpful(
                        self@,
                        self@.text[y],
                        *f,
                        cap as nat,
                    ),
            decreases self.text.len() - x,
        {
            let def = &self.text[x].def;
            proof {
                assert(text_defs(self.text@)[x as int] == def@);
            }
            if str_eq(&def.kind, k) {
                let mut grams: Vec<Vec<u8>> = Vec::new();
                let mut i: usize = 0;
                while i < f.contains.len()
                    invariant
                        i <= f.contains@.len(),
                        strictly_sorted(grams@),
                        forall|w: int| 0 <= w < grams@.len() ==> (#[trigger] grams@[w])@.len() == GRAM_LEN,
                        forall|g: Seq<u8>| #[trigger] holds_bytes(grams@, g) ==> from_literals(*f, def@.field, g),
                        forall|w: int, g: Seq<u8>|
                            0 <= w < i && (#[trigger] f.contains@[w]).0@ == def@.field && #[trigger] has_gram(
                                utf8(f.contains@[w].1@),
                                g,
                            ) ==> holds_bytes(grams@, g),
                    decreases f.contains.len() - i,
                {
                    if str_eq(&f.contains[i].0, &def.field) {
                        let ghost before = grams@;
                        add_grams(&mut grams, &f.contains[i].1);
                        proof {
                            assert forall|g: Seq<u8>| #[trigger] holds_bytes(grams@, g) implies from_literals(
                                *f,
                                def@.field,
                                g,
                            ) by {
                                if !holds_bytes(before, g) {
                                    assert(f.contains@[i as int].0@ == def@.field);
                                    assert(has_gram(utf8(f.contains@[i as int].1@), g));
                                }
                            }
                        }
                    }
                    i = i + 1;
                }
                proof {
                    assert forall|g: Seq<u8>| #[trigger] from_literals(*f, def@.field, g) implies holds_bytes(grams@, g) by {
                        let w = choose|w: int|
                            0 <= w < f.contains@.len() && (#[trigger] f.contains@[w]).0@ == def@.field && has_gram(
                                utf8(f.contains@[w].1@),
                                g,
                            );
                        assert(has_gram(utf8(f.contains@[w].1@), g));
                    }
                    if grams@.len() > 0 {
                        assert(holds_bytes(grams@, grams@[0]@));
                        assert(from_literals(*f, def@.field, grams@[0]@));
                    }
                }
                if grams.len() > 0 {
                    match self.text_candidates(x, &grams, cap) {
                        Some(list) => {
                            proof {
                                let d = def@;
                                assert forall|n: NodeView|
                                    live(self@.nodes, n) && n.kind == k@ && #[trigger] pins_hold(*f, n) implies has_text(
                                    list@,
                                    n.address,
                                ) by {
                                    lemma_pins_give_grams(*f, d, grams@, n);
                                }
                                let s = choose|s: int|
                                    0 <= s < grams@.len() && s < MAX_TEXT_SEED_GRAMS && shares_gram(
                                        self@,
                                        d,
                                        (#[trigger] grams@[s])@,
                                        list@,
                                    );
                                assert(holds_bytes(grams@, grams@[s]@));
                                assert(shares_gram(self@, self@.text[x as int], grams@[s]@, list@));
                            }
                            return Some(list);
                        },
                        None => {},
                    }
                }
            }
            x = x + 1;
        }
        proof {
            assert(text_defs(self.text@).len() == self.text@.len());
        }
        None
    }
}

spec fn kept_from(list: Seq<String>, i: int, a: Seq<char>) -> bool {
    exists|k: int| 0 <= k < i && (#[trigger] list[k])@ == a
}

proof fn lemma_pins_give_grams(f: Filter, d: TextIndexDefView, grams: Seq<Vec<u8>>, n: NodeView)
    requires
        pins_hold(f, n),
        n.kind == d.kind,
        grams.len() > 0,
        forall|g: Seq<u8>| #[trigger] holds_bytes(grams, g) ==> from_literals(f, d.field, g),
    ensures
        has_grams(d, grams, n),
{
    assert forall|i: int| 0 <= i < grams.len() implies indexed_text_of(n.data, d.field) is Some && has_gram(
        utf8(indexed_text_of(n.data, d.field)->0),
        (#[trigger] grams[i])@,
    ) by {
        let g = grams[i]@;
        assert(holds_bytes(grams, g));
        let w = choose|w: int|
            0 <= w < f.contains@.len() && (#[trigger] f.contains@[w]).0@ == d.field && has_gram(
                utf8(f.contains@[w].1@),
                g,
            );
        let literal = f.contains@[w].1@;
        assert(contains_text(n, d.field, literal));
        let s = indexed_text_of(n.data, d.field)->0;
        let at = choose|at: int|
            0 <= at && at + utf8(literal).len() <= utf8(s).len() && #[trigger] utf8(s).subrange(
                at,
                at + utf8(literal).len(),
            ) == utf8(literal);
        law_substring_has_its_grams(utf8(s), utf8(literal), at, g);
    }
    assert(indexed_text_of(n.data, d.field) is Some) by {
        let g = grams[0]@;
        assert(has_gram(utf8(indexed_text_of(n.data, d.field)->0), g));
    }
}

} // verus!
