//! Rows of nodes in order.
//!
//! A listing is a choice of nodes in the order of their addresses, or of a
//! field's value and then the address. Every source of rows, be it an index
//! or a list of addresses, gives the rows of a listing one by one.

use vstd::prelude::*;

use crate::btree::walk::{cursor_view, walk_keys};
use crate::btree::walker::{lemma_walk_facts, past, Walk, Walks};
use crate::bytes::{bytes_lt, copy_range, has_prefix, lemma_lt_common_prefix, lemma_lt_total, put_bytes};
use crate::cache::RecordCache;
use crate::json::{field_of, Json, JsonView};
use crate::keys::{
    address_from_data_key, address_from_key, data_key, down_key, has_gram, indexed_text_of, kind_prefix,
    lemma_part_prefix, owner_prefix, part_prefix, value_key, GRAM_LEN,
};
use crate::order::{find_code_end, lemma_code_end, order_code, ref_view, TAG_NOTHING};
use crate::tables::model::{
    addressed, entry, lemma_entry_address, lemma_index_has, lemma_nodes_at, lemma_nodes_key, listed, Entries, NodeIndex,
    Nodes,
};
use crate::tables::read::has_node;
use crate::tables::{agrees, Tables};
use crate::text::{lemma_utf8_injective, text_of_bytes, utf8};
use crate::types::{Node, NodeView, RecordLocation};

verus! {

/// What the rows of a listing are ordered by.
pub enum RankBy {
    Address,
    /// The value of a member of the data, then the address; nodes without
    /// the member come after all others.
    Field(Seq<char>),
    /// The same, but that nodes without the member come before all others:
    /// last, from the far end.
    Last(Seq<char>),
}

/// Where a node stands in an order.
pub open spec fn rank(by: RankBy, n: NodeView) -> Seq<u8> {
    match by {
        RankBy::Address => utf8(n.address),
        RankBy::Field(f) => value_key(field_of(n.data, f), n.address),
        RankBy::Last(f) => down_key(field_of(n.data, f), n.address),
    }
}

/// The node is one of `nodes`.
pub open spec fn live(nodes: Nodes, n: NodeView) -> bool {
    nodes.contains_key(n.address) && nodes[n.address] == n
}

/// The node is picked and past where the rows start.
pub open spec fn belongs(
    nodes: Nodes,
    pick: spec_fn(NodeView) -> bool,
    by: RankBy,
    after: Option<Seq<u8>>,
    desc: bool,
    n: NodeView,
) -> bool {
    &&& live(nodes, n)
    &&& pick(n)
    &&& after matches Some(s) ==> past(s, rank(by, n), desc)
}

/// Rows of the listing, in its order; perhaps not all.
pub open spec fn in_listing(
    rows: Seq<NodeView>,
    nodes: Nodes,
    pick: spec_fn(NodeView) -> bool,
    by: RankBy,
    after: Option<Seq<u8>>,
    desc: bool,
) -> bool {
    &&& forall|i: int, j: int|
        0 <= i < j < rows.len() ==> past(rank(by, #[trigger] rows[i]), rank(by, #[trigger] rows[j]), desc)
    &&& forall|i: int| 0 <= i < rows.len() ==> belongs(nodes, pick, by, after, desc, #[trigger] rows[i])
}

/// The rows are the listing: the nodes picked that are past `after`, in
/// order.
pub open spec fn is_listing(
    rows: Seq<NodeView>,
    nodes: Nodes,
    pick: spec_fn(NodeView) -> bool,
    by: RankBy,
    after: Option<Seq<u8>>,
    desc: bool,
) -> bool {
    &&& in_listing(rows, nodes, pick, by, after, desc)
    &&& forall|n: NodeView| #[trigger] belongs(nodes, pick, by, after, desc, n) ==> rows.contains(n)
}

proof fn lemma_past_apart(a: Seq<u8>, b: Seq<u8>, desc: bool)
    ensures
        past(a, b, desc) ==> a != b && !past(b, a, desc),
{
    lemma_lt_total(a, b);
}

/// There is one listing.
pub proof fn law_listing_is_unique(
    a: Seq<NodeView>,
    b: Seq<NodeView>,
    nodes: Nodes,
    pick: spec_fn(NodeView) -> bool,
    by: RankBy,
    after: Option<Seq<u8>>,
    desc: bool,
)
    requires
        is_listing(a, nodes, pick, by, after, desc),
        is_listing(b, nodes, pick, by, after, desc),
    ensures
        a == b,
{
    lemma_listing_agree(a, b, nodes, pick, by, after, desc, a.len() as int);
    lemma_listing_agree(b, a, nodes, pick, by, after, desc, b.len() as int);
    assert(a =~= b);
}

proof fn lemma_listing_agree(
    a: Seq<NodeView>,
    b: Seq<NodeView>,
    nodes: Nodes,
    pick: spec_fn(NodeView) -> bool,
    by: RankBy,
    after: Option<Seq<u8>>,
    desc: bool,
    n: int,
)
    requires
        is_listing(a, nodes, pick, by, after, desc),
        is_listing(b, nodes, pick, by, after, desc),
        0 <= n <= a.len(),
    ensures
        n <= b.len(),
        forall|i: int| 0 <= i < n ==> a[i] == b[i],
    decreases n,
{
    if n > 0 {
        lemma_listing_agree(a, b, nodes, pick, by, after, desc, n - 1);
        let x = a[n - 1];
        assert(belongs(nodes, pick, by, after, desc, x));
        let j = choose|j: int| 0 <= j < b.len() && b[j] == x;
        assert(b.contains(x));
        if j < n - 1 {
            assert(a[j] == b[j]);
            assert(past(rank(by, a[j]), rank(by, a[n - 1]), desc));
            lemma_past_apart(rank(by, x), rank(by, x), desc);
        }
        if j > n - 1 {
            let y = b[n - 1];
            assert(belongs(nodes, pick, by, after, desc, y));
            assert(a.contains(y));
            let i = choose|i: int| 0 <= i < a.len() && a[i] == y;
            assert(past(rank(by, b[n - 1]), rank(by, b[j]), desc));
            if i < n - 1 {
                assert(b[i] == y);
                assert(past(rank(by, b[i]), rank(by, b[n - 1]), desc));
                lemma_past_apart(rank(by, y), rank(by, y), desc);
            } else if i > n - 1 {
                assert(past(rank(by, a[n - 1]), rank(by, a[i]), desc));
                lemma_past_apart(rank(by, x), rank(by, y), desc);
            } else {
                lemma_past_apart(rank(by, x), rank(by, y), desc);
            }
        }
    }
}

// ---------------------------------------------------------------------
// Sources
// ---------------------------------------------------------------------

enum Source<'a> {
    /// Keys are addresses, values locations.
    Primary(Walk<'a>),
    /// Keys are a prefix and an address.
    Part(Walk<'a>, Vec<u8>),
    /// Keys are an encoded value and an address.
    Data(Walks<'a>),
    /// Addresses from `from` up to `to` are still to come, from the one end
    /// or the other.
    List { addresses: Vec<String>, from: usize, to: usize, reverse: bool },
}

/// A source of rows.
pub struct Rows<'a> {
    source: Source<'a>,
    rows: Ghost<Seq<NodeView>>,
    taken: Ghost<nat>,
    field: Ghost<Seq<char>>,
}

spec fn part_keys(keys: Seq<Seq<u8>>, prefix: Seq<u8>, rows: Seq<NodeView>) -> bool {
    &&& keys.len() == rows.len()
    &&& forall|i: int| 0 <= i < keys.len() ==> #[trigger] keys[i] == prefix + utf8(rows[i].address)
}

spec fn value_keys(keys: Seq<Seq<u8>>, name: Seq<char>, rows: Seq<NodeView>) -> bool {
    &&& keys.len() == rows.len()
    &&& forall|i: int|
        0 <= i < keys.len() ==> #[trigger] keys[i] == value_key(field_of(rows[i].data, name), rows[i].address)
}

/// Position among the rows of the address at `j`, of those from `from` up to
/// `to` after `taken` rows.
spec fn list_row(from: int, to: int, reverse: bool, taken: int, j: int) -> int {
    if reverse {
        taken + (to - 1 - j)
    } else {
        taken + (j - from)
    }
}

impl<'a> Rows<'a> {
    /// All rows of the source.
    pub closed spec fn all(&self) -> Seq<NodeView> {
        self.rows@
    }

    /// How many of them were handed out.
    pub closed spec fn taken(&self) -> nat {
        self.taken@
    }

    /// The source gives the rows that it should.
    pub closed spec fn wf(&self, tables: &Tables) -> bool {
        &&& self.taken() <= self.all().len()
        &&& forall|i: int| 0 <= i < self.all().len() ==> live(tables@.nodes, #[trigger] self.all()[i])
        &&& match self.source {
            Source::Primary(walk) => {
                &&& walk.wf()
                &&& walk.entries() == tables.primary@
                &&& walk.behind() == self.taken()
                &&& part_keys(walk.keys(), Seq::empty(), self.all())
            },
            Source::Part(walk, prefix) => {
                &&& walk.wf()
                &&& walk.behind() == self.taken()
                &&& part_keys(walk.keys(), prefix@, self.all())
            },
            Source::Data(walk) => {
                &&& walk.wf()
                &&& walk.behind() == self.taken()
                &&& value_keys(walk.keys(), self.field@, self.all())
            },
            Source::List { addresses, from, to, reverse } => {
                &&& from <= to <= addresses@.len()
                &&& self.taken() + (to - from) == self.all().len()
                &&& forall|j: int|
                    from <= j < to ==> (#[trigger] addresses@[j])@ == self.all()[list_row(
                        from as int,
                        to as int,
                        reverse,
                        self.taken() as int,
                        j,
                    )].address
            },
        }
    }

    /// The next row.
    pub(crate) fn next(&mut self, tables: &Tables, cache: &mut RecordCache) -> (r: Option<Node>)
        requires
            tables.inv(),
            old(self).wf(tables),
            old(cache).wf(),
            agrees(old(cache)@, tables.heap()),
        ensures
            final(self).wf(tables),
            final(cache).wf(),
            agrees(final(cache)@, tables.heap()),
            final(self).all() == old(self).all(),
            match r {
                Some(n) => {
                    &&& old(self).taken() < old(self).all().len()
                    &&& final(self).taken() == old(self).taken() + 1
                    &&& n@ == old(self).all()[old(self).taken() as int]
                },
                None => {
                    &&& old(self).taken() == old(self).all().len()
                    &&& final(self).taken() == old(self).taken()
                },
            },
    {
        let ghost at = self.taken@ as int;
        let ghost row = self.rows@[at];
        proof {
            if at < self.rows@.len() {
                assert(live(tables@.nodes, self.rows@[at]));
            }
        }
        match &mut self.source {
            Source::Primary(walk) => match walk.next() {
                Some((key, value)) => {
                    proof {
                        assert(key@ == Seq::<u8>::empty() + utf8(row.address));
                        assert(key@ =~= utf8(row.address));
                        lemma_nodes_at(tables.primary@, tables@.nodes, tables.store@, row.address);
                        self.taken = Ghost((at + 1) as nat);
                    }
                    match RecordLocation::decode(&value) {
                        Some(location) => {
                            let r = tables.node_at(location, cache);
                            proof {
                                assert(has_node(tables.store@, location, row));
                            }
                            r
                        },
                        None => None,
                    }
                },
                None => None,
            },
            Source::Part(walk, prefix) => match walk.next() {
                Some((key, _)) => {
                    let address = address_from_key(&key, prefix);
                    proof {
                        assert(key@ == prefix@ + utf8(row.address));
                        self.taken = Ghost((at + 1) as nat);
                    }
                    tables.read_node(&address, cache)
                },
                None => None,
            },
            Source::Data(walk) => match walk.next() {
                Some(key) => {
                    proof {
                        assert(key@ == value_key(field_of(row.data, self.field@), row.address));
                        self.taken = Ghost((at + 1) as nat);
                    }
                    match address_from_data_key(&key) {
                        Some(raw) => {
                            let address = text_of_bytes(&raw);
                            tables.read_node(&address, cache)
                        },
                        None => None,
                    }
                },
                None => None,
            },
            Source::List { addresses, from, to, reverse } => {
                if *from >= *to {
                    return None;
                }
                let j: usize = if *reverse {
                    *to - 1
                } else {
                    *from
                };
                let r = tables.read_node(&addresses[j], cache);
                proof {
                    assert(list_row(*from as int, *to as int, *reverse, at, j as int) == at);
                }
                if *reverse {
                    *to = *to - 1;
                } else {
                    *from = *from + 1;
                }
                proof {
                    self.taken = Ghost((at + 1) as nat);
                }
                r
            },
        }
    }
}

impl<'a> Rows<'a> {
    /// The address of the next row, without reading the row.
    pub(crate) fn next_address(&mut self, tables: &Tables) -> (r: Option<String>)
        requires
            old(self).wf(tables),
        ensures
            final(self).wf(tables),
            final(self).all() == old(self).all(),
            match r {
                Some(a) => {
                    &&& old(self).taken() < old(self).all().len()
                    &&& final(self).taken() == old(self).taken() + 1
                    &&& a@ == old(self).all()[old(self).taken() as int].address
                },
                None => {
                    &&& old(self).taken() == old(self).all().len()
                    &&& final(self).taken() == old(self).taken()
                },
            },
    {
        let ghost at = self.taken@ as int;
        let ghost row = self.rows@[at];
        match &mut self.source {
            Source::Primary(walk) => match walk.next() {
                Some((key, _)) => {
                    proof {
                        assert(key@ == Seq::<u8>::empty() + utf8(row.address));
                        assert(key@ =~= utf8(row.address));
                        self.taken = Ghost((at + 1) as nat);
                    }
                    Some(text_of_bytes(&key))
                },
                None => None,
            },
            Source::Part(walk, prefix) => match walk.next() {
                Some((key, _)) => {
                    proof {
                        assert(key@ == prefix@ + utf8(row.address));
                        self.taken = Ghost((at + 1) as nat);
                    }
                    Some(address_from_key(&key, prefix))
                },
                None => None,
            },
            Source::Data(walk) => match walk.next() {
                Some(key) => {
                    proof {
                        assert(key@ == value_key(field_of(row.data, self.field@), row.address));
                        self.taken = Ghost((at + 1) as nat);
                    }
                    match address_from_data_key(&key) {
                        Some(raw) => Some(text_of_bytes(&raw)),
                        None => None,
                    }
                },
                None => None,
            },
            Source::List { addresses, from, to, reverse } => {
                if *from >= *to {
                    return None;
                }
                let j: usize = if *reverse {
                    *to - 1
                } else {
                    *from
                };
                let r = addresses[j].clone();
                proof {
                    assert(list_row(*from as int, *to as int, *reverse, at, j as int) == at);
                }
                if *reverse {
                    *to = *to - 1;
                } else {
                    *from = *from + 1;
                }
                proof {
                    self.taken = Ghost((at + 1) as nat);
                }
                Some(r)
            },
        }
    }
}

impl<'a> Rows<'a> {
    /// The field whose index the rows are from, if they are from one.
    pub closed spec fn indexed_by(&self) -> Option<Seq<char>> {
        match self.source {
            Source::Data(_) => Some(self.field@),
            _ => None,
        }
    }

    /// What the index says of the next row: the code of its value, and its
    /// address.
    pub(crate) fn next_coded(&mut self, tables: &Tables) -> (r: Option<(Vec<u8>, String)>)
        requires
            old(self).wf(tables),
            old(self).indexed_by() is Some,
        ensures
            final(self).wf(tables),
            final(self).all() == old(self).all(),
            final(self).indexed_by() == old(self).indexed_by(),
            match r {
                Some((code, a)) => {
                    let row = old(self).all()[old(self).taken() as int];
                    &&& old(self).taken() < old(self).all().len()
                    &&& final(self).taken() == old(self).taken() + 1
                    &&& code@ == order_code(field_of(row.data, old(self).indexed_by()->0))
                    &&& a@ == row.address
                },
                None => {
                    &&& old(self).taken() == old(self).all().len()
                    &&& final(self).taken() == old(self).taken()
                },
            },
    {
        let ghost at = self.taken@ as int;
        let ghost row = self.rows@[at];
        match &mut self.source {
            Source::Data(walk) => match walk.next() {
                Some(key) => {
                    let ghost v = field_of(row.data, self.field@);
                    proof {
                        assert(key@ == value_key(v, row.address));
                        self.taken = Ghost((at + 1) as nat);
                        lemma_code_end(v, utf8(row.address));
                    }
                    match find_code_end(&key) {
                        Some(end) => {
                            let code = copy_range(&key, 0, end);
                            let raw = copy_range(&key, end, key.len());
                            proof {
                                assert(code@ =~= order_code(v));
                                assert(raw@ =~= utf8(row.address));
                            }
                            Some((code, text_of_bytes(&raw)))
                        },
                        None => None,
                    }
                },
                None => None,
            },
            _ => None,
        }
    }
}

// ---------------------------------------------------------------------
// Where rows come from
// ---------------------------------------------------------------------

/// The nodes that a scan over one index meets: those of a kind, or of an
/// owner, or all.
pub open spec fn scanned(kind: Option<Seq<char>>, owner: Option<Seq<char>>) -> spec_fn(NodeView) -> bool {
    |n: NodeView|
        match (kind, owner) {
            (Some(k), _) => n.kind == k,
            (None, Some(o)) => n.owner == o,
            (None, None) => true,
        }
}

/// The node behind a key of an index.
spec fn behind_key(ix: NodeIndex, nodes: Nodes, k: Seq<u8>) -> NodeView {
    nodes[choose|a: Seq<char>| #[trigger] listed(ix, nodes, a, k)]
}

proof fn lemma_behind_key(ix: NodeIndex, tree: Entries, nodes: Nodes, k: Seq<u8>)
    requires
        crate::tables::model::index_ok(ix, tree, nodes),
        addressed(nodes),
        tree.contains_key(k),
    ensures
        live(nodes, behind_key(ix, nodes, k)),
        entry(ix, behind_key(ix, nodes, k), k),
{
    lemma_index_has(ix, tree, nodes, k);
    let a = choose|a: Seq<char>| #[trigger] listed(ix, nodes, a, k);
    assert(nodes.contains_key(a));
}

proof fn lemma_node_key(ix: NodeIndex, tree: Entries, nodes: Nodes, n: NodeView, k: Seq<u8>)
    requires
        crate::tables::model::index_ok(ix, tree, nodes),
        addressed(nodes),
        live(nodes, n),
        entry(ix, n, k),
    ensures
        tree.contains_key(k),
        behind_key(ix, nodes, k) == n,
{
    assert(listed(ix, nodes, n.address, k));
    lemma_index_has(ix, tree, nodes, k);
    lemma_behind_key(ix, tree, nodes, k);
    let m = behind_key(ix, nodes, k);
    assert(nodes.contains_key(m.address) && nodes.contains_key(n.address));
    lemma_entry_address(ix, m, n, k);
}

/// The part of a node that an index is over.
spec fn part_of(ix: NodeIndex, n: NodeView) -> Seq<char> {
    match ix {
        NodeIndex::Owner => n.owner,
        _ => n.kind,
    }
}

proof fn lemma_part_rows(
    ix: NodeIndex,
    tree: Entries,
    nodes: Nodes,
    part: Seq<char>,
    after: Option<Seq<char>>,
    reverse: bool,
    pick: spec_fn(NodeView) -> bool,
)
    requires
        ix == NodeIndex::Kind || ix == NodeIndex::Owner,
        crate::tables::model::index_ok(ix, tree, nodes),
        addressed(nodes),
        tree.dom().finite(),
        forall|n: NodeView| #[trigger] pick(n) <==> part_of(ix, n) == part,
    ensures
        ({
            let prefix = part_prefix(part);
            let start = match after {
                Some(a) => Some(prefix + utf8(a)),
                None => None,
            };
            let limit = match after {
                Some(a) => Some(utf8(a)),
                None => None,
            };
            let keys = walk_keys(tree, prefix, start, reverse);
            let rows = Seq::new(keys.len(), |i: int| behind_key(ix, nodes, keys[i]));
            &&& part_keys(keys, prefix, rows)
            &&& is_listing(rows, nodes, pick, RankBy::Address, limit, reverse)
        }),
{
    let prefix = part_prefix(part);
    let start = match after {
        Some(a) => Some(prefix + utf8(a)),
        None => None,
    };
    let limit = match after {
        Some(a) => Some(utf8(a)),
        None => None,
    };
    let keys = walk_keys(tree, prefix, start, reverse);
    let rows = Seq::new(keys.len(), |i: int| behind_key(ix, nodes, keys[i]));
    lemma_walk_facts(tree, prefix, start, reverse);
    if after is Some {
        assert((prefix + utf8(after->0)).take(prefix.len() as int) =~= prefix);
    }
    assert forall|i: int| 0 <= i < keys.len() implies #[trigger] keys[i] == prefix + utf8(rows[i].address) && live(
        nodes,
        rows[i],
    ) && part_of(ix, rows[i]) == part by {
        lemma_behind_key(ix, tree, nodes, keys[i]);
        let n = rows[i];
        assert(nodes.contains_key(n.address));
        lemma_part_prefix(part_of(ix, n), n.address, part);
    }
    assert forall|i: int, j: int| 0 <= i < j < rows.len() implies past(
        rank(RankBy::Address, #[trigger] rows[i]),
        rank(RankBy::Address, #[trigger] rows[j]),
        reverse,
    ) by {
        assert(past(keys[i], keys[j], reverse));
        lemma_lt_common_prefix(prefix, utf8(rows[i].address), utf8(rows[j].address));
        lemma_lt_common_prefix(prefix, utf8(rows[j].address), utf8(rows[i].address));
    }
    assert forall|i: int| 0 <= i < rows.len() implies belongs(
        nodes,
        pick,
        RankBy::Address,
        limit,
        reverse,
        #[trigger] rows[i],
    ) by {
        assert(keys[i] == prefix + utf8(rows[i].address));
        if after is Some {
            lemma_lt_common_prefix(prefix, utf8(after->0), utf8(rows[i].address));
            lemma_lt_common_prefix(prefix, utf8(rows[i].address), utf8(after->0));
        }
    }
    assert forall|n: NodeView| #[trigger] belongs(nodes, pick, RankBy::Address, limit, reverse, n) implies rows.contains(
        n,
    ) by {
        let k = prefix + utf8(n.address);
        assert(entry(ix, n, k));
        lemma_node_key(ix, tree, nodes, n, k);
        assert(k.take(prefix.len() as int) =~= prefix);
        if after is Some {
            lemma_lt_common_prefix(prefix, utf8(after->0), utf8(n.address));
            lemma_lt_common_prefix(prefix, utf8(n.address), utf8(after->0));
        }
        assert(keys.contains(k));
        let i = choose|i: int| 0 <= i < keys.len() && keys[i] == k;
        assert(rows[i] == n);
    }
}

proof fn lemma_primary_rows(
    tree: Entries,
    nodes: Nodes,
    store: crate::heap::StoreView,
    after: Option<Seq<u8>>,
    reverse: bool,
    pick: spec_fn(NodeView) -> bool,
)
    requires
        crate::tables::model::nodes_ok(tree, nodes, store),
        tree.dom().finite(),
        forall|n: NodeView| #[trigger] pick(n),
    ensures
        ({
            let keys = walk_keys(tree, Seq::empty(), after, reverse);
            let rows = Seq::new(keys.len(), |i: int| nodes[address_of(nodes, keys[i])]);
            &&& part_keys(keys, Seq::empty(), rows)
            &&& is_listing(rows, nodes, pick, RankBy::Address, after, reverse)
        }),
{
    let empty = Seq::<u8>::empty();
    let keys = walk_keys(tree, empty, after, reverse);
    let rows = Seq::new(keys.len(), |i: int| nodes[address_of(nodes, keys[i])]);
    lemma_walk_facts(tree, empty, after, reverse);
    if after is Some {
        assert((after->0).take(0) =~= empty);
    }
    assert forall|i: int| 0 <= i < keys.len() implies #[trigger] keys[i] == empty + utf8(rows[i].address) && live(
        nodes,
        rows[i],
    ) && keys[i] == utf8(rows[i].address) by {
        let a = lemma_nodes_key(tree, nodes, store, keys[i]);
        assert(nodes.contains_key(a) && keys[i] == utf8(a));
        let b = address_of(nodes, keys[i]);
        lemma_nodes_at(tree, nodes, store, b);
        assert(empty + utf8(b) =~= utf8(b));
    }
    assert forall|i: int, j: int| 0 <= i < j < rows.len() implies past(
        rank(RankBy::Address, #[trigger] rows[i]),
        rank(RankBy::Address, #[trigger] rows[j]),
        reverse,
    ) by {
        assert(past(keys[i], keys[j], reverse));
    }
    assert forall|i: int| 0 <= i < rows.len() implies belongs(
        nodes,
        pick,
        RankBy::Address,
        after,
        reverse,
        #[trigger] rows[i],
    ) by {
        assert(keys[i] == utf8(rows[i].address));
    }
    assert forall|n: NodeView| #[trigger] belongs(nodes, pick, RankBy::Address, after, reverse, n) implies rows.contains(
        n,
    ) by {
        let k = utf8(n.address);
        lemma_nodes_at(tree, nodes, store, n.address);
        assert(k.take(0) =~= empty);
        assert(keys.contains(k));
        let i = choose|i: int| 0 <= i < keys.len() && keys[i] == k;
        assert(utf8(rows[i].address) == k);
        lemma_utf8_injective(rows[i].address, n.address);
    }
}

/// The address that a key of the address index is.
spec fn address_of(nodes: Nodes, k: Seq<u8>) -> Seq<char> {
    choose|a: Seq<char>| #[trigger] nodes.contains_key(a) && k == utf8(a)
}

/// The nodes of a kind whose key in a data index begins with `prefix`.
pub open spec fn under_prefix(kind: Seq<char>, name: Seq<char>, prefix: Seq<u8>) -> spec_fn(NodeView) -> bool {
    |n: NodeView| n.kind == kind && has_prefix(value_key(field_of(n.data, name), n.address), prefix)
}

proof fn lemma_data_rows(
    d: crate::defs::IndexDefView,
    tree: Entries,
    nodes: Nodes,
    prefix: Seq<u8>,
    after: Option<Seq<u8>>,
    reverse: bool,
)
    requires
        crate::tables::model::index_ok(NodeIndex::Data(d), tree, nodes),
        addressed(nodes),
        tree.dom().finite(),
    ensures
        ({
            let ix = NodeIndex::Data(d);
            let keys = walk_keys(tree, prefix, after, reverse);
            let rows = Seq::new(keys.len(), |i: int| behind_key(ix, nodes, keys[i]));
            let pick = under_prefix(d.kind, d.field, prefix);
            let by = RankBy::Field(d.field);
            &&& value_keys(keys, d.field, rows)
            &&& is_listing(rows, nodes, pick, by, after, reverse)
        }),
{
    let ix = NodeIndex::Data(d);
    let keys = walk_keys(tree, prefix, after, reverse);
    let rows = Seq::new(keys.len(), |i: int| behind_key(ix, nodes, keys[i]));
    let pick = under_prefix(d.kind, d.field, prefix);
    let by = RankBy::Field(d.field);
    lemma_walk_facts(tree, prefix, after, reverse);
    assert forall|i: int| 0 <= i < keys.len() implies #[trigger] keys[i] == value_key(
        field_of(rows[i].data, d.field),
        rows[i].address,
    ) && live(nodes, rows[i]) && rows[i].kind == d.kind by {
        lemma_behind_key(ix, tree, nodes, keys[i]);
    }
    assert forall|i: int, j: int| 0 <= i < j < rows.len() implies past(
        rank(by, #[trigger] rows[i]),
        rank(by, #[trigger] rows[j]),
        reverse,
    ) by {
        assert(past(keys[i], keys[j], reverse));
    }
    assert forall|i: int| 0 <= i < rows.len() implies belongs(nodes, pick, by, after, reverse, #[trigger] rows[i]) by {
        assert(keys[i] == rank(by, rows[i]));
    }
    assert forall|n: NodeView| #[trigger] belongs(nodes, pick, by, after, reverse, n) implies rows.contains(n) by {
        let k = rank(by, n);
        assert(entry(ix, n, k));
        lemma_node_key(ix, tree, nodes, n, k);
        assert(keys.contains(k));
        let i = choose|i: int| 0 <= i < keys.len() && keys[i] == k;
        assert(rows[i] == n);
    }
}

/// The first byte tells keys of values from others.
proof fn lemma_value_tag(v: Option<JsonView>, a: Seq<char>)
    ensures
        value_key(v, a).len() > 0,
        v is Some ==> 0 < value_key(v, a)[0] < TAG_NOTHING,
        v is None ==> value_key(v, a)[0] == TAG_NOTHING,
        has_prefix(value_key(v, a), seq![TAG_NOTHING]) <==> v is None,
{
    let code = order_code(v);
    assert(value_key(v, a)[0] == code[0]);
    let k = value_key(v, a);
    if v is None {
        assert(k.take(1) =~= seq![TAG_NOTHING]);
    } else if has_prefix(k, seq![TAG_NOTHING]) {
        assert(k.take(1)[0] == k[0]);
    }
}

proof fn lemma_not_below(k: Seq<u8>, s: Seq<u8>)
    requires
        k.len() > 0,
        k[0] == TAG_NOTHING,
        s.len() == 0 || s[0] < TAG_NOTHING || s == seq![TAG_NOTHING],
    ensures
        !bytes_lt(k, s),
{
    if s == seq![TAG_NOTHING] {
        let rest = s.skip(1);
        assert(rest.len() == 0);
        assert(!bytes_lt(k.skip(1), rest));
    }
}

/// What comes before a place in the order from the far end: up to where the
/// nodes without a value begin, and these.
pub open spec fn high_start(from: Option<(Option<JsonView>, Seq<char>)>) -> Seq<u8> {
    match from {
        None => seq![TAG_NOTHING],
        Some((v, a)) => if v is None {
            Seq::empty()
        } else {
            value_key(v, a)
        },
    }
}

pub open spec fn low_start(from: Option<(Option<JsonView>, Seq<char>)>) -> Option<Seq<u8>> {
    match from {
        Some((v, a)) => if v is None {
            Some(seq![TAG_NOTHING] + utf8(a))
        } else {
            None
        },
        None => None,
    }
}

/// Where the rows from the far end start.
pub open spec fn down_start(from: Option<(Option<JsonView>, Seq<char>)>) -> Option<Seq<u8>> {
    match from {
        Some((v, a)) => Some(down_key(v, a)),
        None => None,
    }
}

proof fn lemma_down_rows(
    d: crate::defs::IndexDefView,
    tree: Entries,
    nodes: Nodes,
    from: Option<(Option<JsonView>, Seq<char>)>,
)
    requires
        crate::tables::model::index_ok(NodeIndex::Data(d), tree, nodes),
        addressed(nodes),
        tree.dom().finite(),
    ensures
        ({
            let ix = NodeIndex::Data(d);
            let high = walk_keys(tree, Seq::empty(), Some(high_start(from)), true);
            let low = walk_keys(tree, seq![TAG_NOTHING], low_start(from), true);
            let keys = high + low;
            let rows = Seq::new(keys.len(), |i: int| behind_key(ix, nodes, keys[i]));
            let pick = under_prefix(d.kind, d.field, Seq::empty());
            &&& value_keys(keys, d.field, rows)
            &&& is_listing(rows, nodes, pick, RankBy::Last(d.field), down_start(from), true)
        }),
{
    let ix = NodeIndex::Data(d);
    let empty = Seq::<u8>::empty();
    let tag = seq![TAG_NOTHING];
    let high = walk_keys(tree, empty, Some(high_start(from)), true);
    let low = walk_keys(tree, tag, low_start(from), true);
    let keys = high + low;
    let rows = Seq::new(keys.len(), |i: int| behind_key(ix, nodes, keys[i]));
    let pick = under_prefix(d.kind, d.field, empty);
    let by = RankBy::Last(d.field);
    let after = down_start(from);
    lemma_walk_facts(tree, empty, Some(high_start(from)), true);
    lemma_walk_facts(tree, tag, low_start(from), true);
    if from is Some {
        let (v, a) = from->0;
        lemma_value_tag(v, a);
    }
    assert forall|i: int| 0 <= i < keys.len() implies {
        let n = #[trigger] rows[i];
        let v = field_of(n.data, d.field);
        &&& live(nodes, n)
        &&& n.kind == d.kind
        &&& keys[i] == value_key(v, n.address)
        &&& v is None <==> i >= high.len()
        &&& pick(n)
    } by {
        let k = keys[i];
        assert(tree.contains_key(k)) by {
            if i < high.len() {
                assert(k == high[i]);
            } else {
                assert(k == low[i - high.len()]);
            }
        }
        lemma_behind_key(ix, tree, nodes, k);
        let n = rows[i];
        let v = field_of(n.data, d.field);
        lemma_value_tag(v, n.address);
        assert(k.take(0) =~= empty);
        assert(k == value_key(v, n.address));
        assert(pick(n));
        if i < high.len() {
            assert(past(high_start(from), high[i], true));
            if v is None {
                lemma_not_below(k, high_start(from));
            }
        } else {
            assert(has_prefix(low[i - high.len()], tag));
        }
    }
    assert forall|i: int, j: int| 0 <= i < j < rows.len() implies past(
        rank(by, #[trigger] rows[i]),
        rank(by, #[trigger] rows[j]),
        true,
    ) by {
        let (n, m) = (rows[i], rows[j]);
        lemma_value_tag(field_of(n.data, d.field), n.address);
        if j < high.len() {
            assert(past(high[i], high[j], true));
        } else if i < high.len() {
            assert(rank(by, m)[0] == 0);
        } else {
            assert(past(low[i - high.len()], low[j - high.len()], true));
            lemma_lt_common_prefix(tag, utf8(m.address), utf8(n.address));
            lemma_lt_common_prefix(seq![0u8], utf8(m.address), utf8(n.address));
        }
    }
    assert forall|i: int| 0 <= i < rows.len() implies belongs(nodes, pick, by, after, true, #[trigger] rows[i]) by {
        let n = rows[i];
        lemma_value_tag(field_of(n.data, d.field), n.address);
        if let Some((v, a)) = from {
            if i < high.len() {
                assert(past(high_start(from), high[i], true));
            } else if v is None {
                assert(past(low_start(from)->0, low[i - high.len()], true));
                lemma_lt_common_prefix(tag, utf8(n.address), utf8(a));
                lemma_lt_common_prefix(seq![0u8], utf8(n.address), utf8(a));
            } else {
                assert(rank(by, n)[0] == 0);
            }
        }
    }
    assert forall|n: NodeView| #[trigger] belongs(nodes, pick, by, after, true, n) implies rows.contains(n) by {
        let v = field_of(n.data, d.field);
        let k = value_key(v, n.address);
        lemma_value_tag(v, n.address);
        assert(entry(ix, n, k));
        lemma_node_key(ix, tree, nodes, n, k);
        assert(k.take(0) =~= empty);
        if v is Some {
            assert(high.contains(k)) by {
                if let Some((w, a)) = from {
                    if w is None {
                        assert(down_key(w, a)[0] == 0);
                    }
                }
            }
            let i = choose|i: int| 0 <= i < high.len() && high[i] == k;
            assert(keys[i] == k);
            assert(rows[i] == n);
        } else {
            assert(low.contains(k)) by {
                if let Some((w, a)) = from {
                    if w is None {
                        lemma_lt_common_prefix(tag, utf8(n.address), utf8(a));
                        lemma_lt_common_prefix(seq![0u8], utf8(n.address), utf8(a));
                    }
                }
            }
            let i = choose|i: int| 0 <= i < low.len() && low[i] == k;
            assert(keys[high.len() + i] == k);
            assert(rows[high.len() + i] == n);
        }
    }
}

/// A listing in one order is the listing in another that orders its rows in
/// the same way.
pub proof fn lemma_reranked(
    rows: Seq<NodeView>,
    nodes: Nodes,
    pick: spec_fn(NodeView) -> bool,
    x: RankBy,
    y: RankBy,
    a: Option<Seq<u8>>,
    b: Option<Seq<u8>>,
    desc: bool,
)
    requires
        is_listing(rows, nodes, pick, x, a, desc),
        forall|n: NodeView, m: NodeView|
            #![trigger rank(y, n), rank(y, m)]
            pick(n) && pick(m) ==> past(rank(x, n), rank(x, m), desc) == past(rank(y, n), rank(y, m), desc),
        forall|n: NodeView| #[trigger]
            pick(n) ==> ((a matches Some(s) ==> past(s, rank(x, n), desc)) <==> (b matches Some(s) ==> past(
                s,
                rank(y, n),
                desc,
            ))),
    ensures
        is_listing(rows, nodes, pick, y, b, desc),
{
    assert forall|i: int| 0 <= i < rows.len() implies belongs(nodes, pick, y, b, desc, #[trigger] rows[i]) by {
        assert(belongs(nodes, pick, x, a, desc, rows[i]));
        assert(pick(rows[i]));
    }
    assert forall|i: int, j: int| 0 <= i < j < rows.len() implies past(
        rank(y, #[trigger] rows[i]),
        rank(y, #[trigger] rows[j]),
        desc,
    ) by {
        assert(belongs(nodes, pick, x, a, desc, rows[i]));
        assert(belongs(nodes, pick, x, a, desc, rows[j]));
        assert(past(rank(x, rows[i]), rank(x, rows[j]), desc));
    }
    assert forall|n: NodeView| #[trigger] belongs(nodes, pick, y, b, desc, n) implies rows.contains(n) by {
        assert(pick(n));
        assert(belongs(nodes, pick, x, a, desc, n));
    }
}

/// The nodes of a kind with a text that contains a piece.
pub open spec fn with_gram(kind: Seq<char>, name: Seq<char>, gram: Seq<u8>) -> spec_fn(NodeView) -> bool {
    |n: NodeView|
        n.kind == kind && (indexed_text_of(n.data, name) matches Some(s) && has_gram(utf8(s), gram))
}

proof fn lemma_gram_rows(d: crate::defs::TextIndexDefView, tree: Entries, nodes: Nodes, gram: Seq<u8>)
    requires
        crate::tables::model::index_ok(NodeIndex::Text(d), tree, nodes),
        addressed(nodes),
        tree.dom().finite(),
        gram.len() == GRAM_LEN,
    ensures
        ({
            let ix = NodeIndex::Text(d);
            let keys = walk_keys(tree, gram, None, false);
            let rows = Seq::new(keys.len(), |i: int| behind_key(ix, nodes, keys[i]));
            &&& part_keys(keys, gram, rows)
            &&& is_listing(rows, nodes, with_gram(d.kind, d.field, gram), RankBy::Address, None, false)
        }),
{
    let ix = NodeIndex::Text(d);
    let keys = walk_keys(tree, gram, None, false);
    let rows = Seq::new(keys.len(), |i: int| behind_key(ix, nodes, keys[i]));
    let pick = with_gram(d.kind, d.field, gram);
    lemma_walk_facts(tree, gram, None, false);
    assert forall|i: int| 0 <= i < keys.len() implies #[trigger] keys[i] == gram + utf8(rows[i].address) && live(
        nodes,
        rows[i],
    ) && pick(rows[i]) by {
        lemma_behind_key(ix, tree, nodes, keys[i]);
        assert(keys[i].take(GRAM_LEN as int) == gram);
    }
    assert forall|i: int, j: int| 0 <= i < j < rows.len() implies past(
        rank(RankBy::Address, #[trigger] rows[i]),
        rank(RankBy::Address, #[trigger] rows[j]),
        false,
    ) by {
        assert(past(keys[i], keys[j], false));
        lemma_lt_common_prefix(gram, utf8(rows[i].address), utf8(rows[j].address));
    }
    assert forall|i: int| 0 <= i < rows.len() implies belongs(
        nodes,
        pick,
        RankBy::Address,
        None,
        false,
        #[trigger] rows[i],
    ) by {
        assert(keys[i] == gram + utf8(rows[i].address));
    }
    assert forall|n: NodeView| #[trigger] belongs(nodes, pick, RankBy::Address, None, false, n) implies rows.contains(
        n,
    ) by {
        let k = gram + utf8(n.address);
        assert(k.take(GRAM_LEN as int) =~= gram);
        assert(entry(ix, n, k));
        lemma_node_key(ix, tree, nodes, n, k);
        assert(keys.contains(k));
        let i = choose|i: int| 0 <= i < keys.len() && keys[i] == k;
        assert(rows[i] == n);
    }
}

pub open spec fn text_bytes(a: Option<Seq<char>>) -> Option<Seq<u8>> {
    match a {
        Some(a) => Some(utf8(a)),
        None => None,
    }
}

pub open spec fn from_view(from: Option<(Option<&Json>, &str)>) -> Option<(Option<JsonView>, Seq<char>)> {
    match from {
        Some((v, a)) => Some((ref_view(v), a@)),
        None => None,
    }
}

impl Tables {
    /// All nodes, in the order of their addresses.
    pub proof fn lemma_all_rows(&self) -> (rows: Seq<NodeView>)
        requires
            self.inv(),
        ensures
            is_listing(rows, self@.nodes, scanned(None, None), RankBy::Address, None, false),
    {
        self.primary.lemma_wf();
        lemma_primary_rows(self.primary@, self@.nodes, self.store@, None, false, scanned(None, None));
        let keys = walk_keys(self.primary@, Seq::empty(), None, false);
        Seq::new(keys.len(), |i: int| self@.nodes[address_of(self@.nodes, keys[i])])
    }

    /// The nodes of a kind can be listed.
    pub proof fn lemma_kind_rows(&self, kind: Seq<char>) -> (rows: Seq<NodeView>)
        requires
            self.inv(),
        ensures
            is_listing(rows, self@.nodes, scanned(Some(kind), None), RankBy::Address, None, false),
            forall|a: Seq<char>| #[trigger] self@.nodes.contains_key(a) ==> self@.nodes[a].address == a,
    {
        let nodes = self@.nodes;
        lemma_nodes_at(self.primary@, nodes, self.store@, Seq::empty());
        self.kind.lemma_wf();
        lemma_part_rows(NodeIndex::Kind, self.kind@, nodes, kind, None, false, scanned(Some(kind), None));
        let keys = walk_keys(self.kind@, part_prefix(kind), None, false);
        Seq::new(keys.len(), |i: int| behind_key(NodeIndex::Kind, nodes, keys[i]))
    }

    /// The nodes of a kind, or else of an owner, or else all, in the order of
    /// their addresses; strictly past `start_after`, if that is given.
    pub(crate) fn scan_candidates<'a>(
        &'a self,
        kind: Option<&str>,
        owner: Option<&str>,
        start_after: Option<&str>,
        reverse: bool,
    ) -> (r: Rows<'a>)
        requires
            self.inv(),
        ensures
            r.wf(self),
            r.taken() == 0,
            is_listing(
                r.all(),
                self@.nodes,
                scanned(crate::text::str_view(kind), crate::text::str_view(owner)),
                RankBy::Address,
                text_bytes(crate::text::str_view(start_after)),
                reverse,
            ),
    {
        let ghost pick = scanned(crate::text::str_view(kind), crate::text::str_view(owner));
        let ghost after = crate::text::str_view(start_after);
        let ghost nodes = self@.nodes;
        proof {
            lemma_nodes_at(self.primary@, nodes, self.store@, Seq::empty());
            self.primary.lemma_wf();
            self.kind.lemma_wf();
            self.owner.lemma_wf();
        }
        let part: Option<(&'a crate::btree::BTree, Vec<u8>)> = match (kind, owner) {
            (Some(k), _) => Some((&self.kind, kind_prefix(k))),
            (None, Some(o)) => Some((&self.owner, owner_prefix(o))),
            (None, None) => None,
        };
        match part {
            None => {
                let start: Option<Vec<u8>> = match start_after {
                    Some(a) => Some(crate::bytes::copy_bytes(a.as_bytes())),
                    None => None,
                };
                let prefix: Vec<u8> = Vec::new();
                proof {
                    assert(prefix@ =~= Seq::<u8>::empty());
                }
                let walk = Walk::new(&self.primary, prefix, start, reverse);
                let ghost keys = walk.keys();
                let ghost rows = Seq::new(keys.len(), |i: int| nodes[address_of(nodes, keys[i])]);
                proof {
                    lemma_primary_rows(self.primary@, nodes, self.store@, cursor_view(start), reverse, pick);
                }
                Rows { source: Source::Primary(walk), rows: Ghost(rows), taken: Ghost(0), field: Ghost(Seq::empty()) }
            },
            Some((tree, prefix)) => {
                let start: Option<Vec<u8>> = match start_after {
                    Some(a) => {
                        let mut key = crate::bytes::copy_bytes(&prefix);
                        put_bytes(&mut key, a.as_bytes());
                        Some(key)
                    },
                    None => None,
                };
                let ghost ix = if kind is Some {
                    NodeIndex::Kind
                } else {
                    NodeIndex::Owner
                };
                let ghost name = if kind is Some {
                    kind->0@
                } else {
                    owner->0@
                };
                let ghost p = prefix@;
                let walk = Walk::new(tree, crate::bytes::copy_bytes(&prefix), start, reverse);
                let ghost keys = walk.keys();
                let ghost rows = Seq::new(keys.len(), |i: int| behind_key(ix, nodes, keys[i]));
                proof {
                    lemma_part_rows(ix, tree@, nodes, name, after, reverse, pick);
                }
                Rows { source: Source::Part(walk, prefix), rows: Ghost(rows), taken: Ghost(0), field: Ghost(Seq::empty()) }
            },
        }
    }

    /// The nodes in the data index at position `at` whose keys begin with
    /// `prefix`, in the order of their keys; strictly past `after`, if that
    /// is given.
    pub(crate) fn scan_data<'a>(
        &'a self,
        at: usize,
        prefix: Vec<u8>,
        after: Option<Vec<u8>>,
        reverse: bool,
    ) -> (r: Rows<'a>)
        requires
            self.inv(),
            at < self@.data.len(),
        ensures
            r.wf(self),
            r.taken() == 0,
            r.indexed_by() == Some(self@.data[at as int].field),
            ({
                let d = self@.data[at as int];
                let pick = under_prefix(d.kind, d.field, prefix@);
                let by = RankBy::Field(d.field);
                is_listing(r.all(), self@.nodes, pick, by, cursor_view(after), reverse)
            }),
    {
        let ghost nodes = self@.nodes;
        let index = &self.data[at];
        let ghost d = index.def@;
        proof {
            assert(crate::tables::lists::data_defs(self.data@)[at as int] == d);
            lemma_nodes_at(self.primary@, nodes, self.store@, Seq::empty());
            index.tree.lemma_wf();
            lemma_data_rows(d, index.tree@, nodes, prefix@, cursor_view(after), reverse);
        }
        let walk = Walk::new(&index.tree, prefix, after, reverse);
        let ghost keys = walk.keys();
        let ghost rows = Seq::new(keys.len(), |i: int| behind_key(NodeIndex::Data(d), nodes, keys[i]));
        Rows { source: Source::Data(Walks::one(walk)), rows: Ghost(rows), taken: Ghost(0), field: Ghost(d.field) }
    }

    /// The nodes in the data index at position `at` from the far end, those
    /// without a value last; strictly past a value and an address, if these
    /// are given.
    pub(crate) fn scan_down<'a>(&'a self, at: usize, from: Option<(Option<&Json>, &str)>) -> (r: Rows<'a>)
        requires
            self.inv(),
            at < self@.data.len(),
        ensures
            r.wf(self),
            r.taken() == 0,
            ({
                let d = self@.data[at as int];
                let pick = under_prefix(d.kind, d.field, Seq::empty());
                is_listing(r.all(), self@.nodes, pick, RankBy::Last(d.field), down_start(from_view(from)), true)
            }),
    {
        let ghost nodes = self@.nodes;
        let index = &self.data[at];
        let ghost d = index.def@;
        let ghost start = from_view(from);
        proof {
            assert(crate::tables::lists::data_defs(self.data@)[at as int] == d);
            lemma_nodes_at(self.primary@, nodes, self.store@, Seq::empty());
            index.tree.lemma_wf();
            lemma_down_rows(d, index.tree@, nodes, start);
        }
        let mut tag: Vec<u8> = Vec::new();
        tag.push(TAG_NOTHING);
        let (high, low): (Vec<u8>, Option<Vec<u8>>) = match from {
            None => (crate::bytes::copy_bytes(&tag), None),
            Some((Some(v), a)) => (data_key(Some(v), a), None),
            Some((None, a)) => {
                let mut key = crate::bytes::copy_bytes(&tag);
                put_bytes(&mut key, a.as_bytes());
                (Vec::new(), Some(key))
            },
        };
        let none: Vec<u8> = Vec::new();
        proof {
            assert(tag@ =~= seq![TAG_NOTHING]);
            assert(none@ =~= Seq::<u8>::empty());
            assert(high@ =~= high_start(start));
            match (cursor_view(low), low_start(start)) {
                (Some(x), Some(y)) => assert(x =~= y),
                _ => {},
            }
            assert(cursor_view(low) == low_start(start));
        }
        let first = Walk::new(&index.tree, none, Some(high), true);
        let second = Walk::new(&index.tree, tag, low, true);
        let walks = Walks::two(first, second);
        let ghost keys = walks.keys();
        let ghost rows = Seq::new(keys.len(), |i: int| behind_key(NodeIndex::Data(d), nodes, keys[i]));
        Rows { source: Source::Data(walks), rows: Ghost(rows), taken: Ghost(0), field: Ghost(d.field) }
    }

    /// The nodes in the text index at position `at` whose text contains a
    /// piece, in the order of their addresses.
    pub(crate) fn scan_text<'a>(&'a self, at: usize, gram: &Vec<u8>) -> (r: Rows<'a>)
        requires
            self.inv(),
            at < self@.text.len(),
            gram@.len() == GRAM_LEN,
        ensures
            r.wf(self),
            r.taken() == 0,
            is_listing(
                r.all(),
                self@.nodes,
                with_gram(self@.text[at as int].kind, self@.text[at as int].field, gram@),
                RankBy::Address,
                None,
                false,
            ),
    {
        let ghost nodes = self@.nodes;
        let index = &self.text[at];
        let ghost d = index.def@;
        proof {
            assert(crate::tables::lists::text_defs(self.text@)[at as int] == d);
            lemma_nodes_at(self.primary@, nodes, self.store@, Seq::empty());
            index.tree.lemma_wf();
            lemma_gram_rows(d, index.tree@, nodes, gram@);
        }
        let walk = Walk::new(&index.tree, crate::bytes::copy_bytes(gram), None, false);
        let ghost keys = walk.keys();
        let ghost rows = Seq::new(keys.len(), |i: int| behind_key(NodeIndex::Text(d), nodes, keys[i]));
        Rows {
            source: Source::Part(walk, crate::bytes::copy_bytes(gram)),
            rows: Ghost(rows),
            taken: Ghost(0),
            field: Ghost(Seq::empty()),
        }
    }

    /// The nodes at the addresses from `from` up to `to`, in that order or
    /// the other way round.
    pub(crate) fn scan_list<'a>(&'a self, addresses: Vec<String>, from: usize, to: usize, reverse: bool) -> (r: Rows<'a>)
        requires
            self.inv(),
            from <= to <= addresses@.len(),
            forall|i: int| 0 <= i < addresses@.len() ==> self@.nodes.contains_key((#[trigger] addresses@[i])@),
        ensures
            r.wf(self),
            r.taken() == 0,
            r.all() == listed_nodes(self@.nodes, addresses@, from as int, to as int, reverse),
    {
        let ghost nodes = self@.nodes;
        let ghost rows = listed_nodes(nodes, addresses@, from as int, to as int, reverse);
        proof {
            lemma_nodes_at(self.primary@, nodes, self.store@, Seq::empty());
            assert forall|i: int| 0 <= i < rows.len() implies live(nodes, #[trigger] rows[i]) by {
                let j = if reverse {
                    to - 1 - i
                } else {
                    from + i
                };
                assert(nodes.contains_key(addresses@[j]@));
            }
            assert forall|j: int| from <= j < to implies (#[trigger] addresses@[j])@ == rows[list_row(
                from as int,
                to as int,
                reverse,
                0,
                j,
            )].address by {
                assert(nodes.contains_key(addresses@[j]@));
            }
        }
        Rows {
            source: Source::List { addresses, from, to, reverse },
            rows: Ghost(rows),
            taken: Ghost(0),
            field: Ghost(Seq::empty()),
        }
    }
}

/// The nodes at the addresses from `from` up to `to`, in that order or the
/// other way round.
pub open spec fn listed_nodes(
    nodes: Nodes,
    addresses: Seq<String>,
    from: int,
    to: int,
    reverse: bool,
) -> Seq<NodeView> {
    Seq::new(
        (to - from) as nat,
        |i: int|
            nodes[addresses[if reverse {
                to - 1 - i
            } else {
                from + i
            }]@],
    )
}

} // verus!
