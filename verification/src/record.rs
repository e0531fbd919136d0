//! Records as bytes.
//!
//! A record is flattened to a tag, numbers and texts, and those are written
//! with bincode. What is flattened here and read back is the same record.

use vstd::prelude::*;

use crate::bytes::le_bytes;
use crate::text::{texts_view, utf8};
use crate::types::{Coordinate, Edge, EdgeView, HistoryEntry, HistoryView, Node, NodeView, Visibility};

verus! {

/// A record taken apart.
#[verifier::ext_equal]
pub struct Fields {
    pub tag: u32,
    pub numbers: Seq<u64>,
    pub texts: Seq<Seq<char>>,
}

/// Numbers one after the other, eight bytes each.
pub open spec fn numbers_bytes(numbers: Seq<u64>) -> Seq<u8>
    decreases numbers.len(),
{
    if numbers.len() == 0 {
        Seq::empty()
    } else {
        numbers_bytes(numbers.drop_last()) + le_bytes(numbers.last() as nat, 8)
    }
}

/// Texts one after the other, each after its length in bytes.
pub open spec fn texts_bytes(texts: Seq<Seq<char>>) -> Seq<u8>
    decreases texts.len(),
{
    if texts.len() == 0 {
        Seq::empty()
    } else {
        texts_bytes(texts.drop_last()) + le_bytes(utf8(texts.last()).len(), 8) + utf8(texts.last())
    }
}

/// A record's bytes: the tag, the numbers after their count, the texts
/// after theirs.
pub open spec fn packed(f: Fields) -> Seq<u8> {
    le_bytes(f.tag as nat, 4) + le_bytes(f.numbers.len(), 8) + numbers_bytes(f.numbers) + le_bytes(
        f.texts.len(),
        8,
    ) + texts_bytes(f.texts)
}

/// The record that bytes are read as, if they are one.
pub uninterp spec fn unpacked(bytes: Seq<u8>) -> Option<Fields>;

/// Calls `bincode::serialize` on a tuple of a number, a list of numbers and
/// a list of strings: little-endian numbers of fixed width, each list and
/// each string after its length as eight bytes. That cannot fail for such a
/// tuple, and `bincode::deserialize` reads it back.
#[verifier::external_body]
fn serialize(tag: u32, numbers: &Vec<u64>, texts: &Vec<String>) -> (r: Vec<u8>)
    ensures
        r@ == packed(Fields { tag, numbers: numbers@, texts: texts_view(texts@) }),
        unpacked(r@) == Some(Fields { tag, numbers: numbers@, texts: texts_view(texts@) }),
{
    bincode::serialize(&(tag, numbers, texts)).expect("numbers and strings serialize")
}

/// Calls `bincode::deserialize` for a tuple of a number, a list of numbers
/// and a list of strings.
#[verifier::external_body]
fn deserialize(bytes: &[u8]) -> (r: Option<(u32, Vec<u64>, Vec<String>)>)
    ensures
        match r {
            Some((tag, numbers, texts)) => unpacked(bytes@) == Some(
                Fields { tag, numbers: numbers@, texts: texts_view(texts@) },
            ),
            None => unpacked(bytes@) is None,
        },
{
    bincode::deserialize::<(u32, Vec<u64>, Vec<String>)>(bytes).ok()
}

/// A record as numbers and texts.
pub struct Parts {
    pub tag: u32,
    pub numbers: Vec<u64>,
    pub texts: Vec<String>,
}

impl View for Parts {
    type V = Fields;

    open spec fn view(&self) -> Fields {
        Fields { tag: self.tag, numbers: self.numbers@, texts: texts_view(self.texts@) }
    }
}

impl Parts {
    pub fn pack(&self) -> (r: Vec<u8>)
        ensures
            r@ == packed(self@),
            unpacked(r@) == Some(self@),
    {
        serialize(self.tag, &self.numbers, &self.texts)
    }

    pub fn unpack(bytes: &[u8]) -> (r: Option<Parts>)
        ensures
            match r {
                Some(p) => unpacked(bytes@) == Some(p@),
                None => unpacked(bytes@) is None,
            },
    {
        match deserialize(bytes) {
            Some((tag, numbers, texts)) => Some(Parts { tag, numbers, texts }),
            None => None,
        }
    }
}

// ---------------------------------------------------------------------
// Nodes
// ---------------------------------------------------------------------

pub open spec fn flag(b: bool) -> u64 {
    if b {
        1
    } else {
        0
    }
}

pub open spec fn node_numbers(n: NodeView) -> Seq<u64> {
    seq![
        n.coordinate.x,
        n.coordinate.y,
        n.coordinate.z,
        n.coordinate.w,
        flag(n.visibility == Visibility::Public),
        flag(n.claimed_by is Some),
    ]
}

pub open spec fn node_texts(n: NodeView) -> Seq<Seq<char>> {
    let base = seq![n.address, n.kind, n.owner, n.data];
    match n.claimed_by {
        Some(who) => base.push(who),
        None => base,
    }
}

/// The node that numbers and texts stand for, if they stand for one.
pub open spec fn node_from(numbers: Seq<u64>, texts: Seq<Seq<char>>) -> Option<NodeView> {
    if numbers.len() != 6 || texts.len() < 4 || (numbers[5] == 1 && texts.len() < 5) {
        None
    } else {
        Some(
            NodeView {
                coordinate: Coordinate { x: numbers[0], y: numbers[1], z: numbers[2], w: numbers[3] },
                address: texts[0],
                kind: texts[1],
                owner: texts[2],
                data: texts[3],
                visibility: if numbers[4] == 1 {
                    Visibility::Public
                } else {
                    Visibility::Private
                },
                claimed_by: if numbers[5] == 1 {
                    Some(texts[4])
                } else {
                    None
                },
            },
        )
    }
}

pub proof fn lemma_node_round_trip(n: NodeView)
    ensures
        node_from(node_numbers(n), node_texts(n)) == Some(n),
{
    let back = node_from(node_numbers(n), node_texts(n))->0;
    assert(back =~= n);
}

pub fn node_parts(n: &Node) -> (r: (Vec<u64>, Vec<String>))
    ensures
        r.0@ == node_numbers(n@),
        texts_view(r.1@) == node_texts(n@),
{
    let mut numbers: Vec<u64> = Vec::new();
    numbers.push(n.coordinate.x);
    numbers.push(n.coordinate.y);
    numbers.push(n.coordinate.z);
    numbers.push(n.coordinate.w);
    numbers.push(
        if n.visibility == Visibility::Public {
            1
        } else {
            0
        },
    );
    numbers.push(
        if n.claimed_by.is_some() {
            1
        } else {
            0
        },
    );
    let mut texts: Vec<String> = Vec::new();
    texts.push(n.address.clone());
    texts.push(n.kind.clone());
    texts.push(n.owner.clone());
    texts.push(n.data.clone());
    match &n.claimed_by {
        Some(who) => {
            texts.push(who.clone());
        },
        None => {},
    }
    proof {
        assert(numbers@ =~= node_numbers(n@));
        assert(texts_view(texts@) =~= node_texts(n@));
    }
    (numbers, texts)
}

pub fn node_of_parts(numbers: &Vec<u64>, texts: &Vec<String>) -> (r: Option<Node>)
    ensures
        match r {
            Some(n) => node_from(numbers@, texts_view(texts@)) == Some(n@),
            None => node_from(numbers@, texts_view(texts@)) is None,
        },
{
    if numbers.len() != 6 || texts.len() < 4 || (numbers[5] == 1 && texts.len() < 5) {
        return None;
    }
    let n = Node {
        coordinate: Coordinate { x: numbers[0], y: numbers[1], z: numbers[2], w: numbers[3] },
        address: texts[0].clone(),
        kind: texts[1].clone(),
        owner: texts[2].clone(),
        data: texts[3].clone(),
        visibility: if numbers[4] == 1 {
            Visibility::Public
        } else {
            Visibility::Private
        },
        claimed_by: if numbers[5] == 1 {
            Some(texts[4].clone())
        } else {
            None
        },
    };
    proof {
        assert(n@ =~= node_from(numbers@, texts_view(texts@))->0);
    }
    Some(n)
}

// ---------------------------------------------------------------------
// Heap records
// ---------------------------------------------------------------------

/// One record as the heap stores it.
#[derive(Debug)]
pub enum HeapRecord {
    Node(Node),
    Edge(Edge),
    History(HistoryEntry),
}

pub enum HeapView {
    Node(NodeView),
    Edge(EdgeView),
    History(HistoryView),
}

impl View for HeapRecord {
    type V = HeapView;

    open spec fn view(&self) -> HeapView {
        match *self {
            HeapRecord::Node(n) => HeapView::Node(n@),
            HeapRecord::Edge(e) => HeapView::Edge(e@),
            HeapRecord::History(h) => HeapView::History(h@),
        }
    }
}

pub const TAG_NODE: u32 = 0;

pub const TAG_EDGE: u32 = 1;

pub const TAG_HISTORY: u32 = 2;

/// A heap record taken apart.
pub open spec fn heap_fields(r: HeapView) -> Fields {
    match r {
        HeapView::Node(n) => Fields { tag: TAG_NODE, numbers: node_numbers(n), texts: node_texts(n) },
        HeapView::Edge(e) => Fields {
            tag: TAG_EDGE,
            numbers: Seq::empty(),
            texts: seq![e.from, e.to, e.kind, e.owner],
        },
        HeapView::History(h) => Fields {
            tag: TAG_HISTORY,
            numbers: node_numbers(h.node).push(h.version),
            texts: node_texts(h.node).push(h.address),
        },
    }
}

/// The heap record that fields stand for, if they stand for one.
pub open spec fn heap_from(f: Fields) -> Option<HeapView> {
    if f.tag == TAG_NODE {
        match node_from(f.numbers, f.texts) {
            Some(n) => Some(HeapView::Node(n)),
            None => None,
        }
    } else if f.tag == TAG_EDGE {
        if f.texts.len() != 4 {
            None
        } else {
            Some(
                HeapView::Edge(
                    EdgeView { from: f.texts[0], to: f.texts[1], kind: f.texts[2], owner: f.texts[3] },
                ),
            )
        }
    } else if f.tag == TAG_HISTORY {
        if f.numbers.len() == 0 || f.texts.len() == 0 {
            None
        } else {
            match node_from(f.numbers.drop_last(), f.texts.drop_last()) {
                Some(node) => Some(
                    HeapView::History(
                        HistoryView { address: f.texts.last(), version: f.numbers.last(), node },
                    ),
                ),
                None => None,
            }
        }
    } else {
        None
    }
}

pub proof fn lemma_heap_round_trip(r: HeapView)
    ensures
        heap_from(heap_fields(r)) == Some(r),
{
    match r {
        HeapView::Node(n) => {
            lemma_node_round_trip(n);
        },
        HeapView::Edge(e) => {},
        HeapView::History(h) => {
            lemma_node_round_trip(h.node);
            let f = heap_fields(r);
            assert(f.numbers.drop_last() =~= node_numbers(h.node));
            assert(f.texts.drop_last() =~= node_texts(h.node));
        },
    }
}

/// The heap record that bytes are read as, if they are one.
pub open spec fn heap_of(bytes: Seq<u8>) -> Option<HeapView> {
    match unpacked(bytes) {
        Some(f) => heap_from(f),
        None => None,
    }
}

impl HeapRecord {
    pub fn copy(&self) -> (r: HeapRecord)
        ensures
            r@ == self@,
    {
        match self {
            HeapRecord::Node(n) => HeapRecord::Node(n.copy()),
            HeapRecord::Edge(e) => HeapRecord::Edge(e.copy()),
            HeapRecord::History(h) => HeapRecord::History(h.copy()),
        }
    }

    /// The record's bytes.
    pub fn encode(&self) -> (r: Vec<u8>)
        ensures
            r@ == packed(heap_fields(self@)),
            heap_of(r@) == Some(self@),
    {
        let parts = match self {
            HeapRecord::Node(n) => {
                let (numbers, texts) = node_parts(n);
                Parts { tag: TAG_NODE, numbers, texts }
            },
            HeapRecord::Edge(e) => {
                let mut texts: Vec<String> = Vec::new();
                texts.push(e.from.clone());
                texts.push(e.to.clone());
                texts.push(e.kind.clone());
                texts.push(e.owner.clone());
                let parts = Parts { tag: TAG_EDGE, numbers: Vec::new(), texts };
                proof {
                    assert(parts@.texts =~= seq![e@.from, e@.to, e@.kind, e@.owner]);
                    assert(parts@.numbers =~= Seq::<u64>::empty());
                }
                parts
            },
            HeapRecord::History(h) => {
                let (mut numbers, mut texts) = node_parts(&h.node);
                let ghost before = texts@;
                numbers.push(h.version);
                texts.push(h.address.clone());
                let parts = Parts { tag: TAG_HISTORY, numbers, texts };
                proof {
                    assert(parts@.texts =~= texts_view(before).push(h@.address));
                }
                parts
            },
        };
        proof {
            assert(parts@ =~= heap_fields(self@));
            lemma_heap_round_trip(self@);
        }
        parts.pack()
    }

    /// The record that bytes are read as, if they are one.
    pub fn decode(bytes: &[u8]) -> (r: Option<HeapRecord>)
        ensures
            match r {
                Some(rec) => heap_of(bytes@) == Some(rec@),
                None => heap_of(bytes@) is None,
            },
    {
        let parts = match Parts::unpack(bytes) {
            Some(parts) => parts,
            None => { return None },
        };
        let ghost f = parts@;
        if parts.tag == TAG_NODE {
            match node_of_parts(&parts.numbers, &parts.texts) {
                Some(n) => Some(HeapRecord::Node(n)),
                None => None,
            }
        } else if parts.tag == TAG_EDGE {
            if parts.texts.len() != 4 {
                return None;
            }
            Some(
                HeapRecord::Edge(
                    Edge {
                        from: parts.texts[0].clone(),
                        to: parts.texts[1].clone(),
                        kind: parts.texts[2].clone(),
                        owner: parts.texts[3].clone(),
                    },
                ),
            )
        } else if parts.tag == TAG_HISTORY {
            let mut numbers: Vec<u64> = parts.numbers;
            let mut texts: Vec<String> = parts.texts;
            match (numbers.pop(), texts.pop()) {
                (Some(version), Some(address)) => {
                    proof {
                        assert(numbers@ =~= f.numbers.drop_last());
                        assert(texts_view(texts@) =~= f.texts.drop_last());
                    }
                    match node_of_parts(&numbers, &texts) {
                        Some(node) => Some(HeapRecord::History(HistoryEntry { address, version, node })),
                        None => None,
                    }
                },
                _ => None,
            }
        } else {
            None
        }
    }
}

} // verus!
