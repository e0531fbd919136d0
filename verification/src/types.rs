//! The things a database holds: nodes, edges, past versions and users.

use vstd::prelude::*;

use crate::text::{copy_text, str_eq, text_view};

verus! {

/// Where in the grid a node belongs.
#[derive(Clone, Copy, PartialEq, Eq, Debug, Structural)]
pub struct Coordinate {
    pub x: u64,
    pub y: u64,
    pub z: u64,
    pub w: u64,
}

impl Coordinate {
    pub fn new(x: u64, y: u64, z: u64, w: u64) -> (r: Coordinate)
        ensures
            r == (Coordinate { x, y, z, w }),
    {
        Coordinate { x, y, z, w }
    }
}

/// Who may read a node besides its owner.
#[derive(Clone, Copy, PartialEq, Eq, Debug, Structural)]
pub enum Visibility {
    Public,
    Private,
}

/// A node: a document at an address.
#[derive(Debug)]
pub struct Node {
    pub coordinate: Coordinate,
    pub address: String,
    pub kind: String,
    pub owner: String,
    pub data: String,
    pub visibility: Visibility,
    pub claimed_by: Option<String>,
}

#[verifier::ext_equal]
pub struct NodeView {
    pub coordinate: Coordinate,
    pub address: Seq<char>,
    pub kind: Seq<char>,
    pub owner: Seq<char>,
    pub data: Seq<char>,
    pub visibility: Visibility,
    pub claimed_by: Option<Seq<char>>,
}

impl View for Node {
    type V = NodeView;

    open spec fn view(&self) -> NodeView {
        NodeView {
            coordinate: self.coordinate,
            address: self.address@,
            kind: self.kind@,
            owner: self.owner@,
            data: self.data@,
            visibility: self.visibility,
            claimed_by: text_view(self.claimed_by),
        }
    }
}

impl NodeView {
    /// `who` may read the node: it is public, or theirs.
    pub open spec fn readable_by(self, who: Seq<char>) -> bool {
        self.visibility == Visibility::Public || self.owner == who
    }

    /// `who` may write the node: it is theirs.
    pub open spec fn writable_by(self, who: Seq<char>) -> bool {
        self.owner == who
    }
}

impl Node {
    /// A private node without data.
    pub fn new(coordinate: Coordinate, address: String, kind: String, owner: String) -> (r: Node)
        ensures
            r@.coordinate == coordinate,
            r@.address == address@,
            r@.kind == kind@,
            r@.owner == owner@,
            r@.data == Seq::<char>::empty(),
            r@.visibility == Visibility::Private,
            r@.claimed_by is None,
    {
        Node {
            coordinate,
            address,
            kind,
            owner,
            data: String::new(),
            visibility: Visibility::Private,
            claimed_by: None,
        }
    }

    pub fn copy(&self) -> (r: Node)
        ensures
            r@ == self@,
    {
        Node {
            coordinate: self.coordinate,
            address: self.address.clone(),
            kind: self.kind.clone(),
            owner: self.owner.clone(),
            data: self.data.clone(),
            visibility: self.visibility,
            claimed_by: copy_text(&self.claimed_by),
        }
    }

    pub fn can_read(&self, who: &str) -> (r: bool)
        ensures
            r == self@.readable_by(who@),
    {
        self.visibility == Visibility::Public || str_eq(&self.owner, who)
    }

    pub fn can_write(&self, who: &str) -> (r: bool)
        ensures
            r == self@.writable_by(who@),
    {
        str_eq(&self.owner, who)
    }
}

/// What an edge is: two addresses and a relation between them.
#[derive(Debug)]
pub struct EdgeId {
    pub from: String,
    pub to: String,
    pub kind: String,
}

#[verifier::ext_equal]
pub struct EdgeIdView {
    pub from: Seq<char>,
    pub to: Seq<char>,
    pub kind: Seq<char>,
}

impl View for EdgeId {
    type V = EdgeIdView;

    open spec fn view(&self) -> EdgeIdView {
        EdgeIdView { from: self.from@, to: self.to@, kind: self.kind@ }
    }
}

impl EdgeId {
    pub fn copy(&self) -> (r: EdgeId)
        ensures
            r@ == self@,
    {
        EdgeId { from: self.from.clone(), to: self.to.clone(), kind: self.kind.clone() }
    }

    pub fn same(&self, other: &EdgeId) -> (r: bool)
        ensures
            r == (self@ == other@),
    {
        let r = str_eq(&self.from, &other.from) && str_eq(&self.to, &other.to) && str_eq(
            &self.kind,
            &other.kind,
        );
        proof {
            if r {
                assert(self@ =~= other@);
            }
        }
        r
    }
}

/// A relation between two nodes, with the one who asserted it.
#[derive(Debug)]
pub struct Edge {
    pub from: String,
    pub to: String,
    pub kind: String,
    pub owner: String,
}

#[verifier::ext_equal]
pub struct EdgeView {
    pub from: Seq<char>,
    pub to: Seq<char>,
    pub kind: Seq<char>,
    pub owner: Seq<char>,
}

impl View for Edge {
    type V = EdgeView;

    open spec fn view(&self) -> EdgeView {
        EdgeView { from: self.from@, to: self.to@, kind: self.kind@, owner: self.owner@ }
    }
}

impl EdgeView {
    pub open spec fn id(self) -> EdgeIdView {
        EdgeIdView { from: self.from, to: self.to, kind: self.kind }
    }
}

impl Edge {
    pub fn new(from: String, to: String, kind: String, owner: String) -> (r: Edge)
        ensures
            r@ == (EdgeView { from: from@, to: to@, kind: kind@, owner: owner@ }),
    {
        Edge { from, to, kind, owner }
    }

    pub fn copy(&self) -> (r: Edge)
        ensures
            r@ == self@,
    {
        Edge {
            from: self.from.clone(),
            to: self.to.clone(),
            kind: self.kind.clone(),
            owner: self.owner.clone(),
        }
    }

    pub fn id(&self) -> (r: EdgeId)
        ensures
            r@ == self@.id(),
    {
        EdgeId { from: self.from.clone(), to: self.to.clone(), kind: self.kind.clone() }
    }

    pub fn can_write(&self, who: &str) -> (r: bool)
        ensures
            r == (self@.owner == who@),
    {
        str_eq(&self.owner, who)
    }
}

/// A past state of a node.
#[derive(Debug)]
pub struct HistoryEntry {
    pub address: String,
    pub version: u64,
    pub node: Node,
}

#[verifier::ext_equal]
pub struct HistoryView {
    pub address: Seq<char>,
    pub version: u64,
    pub node: NodeView,
}

impl View for HistoryEntry {
    type V = HistoryView;

    open spec fn view(&self) -> HistoryView {
        HistoryView { address: self.address@, version: self.version, node: self.node@ }
    }
}

/// The state of `node` superseded at `version`.
pub open spec fn superseded(node: NodeView, version: u64) -> HistoryView {
    HistoryView { address: node.address, version, node }
}

impl HistoryEntry {
    /// The state of `node` superseded at `version`.
    pub fn at(node: Node, version: u64) -> (r: HistoryEntry)
        ensures
            r@ == superseded(node@, version),
    {
        HistoryEntry { address: node.address.clone(), version, node }
    }

    pub fn copy(&self) -> (r: HistoryEntry)
        ensures
            r@ == self@,
    {
        HistoryEntry { address: self.address.clone(), version: self.version, node: self.node.copy() }
    }
}

/// A persistent identity, found by the hash of its token.
#[derive(Debug)]
pub struct UserRecord {
    pub token_hash: String,
    pub owner: String,
    pub is_admin: bool,
}

#[verifier::ext_equal]
pub struct UserView {
    pub token_hash: Seq<char>,
    pub owner: Seq<char>,
    pub is_admin: bool,
}

impl View for UserRecord {
    type V = UserView;

    open spec fn view(&self) -> UserView {
        UserView { token_hash: self.token_hash@, owner: self.owner@, is_admin: self.is_admin }
    }
}

impl UserRecord {
    pub fn copy(&self) -> (r: UserRecord)
        ensures
            r@ == self@,
    {
        UserRecord {
            token_hash: self.token_hash.clone(),
            owner: self.owner.clone(),
            is_admin: self.is_admin,
        }
    }
}

/// Where in the heap a record is.
#[derive(Clone, Copy, PartialEq, Eq, Debug, Structural)]
pub struct RecordLocation {
    pub segment: u32,
    pub page: u32,
    pub slot: u16,
    pub length: u32,
}

} // verus!
