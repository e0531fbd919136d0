//! Requests that change several things at once.

use vstd::prelude::*;
use vstd::string::*;

use crate::filter::Filter;
use crate::json::{
    json_equal, json_members, json_object, json_value, member, member_text, members, members_view, object, same_value,
    set_member, value, with_member, Json, JsonView, Shape, ShapeView,
};
use crate::order::{at_most, is_nan, order_bits};
use crate::tables::check::OpError;
use crate::tables::refs::ReferenceError;
use crate::tables::unique::UniqueError;
use crate::tables::TableError;
use crate::text::{trim, trimmed_text, utf8};
use crate::types::{Edge, EdgeId, EdgeIdView, Node, NodeView};

verus! {

/// What a field has to be for a conditional change.
#[derive(Debug)]
pub enum Expectation {
    /// A number that is at most the one with these bits.
    AtMost(u64),
    Equals(Json),
    /// Missing or null.
    Absent,
}

pub enum ExpectationView {
    AtMost(u64),
    Equals(JsonView),
    Absent,
}

impl View for Expectation {
    type V = ExpectationView;

    open spec fn view(&self) -> ExpectationView {
        match *self {
            Expectation::AtMost(bits) => ExpectationView::AtMost(bits),
            Expectation::Equals(j) => ExpectationView::Equals(j@),
            Expectation::Absent => ExpectationView::Absent,
        }
    }
}

/// One step of a transaction.
#[derive(Debug)]
pub enum TxOperation {
    InsertNode(Node),
    DeleteNode(String),
    InsertEdge(Edge),
    DeleteEdge { id: EdgeId, owner: String, is_admin: bool },
    /// Delete every node of a kind that the requester may write.
    ClearKind { kind: String, owner: String, is_admin: bool },
    /// Delete those of them that a condition holds of.
    DeleteWhere { kind: String, where_: Option<Filter>, owner: String, is_admin: bool },
    /// Set members of a node's data if one of them is as expected.
    SetIf {
        address: String,
        field: String,
        expect: Expectation,
        set: Vec<(String, Json)>,
        owner: String,
        is_admin: bool,
    },
}

/// Which end of an edge.
#[derive(Clone, Copy, PartialEq, Eq, Debug, Structural)]
pub enum EdgeEnd {
    From,
    To,
}

/// Why a request makes no sense.
#[derive(Debug)]
pub enum Invalidity {
    /// The address belongs to another.
    Owned { address: String, by: String },
    TargetNotFound { address: String },
    NotAuthorized { address: String },
    EndpointNotFound { end: EdgeEnd, address: String },
    EdgeNotFound { id: EdgeId },
    EdgeNotAuthorized { id: EdgeId },
    /// The edge belongs to another.
    EdgeOwned { id: EdgeId, by: String },
    /// The node's data is no JSON object.
    NotObject { address: String },
    /// The node's data is no JSON.
    Undecodable { address: String },
    /// A condition could not be evaluated.
    Condition { message: String },
    /// The request comes to more changes than one transaction may hold.
    TooMany { count: usize },
    /// Deleting the node leads to more changes than one transaction may hold.
    CascadeTooLarge { address: String },
    Unique(UniqueError),
    Reference(ReferenceError),
}

/// What a request asked for and did not find.
#[derive(Debug)]
pub enum Unmet {
    SetIfTarget { address: String },
    SetIf { address: String, field: String },
    /// The node is still referenced, and the reference does not let it go.
    Restricted { address: String, child: String, reference: String, count: usize },
}

/// What went wrong underneath.
#[derive(Debug)]
pub enum StorageFault {
    /// An operation does not fit.
    Operation(OpError),
    Table(TableError),
    /// The log has no numbers left.
    LogFull,
    /// The index that a reference is enforced through is gone.
    IndexGone { reference: String },
    /// An earlier change went wrong half way; the database has to be opened
    /// again.
    Failed,
}

/// Why a transaction did not happen.
#[derive(Debug)]
pub enum TransactionError {
    Invalid(Invalidity),
    Precondition(Unmet),
    Storage(StorageFault),
}

pub enum InvalidityView {
    Owned { address: Seq<char>, by: Seq<char> },
    TargetNotFound { address: Seq<char> },
    NotAuthorized { address: Seq<char> },
    EndpointNotFound { end: EdgeEnd, address: Seq<char> },
    EdgeNotFound { id: EdgeIdView },
    EdgeNotAuthorized { id: EdgeIdView },
    EdgeOwned { id: EdgeIdView, by: Seq<char> },
    NotObject { address: Seq<char> },
    Undecodable { address: Seq<char> },
    Condition { message: Seq<char> },
    TooMany { count: nat },
    CascadeTooLarge { address: Seq<char> },
    Unique(UniqueError),
    Reference(ReferenceError),
}

impl View for Invalidity {
    type V = InvalidityView;

    open spec fn view(&self) -> InvalidityView {
        match *self {
            Invalidity::Owned { address, by } => InvalidityView::Owned { address: address@, by: by@ },
            Invalidity::TargetNotFound { address } => InvalidityView::TargetNotFound { address: address@ },
            Invalidity::NotAuthorized { address } => InvalidityView::NotAuthorized { address: address@ },
            Invalidity::EndpointNotFound { end, address } => InvalidityView::EndpointNotFound {
                end,
                address: address@,
            },
            Invalidity::EdgeNotFound { id } => InvalidityView::EdgeNotFound { id: id@ },
            Invalidity::EdgeNotAuthorized { id } => InvalidityView::EdgeNotAuthorized { id: id@ },
            Invalidity::EdgeOwned { id, by } => InvalidityView::EdgeOwned { id: id@, by: by@ },
            Invalidity::NotObject { address } => InvalidityView::NotObject { address: address@ },
            Invalidity::Undecodable { address } => InvalidityView::Undecodable { address: address@ },
            Invalidity::Condition { message } => InvalidityView::Condition { message: message@ },
            Invalidity::TooMany { count } => InvalidityView::TooMany { count: count as nat },
            Invalidity::CascadeTooLarge { address } => InvalidityView::CascadeTooLarge { address: address@ },
            Invalidity::Unique(e) => InvalidityView::Unique(e),
            Invalidity::Reference(e) => InvalidityView::Reference(e),
        }
    }
}

pub enum UnmetView {
    SetIfTarget { address: Seq<char> },
    SetIf { address: Seq<char>, field: Seq<char> },
    Restricted { address: Seq<char>, child: Seq<char>, reference: Seq<char>, count: nat },
}

impl View for Unmet {
    type V = UnmetView;

    open spec fn view(&self) -> UnmetView {
        match *self {
            Unmet::SetIfTarget { address } => UnmetView::SetIfTarget { address: address@ },
            Unmet::SetIf { address, field } => UnmetView::SetIf { address: address@, field: field@ },
            Unmet::Restricted { address, child, reference, count } => UnmetView::Restricted {
                address: address@,
                child: child@,
                reference: reference@,
                count: count as nat,
            },
        }
    }
}

pub enum StorageFaultView {
    Operation(OpError),
    Table(TableError),
    LogFull,
    IndexGone { reference: Seq<char> },
    Failed,
}

impl View for StorageFault {
    type V = StorageFaultView;

    open spec fn view(&self) -> StorageFaultView {
        match *self {
            StorageFault::Operation(e) => StorageFaultView::Operation(e),
            StorageFault::Table(e) => StorageFaultView::Table(e),
            StorageFault::LogFull => StorageFaultView::LogFull,
            StorageFault::IndexGone { reference } => StorageFaultView::IndexGone { reference: reference@ },
            StorageFault::Failed => StorageFaultView::Failed,
        }
    }
}

pub enum TxErrorView {
    Invalid(InvalidityView),
    Precondition(UnmetView),
    Storage(StorageFaultView),
}

impl View for TransactionError {
    type V = TxErrorView;

    open spec fn view(&self) -> TxErrorView {
        match *self {
            TransactionError::Invalid(e) => TxErrorView::Invalid(e@),
            TransactionError::Precondition(e) => TxErrorView::Precondition(e@),
            TransactionError::Storage(e) => TxErrorView::Storage(e@),
        }
    }
}

// ---------------------------------------------------------------------
// Changing a node's data
// ---------------------------------------------------------------------

/// The node with a member of its data set to null; none if its data is no
/// JSON object.
pub open spec fn cleared(n: NodeView, name: Seq<char>) -> Option<NodeView> {
    match json_members(n.data) {
        Some(m) => match json_object(with_member(m, name, "null"@)) {
            Some(text) => Some(NodeView { data: text, ..n }),
            None => None,
        },
        None => None,
    }
}

/// The node with a member of its data set to null.
pub fn with_field_null(node: &Node, name: &str) -> (r: Option<Node>)
    ensures
        match r {
            Some(n) => cleared(node@, name@) == Some(n@),
            None => cleared(node@, name@) is None,
        },
{
    let mut list = match members(&node.data) {
        Some(list) => list,
        None => { return None },
    };
    set_member(&mut list, name, "null");
    match object(&list) {
        Some(text) => {
            let mut next = node.copy();
            next.data = text;
            Some(next)
        },
        None => None,
    }
}

/// The members that a conditional change starts from: none where the data is
/// blank or null.
pub open spec fn base_members(n: NodeView) -> Result<Seq<(Seq<char>, Seq<char>)>, TxErrorView> {
    if trimmed_text(n.data).len() == 0 {
        Ok(Seq::empty())
    } else {
        match json_value(n.data) {
            None => Err(TxErrorView::Invalid(InvalidityView::Undecodable { address: n.address })),
            Some(j) => match j.shape {
                ShapeView::Null => Ok(Seq::empty()),
                ShapeView::Object => match json_members(n.data) {
                    Some(m) => Ok(m),
                    None => Err(TxErrorView::Invalid(InvalidityView::Undecodable { address: n.address })),
                },
                _ => Err(TxErrorView::Invalid(InvalidityView::NotObject { address: n.address })),
            },
        }
    }
}

/// The value is as expected.
pub open spec fn meets(current: Option<JsonView>, expect: ExpectationView) -> bool {
    match expect {
        ExpectationView::AtMost(bound) => current matches Some(j) && j.shape matches ShapeView::Number { unsigned, bits }
            && !is_nan(bits) && !is_nan(bound) && order_bits(bits) <= order_bits(bound),
        ExpectationView::Equals(v) => current matches Some(j) && json_equal(j.text, v.text),
        ExpectationView::Absent => current matches Some(j) ==> j.shape is Null,
    }
}

/// The members with several of them set, one after the other.
pub open spec fn with_set(
    m: Seq<(Seq<char>, Seq<char>)>,
    set: Seq<(Seq<char>, Seq<char>)>,
) -> Seq<(Seq<char>, Seq<char>)>
    decreases set.len(),
{
    if set.len() == 0 {
        m
    } else {
        with_member(with_set(m, set.drop_last()), set.last().0, set.last().1)
    }
}

/// What a change sets, each as its name and text.
pub open spec fn set_view(set: Seq<(String, Json)>) -> Seq<(Seq<char>, Seq<char>)> {
    Seq::new(set.len(), |i: int| (set[i].0@, set[i].1@.text))
}

/// The value of a member.
pub open spec fn member_value(m: Seq<(Seq<char>, Seq<char>)>, name: Seq<char>) -> Option<JsonView> {
    match member_text(m, name) {
        Some(text) => json_value(text),
        None => None,
    }
}

/// The node after a conditional change.
pub open spec fn set_if(
    n: NodeView,
    name: Seq<char>,
    expect: ExpectationView,
    set: Seq<(Seq<char>, Seq<char>)>,
) -> Result<NodeView, TxErrorView> {
    match base_members(n) {
        Err(e) => Err(e),
        Ok(m) => if !meets(member_value(m, name), expect) {
            Err(TxErrorView::Precondition(UnmetView::SetIf { address: n.address, field: name }))
        } else {
            match json_object(with_set(m, set)) {
                Some(text) => Ok(NodeView { data: text, ..n }),
                None => Err(TxErrorView::Invalid(InvalidityView::Undecodable { address: n.address })),
            }
        },
    }
}

fn expectation_met(current: &Option<Json>, expect: &Expectation) -> (r: bool)
    ensures
        r == meets(crate::json::json_view(*current), expect@),
{
    match expect {
        Expectation::AtMost(bound) => match current {
            Some(Json { text: _, shape: Shape::Number { unsigned: _, bits } }) => at_most(*bits, *bound),
            _ => false,
        },
        Expectation::Equals(v) => match current {
            Some(j) => same_value(j, v),
            None => false,
        },
        Expectation::Absent => match current {
            Some(j) => j.is_null(),
            None => true,
        },
    }
}

/// The node after a conditional change.
pub fn set_if_next(node: &Node, name: &str, expect: &Expectation, set: &Vec<(String, Json)>) -> (r: Result<
    Node,
    TransactionError,
>)
    ensures
        match r {
            Ok(n) => set_if(node@, name@, expect@, set_view(set@)) == Ok::<NodeView, TxErrorView>(n@),
            Err(e) => set_if(node@, name@, expect@, set_view(set@)) == Err::<NodeView, TxErrorView>(e@),
        },
{
    let blank: bool = trim(&node.data).as_bytes().len() == 0;
    proof {
        lemma_blank(trimmed_text(node@.data));
    }
    let mut list: Vec<(String, String)> = if blank {
        Vec::new()
    } else {
        match value(&node.data) {
            None => {
                return Err(TransactionError::Invalid(Invalidity::Undecodable { address: node.address.clone() }));
            },
            Some(j) => match &j.shape {
                Shape::Null => Vec::new(),
                Shape::Object => match members(&node.data) {
                    Some(list) => list,
                    None => {
                        return Err(
                            TransactionError::Invalid(Invalidity::Undecodable { address: node.address.clone() }),
                        );
                    },
                },
                _ => {
                    return Err(
                        TransactionError::Invalid(Invalidity::NotObject { address: node.address.clone() }),
                    );
                },
            },
        }
    };
    let ghost m = members_view(list@);
    proof {
        assert(base_members(node@) == Ok::<Seq<(Seq<char>, Seq<char>)>, TxErrorView>(m)) by {
            if m.len() == 0 {
                assert(m =~= Seq::<(Seq<char>, Seq<char>)>::empty());
            }
        }
    }
    let current: Option<Json> = match member(&list, name) {
        Some(text) => value(&text),
        None => None,
    };
    if !expectation_met(&current, expect) {
        return Err(
            TransactionError::Precondition(
                Unmet::SetIf { address: node.address.clone(), field: crate::text::own(name) },
            ),
        );
    }
    let ghost view = set_view(set@);
    let mut i: usize = 0;
    proof {
        assert(view.take(0) =~= Seq::<(Seq<char>, Seq<char>)>::empty());
    }
    while i < set.len()
        invariant
            i <= set@.len(),
            view == set_view(set@),
            members_view(list@) == with_set(m, view.take(i as int)),
        decreases set.len() - i,
    {
        let (key, v) = &set[i];
        set_member(&mut list, key, &v.text);
        proof {
            let next = view.take(i + 1);
            assert(next.drop_last() =~= view.take(i as int));
            assert(next.last() == view[i as int]);
        }
        i = i + 1;
    }
    proof {
        assert(view.take(view.len() as int) =~= view);
    }
    match object(&list) {
        Some(text) => {
            let mut next = node.copy();
            next.data = text;
            Ok(next)
        },
        None => Err(TransactionError::Invalid(Invalidity::Undecodable { address: node.address.clone() })),
    }
}

/// A text is empty just where its bytes are.
proof fn lemma_blank(t: Seq<char>)
    ensures
        utf8(t).len() == 0 <==> t.len() == 0,
{
    crate::text::lemma_utf8_injective(t, Seq::empty());
    vstd::utf8::is_ascii_chars_encode_utf8(Seq::empty());
    if utf8(t).len() == 0 {
        assert(utf8(t) =~= utf8(Seq::<char>::empty()));
    }
    if t.len() == 0 {
        assert(t =~= Seq::<char>::empty());
    }
}

} // verus!
