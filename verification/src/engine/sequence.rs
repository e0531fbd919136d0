//! Sequences: numbers that are handed out once.

use vstd::prelude::*;

use crate::decimal::digits_of;
use crate::engine::write::inserts;
use crate::engine::StorageEngine;
use crate::json::{
    all_shallow, field, field_of, json_members, json_object, json_value, member_text, members_view, names_differ,
    number, object, same_members, Shape, ShapeView,
};
use crate::tables::model::DbView;
use crate::tables::read::node_in;
use crate::text::{own, utf8};
use crate::transaction::{StorageFault, TransactionError};
use crate::types::{Coordinate, Node, NodeView, Visibility};

verus! {

/// The kind of the nodes that hold sequences.
pub const SEQUENCE_KIND: &'static str = "__sequence";

/// Most bytes of a sequence's name.
pub const MAX_SEQUENCE_NAME: usize = 128;

/// Most numbers taken at once.
pub const MAX_SEQUENCE_BLOCK: u64 = 100_000;

/// Why no numbers were handed out.
#[derive(Debug)]
pub enum SequenceError {
    /// None at all, or too many at once.
    Block { count: u64 },
    /// The name is empty, too long, or has a colon in it.
    Name,
    /// The sequence belongs to another.
    NotAuthorized,
    /// There are no numbers left.
    Exhausted { start: u64 },
    Write(TransactionError),
}

/// The text has a colon in it.
pub open spec fn has_colon(name: Seq<char>) -> bool {
    exists|i: int| 0 <= i < utf8(name).len() && #[trigger] utf8(name)[i] == 0x3a
}

pub open spec fn is_sequence_name(name: Seq<char>) -> bool {
    1 <= utf8(name).len() <= MAX_SEQUENCE_NAME && !has_colon(name)
}

/// Where the sequence is.
pub open spec fn sequence_address(name: Seq<char>) -> Seq<char> {
    SEQUENCE_KIND@ + ":"@ + name
}

/// The number that the member `next` of the data is, or 1.
pub open spec fn next_in(data: Seq<char>) -> u64 {
    match field_of(data, "next"@) {
        Some(j) => match j.shape {
            ShapeView::Number { unsigned: Some(n), bits } => n,
            _ => 1,
        },
        None => 1,
    }
}

/// The number that the sequence hands out next.
pub open spec fn sequence_value(db: DbView, name: Seq<char>) -> u64 {
    match node_in(db.nodes, sequence_address(name)) {
        Some(n) => next_in(n.data),
        None => 1,
    }
}

/// The node that holds a sequence.
pub open spec fn sequence_node(db: DbView, name: Seq<char>, owner: Seq<char>, data: Seq<char>) -> NodeView {
    NodeView {
        coordinate: Coordinate { x: 0, y: 0, z: 0, w: 0 },
        address: sequence_address(name),
        kind: SEQUENCE_KIND@,
        owner: match node_in(db.nodes, sequence_address(name)) {
            Some(n) => n.owner,
            None => owner,
        },
        data,
        visibility: Visibility::Private,
        claimed_by: None,
    }
}

/// The texts with which a sequence's data says what comes next.
pub open spec fn says_next(data: Seq<char>, next: u64) -> bool {
    &&& next_in(data) == next
    &&& exists|digits: Seq<char>| {
        &&& utf8(digits) == digits_of(next as nat)
        &&& #[trigger] json_object(seq![("next"@, digits)]) == Some(data)
    }
}

/// The outcome of taking numbers from a sequence.
pub open spec fn takes(
    r: Result<u64, SequenceError>,
    before: StorageEngine,
    after: StorageEngine,
    name: Seq<char>,
    count: u64,
    owner: Seq<char>,
    is_admin: bool,
) -> bool {
    let held = node_in(before@.nodes, sequence_address(name));
    let start = sequence_value(before@, name);
    let open = held matches Some(n) ==> is_admin || n.writable_by(owner);
    if !(1 <= count <= MAX_SEQUENCE_BLOCK) {
        r matches Err(SequenceError::Block { count: n }) && n == count && before.unmoved(&after)
    } else if !is_sequence_name(name) {
        r matches Err(SequenceError::Name) && before.unmoved(&after)
    } else if before.failed() {
        r matches Err(SequenceError::Write(TransactionError::Storage(StorageFault::Failed))) && before.unmoved(&after)
    } else if !open {
        r matches Err(SequenceError::NotAuthorized) && before.unmoved(&after)
    } else if start + count > u64::MAX {
        r matches Err(SequenceError::Exhausted { start: n }) && n == start && before.unmoved(&after)
    } else {
        exists|data: Seq<char>| {
            &&& #[trigger] says_next(data, (start + count) as u64)
            &&& match r {
                Ok(first) => first == start && inserts(
                    Ok(()),
                    before,
                    after,
                    sequence_node(before@, name, owner, data),
                ),
                Err(SequenceError::Write(e)) => inserts(
                    Err(e),
                    before,
                    after,
                    sequence_node(before@, name, owner, data),
                ),
                Err(_) => false,
            }
        }
    }
}

fn check_name(name: &str) -> (r: bool)
    ensures
        r == is_sequence_name(name@),
{
    let bytes = name.as_bytes();
    assert(bytes@.len() == bytes.len());
    if bytes.len() == 0 || bytes.len() > MAX_SEQUENCE_NAME {
        return false;
    }
    let mut i: usize = 0;
    while i < bytes.len()
        invariant
            i <= bytes@.len(),
            bytes@ == utf8(name@),
            1 <= bytes@.len() <= MAX_SEQUENCE_NAME,
            forall|k: int| 0 <= k < i ==> #[trigger] utf8(name@)[k] != 0x3a,
        decreases bytes.len() - i,
    {
        if bytes[i] == 0x3au8 {
            assert(utf8(name@)[i as int] == 0x3a);
            return false;
        }
        i = i + 1;
    }
    true
}

/// Data that says what comes next.
fn next_data(next: u64) -> (r: String)
    ensures
        says_next(r@, next),
{
    let digits = number(next);
    let ghost d = digits@;
    let mut list: Vec<(String, String)> = Vec::new();
    list.push((own("next"), digits.text));
    let ghost m = members_view(list@);
    proof {
        assert(m =~= seq![("next"@, d.text)]);
        assert(all_shallow(m));
        assert(names_differ(m));
        reveal_with_fuel(crate::json::member_index, 2);
        assert(member_text(m, "next"@) == Some(d.text));
    }
    match object(&list) {
        Some(text) => {
            proof {
                let n = json_members(text@)->0;
                assert(same_members(n, m));
                assert(member_text(n, "next"@) is Some);
                assert(json_value(member_text(n, "next"@)->0) == json_value(d.text));
                assert(json_object(seq![("next"@, d.text)]) == Some(text@));
            }
            text
        },
        None => String::new(),
    }
}

impl StorageEngine {
    /// Hands out the next `count` numbers of a sequence: the first of them.
    /// They are not handed out again.
    pub fn sequence_next(&mut self, name: &str, count: u64, owner: &str, is_admin: bool) -> (r: Result<
        u64,
        SequenceError,
    >)
        requires
            old(self).inv(),
        ensures
            final(self).inv(),
            takes(r, *old(self), *final(self), name@, count, owner@, is_admin),
    {
        let ghost start = *self;
        if count == 0 || count > MAX_SEQUENCE_BLOCK {
            return Err(SequenceError::Block { count });
        }
        if !check_name(name) {
            return Err(SequenceError::Name);
        }
        if self.failed {
            return Err(SequenceError::Write(TransactionError::Storage(StorageFault::Failed)));
        }
        let address: String = own(SEQUENCE_KIND).concat(":").concat(name);
        proof {
            assert(address@ =~= sequence_address(name@));
        }
        let previous = self.lookup(&address);
        proof {
            start.lemma_same(self);
        }
        let mut holder: String = own(owner);
        let mut first: u64 = 1;
        match &previous {
            Some(node) => {
                if !(is_admin || node.can_write(owner)) {
                    return Err(SequenceError::NotAuthorized);
                }
                holder = node.owner.clone();
                match field(&node.data, "next") {
                    Some(j) => match j.shape {
                        Shape::Number { unsigned: Some(n), bits: _ } => {
                            first = n;
                        },
                        _ => {},
                    },
                    None => {},
                }
            },
            None => {},
        }
        proof {
            assert(first == sequence_value(start@, name@));
        }
        let next: u64 = match first.checked_add(count) {
            Some(next) => next,
            None => { return Err(SequenceError::Exhausted { start: first }) },
        };
        let mut node = Node::new(Coordinate::new(0, 0, 0, 0), address, own(SEQUENCE_KIND), holder);
        node.data = next_data(next);
        proof {
            assert(node@ =~= sequence_node(start@, name@, owner@, node.data@));
            assert(says_next(node.data@, (sequence_value(start@, name@) + count) as u64));
        }
        match self.insert(node) {
            Ok(()) => Ok(first),
            Err(e) => Err(SequenceError::Write(e)),
        }
    }
}

/// Numbers are handed out once: as long as nothing else writes to the
/// sequence, a later block starts where an earlier one ends.
pub proof fn law_blocks_do_not_overlap(
    a: StorageEngine,
    b: StorageEngine,
    c: StorageEngine,
    d: StorageEngine,
    name: Seq<char>,
    first: u64,
    count: u64,
    owner: Seq<char>,
    is_admin: bool,
    later: u64,
    more: u64,
    other: Seq<char>,
    other_admin: bool,
)
    requires
        takes(Ok(first), a, b, name, count, owner, is_admin),
        takes(Ok(later), c, d, name, more, other, other_admin),
        node_in(c@.nodes, sequence_address(name)) == node_in(b@.nodes, sequence_address(name)),
    ensures
        later == first + count,
{
    let data = choose|data: Seq<char>| {
        &&& #[trigger] says_next(data, (first + count) as u64)
        &&& inserts(Ok(()), a, b, sequence_node(a@, name, owner, data))
    };
    let n = sequence_node(a@, name, owner, data);
    let ops = crate::engine::write::insertion(a@, n, crate::engine::write::next_version(a));
    lemma_inserted(a@, n, crate::engine::write::next_version(a));
    assert(node_in(b@.nodes, sequence_address(name)) == Some(n));
}

/// After an insertion the node is there.
pub proof fn lemma_inserted(db: DbView, n: NodeView, version: u64)
    ensures
        crate::tables::model::applied_all(db, crate::engine::write::insertion(db, n, version)).nodes == db.nodes.insert(
            n.address,
            n,
        ),
{
    let ops = crate::engine::write::insertion(db, n, version);
    reveal_with_fuel(crate::tables::model::applied_all, 3);
    if ops.len() == 2 {
        assert(ops.drop_last() =~= seq![ops[0]]);
        assert(ops.drop_last().drop_last() =~= Seq::<crate::wal::OperationView>::empty());
    } else {
        assert(ops.drop_last() =~= Seq::<crate::wal::OperationView>::empty());
    }
}

} // verus!
