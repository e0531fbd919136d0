//! Users of the database.

use vstd::prelude::*;

use crate::binary::{replay_users, UserOpView};
use crate::engine::batch::{changes, marks};
use crate::engine::StorageEngine;
use crate::tables::users::{is_compacted, lists_users, user_list};
use crate::transaction::TransactionError;
use crate::types::{UserRecord, UserView};
use crate::wal::{operations_view, Operation, OperationView};

verus! {

/// Records in the log of users that it may have, whatever the number of
/// users.
pub const MIN_USER_LOG: usize = 64;

/// The outcome of keeping a user.
pub open spec fn puts_user(
    r: Result<(), TransactionError>,
    before: StorageEngine,
    after: StorageEngine,
    u: UserView,
) -> bool {
    changes(r, before, after, seq![OperationView::InsertUser(u)], true)
}

/// The outcome of forgetting a user.
pub open spec fn revokes_user(
    r: Result<(), TransactionError>,
    before: StorageEngine,
    after: StorageEngine,
    token_hash: Seq<char>,
) -> bool {
    changes(r, before, after, seq![OperationView::RevokeUser(token_hash)], true)
}

/// The user with this token.
pub open spec fn finds_user(r: Option<UserRecord>, e: StorageEngine, token_hash: Seq<char>) -> bool {
    match r {
        Some(u) => e@.users.contains_key(token_hash) && u@ == e@.users[token_hash],
        None => !e@.users.contains_key(token_hash),
    }
}

impl StorageEngine {
    /// Records in the log of users.
    pub closed spec fn user_records(&self) -> nat {
        self.tables.user_records()
    }

    /// The operations in the log of users.
    pub closed spec fn user_log_view(&self) -> Seq<UserOpView> {
        self.tables.user_log_view()
    }

    /// Keeps a user, in place of one with the same token.
    pub fn insert_user(&mut self, record: UserRecord) -> (r: Result<(), TransactionError>)
        requires
            old(self).inv(),
        ensures
            final(self).inv(),
            puts_user(r, *old(self), *final(self), record@),
    {
        let ghost u = record@;
        let mut ops: Vec<Operation> = Vec::new();
        ops.push(Operation::InsertUser(record));
        proof {
            assert(operations_view(ops@) =~= seq![OperationView::InsertUser(u)]);
        }
        self.apply_atomic(ops, true)
    }

    /// Forgets the user with this token.
    pub fn revoke_user(&mut self, token_hash: &str) -> (r: Result<(), TransactionError>)
        requires
            old(self).inv(),
        ensures
            final(self).inv(),
            revokes_user(r, *old(self), *final(self), token_hash@),
    {
        let mut ops: Vec<Operation> = Vec::new();
        ops.push(Operation::RevokeUser(crate::text::own(token_hash)));
        proof {
            assert(operations_view(ops@) =~= seq![OperationView::RevokeUser(token_hash@)]);
        }
        self.apply_atomic(ops, true)
    }

    /// Writes the log of users anew where it has grown to more than four
    /// records for each user, and to more than it may have anyway; says
    /// whether it did.
    pub fn compact_user_log(&mut self) -> (r: bool)
        requires
            old(self).inv(),
            !old(self).failed(),
        ensures
            final(self).inv(),
            !final(self).failed(),
            final(self)@ == old(self)@,
            marks(*final(self)) == marks(*old(self)),
            final(self).last_operation() == old(self).last_operation(),
            final(self).limits() == old(self).limits(),
            final(self).readers() == old(self).readers(),
            final(self).retired() == old(self).retired(),
            final(self).epoch() == old(self).epoch(),
            replay_users(old(self).user_log_view()) == old(self)@.users,
            replay_users(final(self).user_log_view()) == old(self)@.users,
            r == (old(self).user_records() > MIN_USER_LOG && old(self).user_records() > 4 * old(self)@.users.len()),
            r ==> final(self).user_records() == old(self)@.users.len(),
            r ==> is_compacted(final(self).user_log_view(), old(self)@.users),
            !r ==> final(self).user_log_view() == old(self).user_log_view(),
            old(self).user_records() == old(self).user_log_view().len(),
            final(self).user_records() == final(self).user_log_view().len(),
    {
        let users: usize = self.tables.user_count();
        let many: usize = if users > usize::MAX / 4 {
            usize::MAX
        } else {
            users * 4
        };
        let threshold: usize = if many > MIN_USER_LOG {
            many
        } else {
            MIN_USER_LOG
        };
        let ghost before = *self;
        let r = self.tables.compact_user_log(threshold);
        proof {
            assert forall|k: int| 0 <= k < self.retired@.len() implies self.tables.spare(
                (#[trigger] self.retired@[k]).0,
            ) by {
                assert(before.tables.spare(before.retired@[k].0));
                crate::tables::compact::lemma_spare_kept(before.tables, self.tables, self.retired@[k].0);
            }
            before.tables.lemma_user_records();
            self.tables.lemma_user_records();
            before.tables.lemma_user_log();
            self.tables.lemma_user_log();
        }
        r
    }

    /// The user with this token.
    pub fn find_user_by_hash(&self, token_hash: &str) -> (r: Option<UserRecord>)
        requires
            self.inv(),
            !self.failed(),
        ensures
            finds_user(r, *self, token_hash@),
    {
        self.tables.find_user(token_hash)
    }

    /// All users, each once.
    pub fn list_users(&self) -> (r: Vec<UserRecord>)
        requires
            self.inv(),
            !self.failed(),
        ensures
            lists_users(user_list(r@), self@.users),
    {
        self.tables.list_users()
    }
}

} // verus!
