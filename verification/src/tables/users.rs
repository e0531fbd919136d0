//! Users.

use vstd::prelude::*;

use crate::binary::{replay_users, UserOpRecord, UserOpView};
use crate::tables::{user_ops, Tables};
use crate::types::{UserRecord, UserView};

verus! {

pub open spec fn user_list(list: Seq<UserRecord>) -> Seq<UserView> {
    Seq::new(list.len(), |i: int| list[i]@)
}

/// The list holds the users, each once.
pub open spec fn lists_users(list: Seq<UserView>, users: Map<Seq<char>, UserView>) -> bool {
    &&& forall|i: int, j: int|
        0 <= i < j < list.len() ==> (#[trigger] list[i]).token_hash != (#[trigger] list[j]).token_hash
    &&& forall|i: int|
        0 <= i < list.len() ==> users.contains_key((#[trigger] list[i]).token_hash) && users[list[i].token_hash]
            == list[i]
    &&& forall|h: Seq<char>| #[trigger] users.contains_key(h) ==> list.contains(users[h])
}

proof fn lemma_replayed_hash(log: Seq<UserOpView>, h: Seq<char>)
    requires
        replay_users(log).contains_key(h),
    ensures
        replay_users(log)[h].token_hash == h,
    decreases log.len(),
{
    if log.len() > 0 {
        match log.last() {
            UserOpView::Put(u) => {
                if u.token_hash != h {
                    lemma_replayed_hash(log.drop_last(), h);
                }
            },
            UserOpView::Revoke(r) => {
                lemma_replayed_hash(log.drop_last(), h);
            },
        }
    }
}

/// Records that put the users of a list.
pub open spec fn puts(list: Seq<UserView>) -> Seq<UserOpView> {
    Seq::new(list.len(), |i: int| UserOpView::Put(list[i]))
}

/// The log puts each user once, and nothing else.
pub open spec fn is_compacted(log: Seq<UserOpView>, users: Map<Seq<char>, UserView>) -> bool {
    exists|list: Seq<UserView>| lists_users(list, users) && log == #[trigger] puts(list)
}

proof fn lemma_puts(list: Seq<UserView>, n: int, h: Seq<char>)
    requires
        0 <= n <= list.len(),
        forall|i: int, j: int|
            0 <= i < j < list.len() ==> (#[trigger] list[i]).token_hash != (#[trigger] list[j]).token_hash,
    ensures
        replay_users(puts(list.take(n))).contains_key(h) <==> exists|i: int|
            0 <= i < n && (#[trigger] list[i]).token_hash == h,
        forall|i: int|
            0 <= i < n && (#[trigger] list[i]).token_hash == h ==> replay_users(puts(list.take(n)))[h] == list[i],
    decreases n,
{
    let log = puts(list.take(n));
    if n > 0 {
        assert(log.drop_last() =~= puts(list.take(n - 1)));
        assert(log.last() == UserOpView::Put(list[n - 1]));
        lemma_puts(list, n - 1, h);
        if list[n - 1].token_hash == h {
            assert(list[n - 1].token_hash == h);
        } else if replay_users(puts(list.take(n - 1))).contains_key(h) {
            let i = choose|i: int| 0 <= i < n - 1 && (#[trigger] list[i]).token_hash == h;
            assert(list[i].token_hash == h);
        }
    } else {
        assert(log =~= Seq::<UserOpView>::empty());
    }
}

impl Tables {
    /// Records in the log of users.
    pub closed spec fn user_records(&self) -> nat {
        self.user_log@.len()
    }

    /// The operations in the log of users.
    pub closed spec fn user_log_view(&self) -> Seq<UserOpView> {
        user_ops(self.user_log@)
    }

    /// Replaying the log of users gives the users.
    pub proof fn lemma_user_log(&self)
        requires
            self.inv(),
        ensures
            replay_users(self.user_log_view()) == self@.users,
    {
    }

    pub proof fn lemma_user_records(&self)
        ensures
            self.user_records() <= usize::MAX,
            self.user_records() == self.user_log_view().len(),
    {
        assert(self.user_log@.len() == self.user_log.len());
    }

    pub(crate) fn user_count(&self) -> (r: usize)
        requires
            self.inv(),
        ensures
            r == self@.users.len(),
            self@.users.dom().finite(),
    {
        proof {
            self.lemma_user_count();
        }
        self.users.len()
    }

    /// The user with this token.
    pub(crate) fn find_user(&self, token_hash: &str) -> (r: Option<UserRecord>)
        requires
            self.inv(),
        ensures
            match r {
                Some(u) => self@.users.contains_key(token_hash@) && u@ == self@.users[token_hash@],
                None => !self@.users.contains_key(token_hash@),
            },
    {
        match self.users.get(token_hash) {
            Some(u) => Some(u.copy()),
            None => None,
        }
    }

    /// All users.
    pub(crate) fn list_users(&self) -> (r: Vec<UserRecord>)
        requires
            self.inv(),
        ensures
            lists_users(user_list(r@), self@.users),
            r@.len() == self@.users.len(),
    {
        let mut out: Vec<UserRecord> = Vec::new();
        let n: usize = self.users.len();
        let ghost keys = self.users.keys();
        let mut i: usize = 0;
        while i < n
            invariant
                self.inv(),
                keys == self.users.keys(),
                n == keys.len(),
                i <= n,
                out@.len() == i,
                forall|k: int|
                    0 <= k < i ==> self@.users.contains_key(#[trigger] keys[k]) && out@[k]@ == self@.users[keys[k]],
            decreases n - i,
        {
            let u = self.users.value_at(i);
            out.push(u.copy());
            i = i + 1;
        }
        proof {
            self.lemma_user_count();
            let list = user_list(out@);
            self.users.lemma_keys();
            assert forall|k: int| 0 <= k < list.len() implies (#[trigger] list[k]).token_hash == keys[k]
                && self@.users.contains_key(keys[k]) && list[k] == self@.users[keys[k]] by {
                assert(self@.users.contains_key(keys[k]));
                lemma_replayed_hash(user_ops(self.user_log@), keys[k]);
            }
            assert forall|h: Seq<char>| #[trigger] self@.users.contains_key(h) implies list.contains(self@.users[h]) by {
                assert(self.users@.contains_key(h));
                assert(keys.contains(h));
                let k = choose|k: int| 0 <= k < keys.len() && keys[k] == h;
                assert(list[k] == self@.users[h]);
            }
        }
        out
    }

    proof fn lemma_user_count(&self)
        requires
            self.inv(),
        ensures
            self.users.keys().len() == self@.users.len(),
            self@.users.dom().finite(),
    {
        self.users.lemma_keys();
        let keys = self.users.keys();
        keys.unique_seq_to_set();
        vstd::seq_lib::seq_to_set_is_finite(keys);
        assert(self@.users.dom() =~= keys.to_set());
    }

    /// Writes the log of users anew, with one record for each, where it has
    /// more than `threshold`.
    pub(crate) fn compact_user_log(&mut self, threshold: usize) -> (r: bool)
        requires
            old(self).inv(),
        ensures
            final(self).inv(),
            final(self)@ == old(self)@,
            final(self).heap() == old(self).heap(),
            old(self).keeps_spare(final(self)),
            r == (old(self).user_records() > threshold),
            !r ==> *final(self) == *old(self),
            r ==> final(self).user_records() == old(self)@.users.len(),
            r ==> is_compacted(final(self).user_log_view(), old(self)@.users),
    {
        proof {
            reveal(Tables::keeps_spare);
        }
        if self.user_log.len() <= threshold {
            return false;
        }
        let list = self.list_users();
        let mut log: Vec<UserOpRecord> = Vec::new();
        let mut i: usize = 0;
        while i < list.len()
            invariant
                i <= list@.len(),
                log@.len() == i,
                forall|k: int| 0 <= k < i ==> (#[trigger] log@[k])@ == UserOpView::Put(list@[k]@),
            decreases list.len() - i,
        {
            log.push(UserOpRecord::Put(list[i].copy()));
            i = i + 1;
        }
        let ghost view = user_list(list@);
        self.user_log = log;
        proof {
            assert(user_ops(self.user_log@) =~= puts(view)) by {
                assert forall|k: int| 0 <= k < view.len() implies user_ops(self.user_log@)[k] == puts(view)[k] by {
                    assert(self.user_log@[k]@ == UserOpView::Put(list@[k]@));
                }
            }
            assert(view.take(view.len() as int) =~= view);
            let users = self.db@.users;
            let again = replay_users(puts(view));
            assert forall|h: Seq<char>| again.contains_key(h) <==> #[trigger] users.contains_key(h) by {
                lemma_puts(view, view.len() as int, h);
                if users.contains_key(h) {
                    let k = choose|k: int| 0 <= k < view.len() && view[k] == users[h];
                    lemma_replayed_hash(user_ops(old(self).user_log@), h);
                    assert(view[k].token_hash == h);
                }
            }
            assert forall|h: Seq<char>| again.contains_key(h) implies again[h] == #[trigger] users[h] by {
                lemma_puts(view, view.len() as int, h);
                let k = choose|k: int| 0 <= k < view.len() && (#[trigger] view[k]).token_hash == h;
                assert(again[h] == view[k]);
            }
            assert(again =~= users);
        }
        true
    }
}

} // verus!
