//! Walking over a range of a tree, one entry at a time.

use vstd::prelude::*;

use crate::btree::walk::{
    ahead, cursor_after, cursor_view, is_next, lemma_next_unique, lemma_walk, lemma_walk_reaches, lemma_walk_sorted,
    walk_keys, walk_step,
};
use crate::btree::BTree;
use crate::bytes::{bytes_lt, has_prefix};

verus! {

/// A walk over the entries of a tree whose keys begin with a prefix.
pub struct Walk<'a> {
    tree: &'a BTree,
    prefix: Vec<u8>,
    cursor: Option<Vec<u8>>,
    reverse: bool,
    start: Ghost<Option<Seq<u8>>>,
    done: Ghost<nat>,
}

/// `b` comes after `a` in the direction of a walk.
pub open spec fn past(a: Seq<u8>, b: Seq<u8>, reverse: bool) -> bool {
    if reverse {
        bytes_lt(b, a)
    } else {
        bytes_lt(a, b)
    }
}

impl<'a> Walk<'a> {
    /// The entries of the tree.
    pub closed spec fn entries(&self) -> Map<Seq<u8>, Seq<u8>> {
        self.tree@
    }

    /// The keys of the whole walk.
    pub closed spec fn keys(&self) -> Seq<Seq<u8>> {
        walk_keys(self.tree@, self.prefix@, self.start@, self.reverse)
    }

    /// How many of them are behind.
    pub closed spec fn behind(&self) -> nat {
        self.done@
    }

    /// The walk stands where its cursor is.
    pub closed spec fn wf(&self) -> bool {
        &&& self.tree.wf()
        &&& self.behind() <= self.keys().len()
        &&& cursor_view(self.cursor) == cursor_after(self.start@, self.keys(), self.done@ as int)
    }

    /// Starts a walk, at the end of the prefix or strictly past `start`.
    pub fn new(tree: &'a BTree, prefix: Vec<u8>, start: Option<Vec<u8>>, reverse: bool) -> (r: Walk<'a>)
        requires
            tree.wf(),
        ensures
            r.wf(),
            r.behind() == 0,
            r.entries() == tree@,
            r.keys() == walk_keys(tree@, prefix@, cursor_view(start), reverse),
    {
        Walk {
            tree,
            prefix,
            start: Ghost(cursor_view(start)),
            cursor: start,
            reverse,
            done: Ghost(0),
        }
    }

    /// The next entry, if there is one more.
    pub fn next(&mut self) -> (r: Option<(Vec<u8>, Vec<u8>)>)
        requires
            old(self).wf(),
        ensures
            final(self).wf(),
            final(self).keys() == old(self).keys(),
            final(self).entries() == old(self).entries(),
            match r {
                Some((k, v)) => {
                    &&& old(self).behind() < old(self).keys().len()
                    &&& final(self).behind() == old(self).behind() + 1
                    &&& k@ == old(self).keys()[old(self).behind() as int]
                    &&& old(self).entries().contains_key(k@)
                    &&& v@ == old(self).entries()[k@]
                },
                None => {
                    &&& old(self).behind() == old(self).keys().len()
                    &&& final(self).behind() == old(self).behind()
                },
            },
    {
        let ghost m = self.tree@;
        let ghost all = self.keys();
        let ghost i = self.done@ as int;
        proof {
            self.tree.lemma_wf();
            lemma_walk(m, self.prefix@, self.start@, self.reverse);
            if i < all.len() {
                assert(walk_step(m, self.prefix@, self.start@, self.reverse, all, i));
            }
        }
        match self.tree.range_next(&self.prefix, &self.cursor, self.reverse) {
            Some((k, v)) => {
                proof {
                    if i < all.len() {
                        lemma_next_unique(
                            m,
                            self.prefix@,
                            cursor_after(self.start@, all, i),
                            self.reverse,
                            all[i],
                            k@,
                        );
                    }
                    self.done = Ghost((i + 1) as nat);
                }
                self.cursor = Some(crate::bytes::copy_bytes(&k));
                Some((k, v))
            },
            None => {
                proof {
                    if i < all.len() {
                        assert(is_next(
                            m,
                            self.prefix@,
                            cursor_after(self.start@, all, i),
                            self.reverse,
                            all[i],
                        ));
                    }
                }
                None
            },
        }
    }
}

/// One walk after another.
pub struct Walks<'a> {
    first: Walk<'a>,
    second: Option<Walk<'a>>,
}

impl<'a> Walks<'a> {
    /// The keys of both walks.
    pub closed spec fn keys(&self) -> Seq<Seq<u8>> {
        match self.second {
            Some(w) => self.first.keys() + w.keys(),
            None => self.first.keys(),
        }
    }

    /// How many of them are behind.
    pub closed spec fn behind(&self) -> nat {
        match self.second {
            Some(w) => self.first.behind() + w.behind(),
            None => self.first.behind(),
        }
    }

    /// The second walk begins where the first ends.
    pub closed spec fn wf(&self) -> bool {
        &&& self.first.wf()
        &&& self.first.behind() <= self.first.keys().len()
        &&& self.second matches Some(w) ==> {
            &&& w.wf()
            &&& w.behind() <= w.keys().len()
            &&& w.behind() > 0 ==> self.first.behind() == self.first.keys().len()
        }
    }

    pub fn one(first: Walk<'a>) -> (r: Walks<'a>)
        requires
            first.wf(),
            first.behind() == 0,
        ensures
            r.wf(),
            r.behind() == 0,
            r.keys() == first.keys(),
    {
        Walks { first, second: None }
    }

    pub fn two(first: Walk<'a>, second: Walk<'a>) -> (r: Walks<'a>)
        requires
            first.wf(),
            first.behind() == 0,
            second.wf(),
            second.behind() == 0,
        ensures
            r.wf(),
            r.behind() == 0,
            r.keys() == first.keys() + second.keys(),
    {
        Walks { first, second: Some(second) }
    }

    /// The next key, if there is one more.
    pub fn next(&mut self) -> (r: Option<Vec<u8>>)
        requires
            old(self).wf(),
        ensures
            final(self).wf(),
            final(self).keys() == old(self).keys(),
            match r {
                Some(k) => {
                    &&& old(self).behind() < old(self).keys().len()
                    &&& final(self).behind() == old(self).behind() + 1
                    &&& k@ == old(self).keys()[old(self).behind() as int]
                },
                None => {
                    &&& old(self).behind() == old(self).keys().len()
                    &&& final(self).behind() == old(self).behind()
                },
            },
    {
        if let Some((k, _)) = self.first.next() {
            return Some(k);
        }
        match &mut self.second {
            Some(w) => match w.next() {
                Some((k, _)) => Some(k),
                None => None,
            },
            None => None,
        }
    }
}

/// What the keys of a walk are: keys of the tree with the prefix, past the
/// start, in order; and all of them.
pub proof fn lemma_walk_facts(
    m: Map<Seq<u8>, Seq<u8>>,
    prefix: Seq<u8>,
    start: Option<Seq<u8>>,
    reverse: bool,
)
    requires
        m.dom().finite(),
    ensures
        ({
            let ks = walk_keys(m, prefix, start, reverse);
            &&& forall|i: int, j: int| 0 <= i < j < ks.len() ==> past(#[trigger] ks[i], #[trigger] ks[j], reverse)
            &&& forall|i: int|
                0 <= i < ks.len() ==> m.contains_key(#[trigger] ks[i]) && has_prefix(ks[i], prefix) && (
                start matches Some(s) ==> past(s, ks[i], reverse))
            &&& forall|k: Seq<u8>| #[trigger]
                m.contains_key(k) && has_prefix(k, prefix) && (start matches Some(s) ==> past(s, k, reverse))
                    ==> ks.contains(k)
        }),
{
    lemma_walk(m, prefix, start, reverse);
    let ks = walk_keys(m, prefix, start, reverse);
    assert forall|i: int, j: int| 0 <= i < j < ks.len() implies past(#[trigger] ks[i], #[trigger] ks[j], reverse) by {
        lemma_walk_sorted(m, prefix, start, reverse, ks, i, j);
    }
    assert forall|i: int| 0 <= i < ks.len() implies m.contains_key(#[trigger] ks[i]) && has_prefix(ks[i], prefix) && (
    start matches Some(s) ==> past(s, ks[i], reverse)) by {
        assert(walk_step(m, prefix, start, reverse, ks, i));
        if i > 0 {
            assert(walk_step(m, prefix, start, reverse, ks, 0));
            lemma_walk_sorted(m, prefix, start, reverse, ks, 0, i);
            match start {
                Some(s) => {
                    if reverse {
                        crate::bytes::lemma_lt_transitive(ks[i], ks[0], s);
                    } else {
                        crate::bytes::lemma_lt_transitive(s, ks[0], ks[i]);
                    }
                },
                None => {},
            }
        }
    }
    assert forall|k: Seq<u8>| #[trigger]
        m.contains_key(k) && has_prefix(k, prefix) && (start matches Some(s) ==> past(s, k, reverse)) implies ks.contains(
        k,
    ) by {
        assert(ahead(prefix, start, reverse, k));
        lemma_walk_reaches(m, prefix, start, reverse, ks, k);
    }
}

} // verus!
