//! A bounded cache of decoded records.
//!
//! It makes repeated reads cheap and decides nothing: whatever it holds can
//! be read again from the heap. Entries are found by location, which names
//! one version of one record, and the entry used longest ago goes first.

use vstd::prelude::*;

use crate::types::{Node, NodeView, RecordLocation};

verus! {

/// Records held unless the application says otherwise.
pub const DEFAULT_CAPACITY: usize = 4096;

/// The most recently used records.
pub struct RecordCache {
    /// From the one used longest ago to the one used last.
    entries: Vec<(RecordLocation, Node)>,
    capacity: usize,
}

pub type CacheView = Seq<(RecordLocation, NodeView)>;

/// The entry for `location` among `entries`, if there is one.
pub open spec fn cached(entries: CacheView, location: RecordLocation) -> Option<NodeView> {
    if exists|i: int| 0 <= i < entries.len() && (#[trigger] entries[i]).0 == location {
        Some(entries[entry_index(entries, location)].1)
    } else {
        None
    }
}

pub open spec fn entry_index(entries: CacheView, location: RecordLocation) -> int {
    choose|i: int| 0 <= i < entries.len() && (#[trigger] entries[i]).0 == location
}

/// The entries without the one for `location`.
pub open spec fn without(entries: CacheView, location: RecordLocation) -> CacheView {
    if cached(entries, location) is Some {
        entries.remove(entry_index(entries, location))
    } else {
        entries
    }
}

/// The entries after a hit on `location`: the same, with that one last.
pub open spec fn refreshed(entries: CacheView, location: RecordLocation) -> CacheView {
    match cached(entries, location) {
        Some(node) => without(entries, location).push((location, node)),
        None => entries,
    }
}

/// The entries after `node` came in at `location`: it is last, and where
/// that is one too many the first is gone.
pub open spec fn stored(
    entries: CacheView,
    location: RecordLocation,
    node: NodeView,
    capacity: nat,
) -> CacheView {
    let full = without(entries, location).push((location, node));
    if full.len() > capacity {
        full.skip(1)
    } else {
        full
    }
}

impl View for RecordCache {
    type V = CacheView;

    closed spec fn view(&self) -> CacheView {
        Seq::new(self.entries@.len(), |i: int| (self.entries@[i].0, self.entries@[i].1@))
    }
}

impl RecordCache {
    /// Most entries that the cache holds at once.
    pub closed spec fn limit(&self) -> nat {
        self.capacity as nat
    }

    /// No location occurs twice, and there are no more entries than allowed.
    pub closed spec fn wf(&self) -> bool {
        &&& 0 < self.capacity
        &&& self.entries@.len() <= self.capacity
        &&& forall|i: int, j: int|
            0 <= i < j < self@.len() ==> (#[trigger] self@[i]).0 != (#[trigger] self@[j]).0
    }

    pub proof fn lemma_wf(&self)
        requires
            self.wf(),
        ensures
            self@.len() <= self.limit(),
            0 < self.limit(),
            forall|i: int, j: int|
                0 <= i < j < self@.len() ==> (#[trigger] self@[i]).0 != (#[trigger] self@[j]).0,
    {
    }

    /// An empty cache of the configured capacity, or of the default one
    /// where that is missing or zero.
    pub fn new(configured: Option<usize>) -> (r: RecordCache)
        ensures
            r.wf(),
            r@ == Seq::<(RecordLocation, NodeView)>::empty(),
            r.limit() == (match configured {
                Some(n) => if n > 0 {
                    n as nat
                } else {
                    DEFAULT_CAPACITY as nat
                },
                None => DEFAULT_CAPACITY as nat,
            }),
    {
        let capacity: usize = match configured {
            Some(n) => if n > 0 {
                n
            } else {
                DEFAULT_CAPACITY
            },
            None => DEFAULT_CAPACITY,
        };
        let r = RecordCache { entries: Vec::new(), capacity };
        proof {
            assert(r@ =~= Seq::<(RecordLocation, NodeView)>::empty());
        }
        r
    }

    fn position(&self, location: RecordLocation) -> (r: Option<usize>)
        requires
            self.wf(),
        ensures
            match r {
                Some(i) => {
                    &&& i < self@.len()
                    &&& self@[i as int].0 == location
                    &&& i == entry_index(self@, location)
                    &&& cached(self@, location) == Some(self@[i as int].1)
                },
                None => cached(self@, location) is None,
            },
    {
        let mut i: usize = 0;
        while i < self.entries.len()
            invariant
                self.wf(),
                i <= self.entries@.len(),
                forall|j: int| 0 <= j < i ==> (#[trigger] self@[j]).0 != location,
            decreases self.entries.len() - i,
        {
            if self.entries[i].0 == location {
                proof {
                    assert(self@[i as int].0 == location);
                    let k = entry_index(self@, location);
                    assert(k == i);
                }
                return Some(i);
            }
            i = i + 1;
        }
        None
    }

    /// The record at `location`, if it is here; it is then the last to go.
    pub fn get(&mut self, location: RecordLocation) -> (r: Option<Node>)
        requires
            old(self).wf(),
        ensures
            final(self).wf(),
            final(self).limit() == old(self).limit(),
            final(self)@ == refreshed(old(self)@, location),
            match r {
                Some(node) => cached(old(self)@, location) == Some(node@),
                None => cached(old(self)@, location) is None,
            },
    {
        match self.position(location) {
            Some(i) => {
                let entry = self.entries.remove(i);
                let node = entry.1.copy();
                self.entries.push(entry);
                proof {
                    assert(self@ =~= refreshed(old(self)@, location));
                    lemma_refreshed_distinct(old(self)@, location);
                }
                Some(node)
            },
            None => None,
        }
    }

    /// Keeps the record at `location`; where that is one too many, the one
    /// used longest ago goes.
    pub fn put(&mut self, location: RecordLocation, node: Node)
        requires
            old(self).wf(),
        ensures
            final(self).wf(),
            final(self).limit() == old(self).limit(),
            final(self)@ == stored(old(self)@, location, node@, old(self).limit()),
    {
        match self.position(location) {
            Some(i) => {
                let _gone = self.entries.remove(i);
            },
            None => {},
        }
        let ghost kept = self@;
        proof {
            assert(kept =~= without(old(self)@, location));
            lemma_without_distinct(old(self)@, location);
        }
        self.entries.push((location, node));
        let ghost full = self@;
        proof {
            assert(full =~= kept.push((location, node@)));
        }
        if self.entries.len() > self.capacity {
            let _gone = self.entries.remove(0);
            proof {
                assert(self@ =~= full.skip(1));
            }
        }
        proof {
            assert forall|i: int, j: int| 0 <= i < j < full.len() implies (#[trigger] full[i]).0 != (
            #[trigger] full[j]).0 by {
                if j < kept.len() {
                    assert(kept[i].0 != kept[j].0);
                } else {
                    assert(kept[i].0 != location);
                }
            }
        }
    }

    /// Drops the record at `location`, if it is here.
    pub fn invalidate(&mut self, location: RecordLocation)
        requires
            old(self).wf(),
        ensures
            final(self).wf(),
            final(self).limit() == old(self).limit(),
            final(self)@ == without(old(self)@, location),
    {
        match self.position(location) {
            Some(i) => {
                let _gone = self.entries.remove(i);
                proof {
                    assert(self@ =~= without(old(self)@, location));
                    lemma_without_distinct(old(self)@, location);
                }
            },
            None => {},
        }
    }
}

/// The entries that are not in a segment.
pub open spec fn outside(entries: CacheView, segment: u32) -> CacheView {
    entries.filter(|e: (RecordLocation, NodeView)| e.0.segment != segment)
}

impl RecordCache {
    /// Drops the records of a segment.
    pub fn forget_segment(&mut self, segment: u32)
        requires
            old(self).wf(),
        ensures
            final(self).wf(),
            final(self).limit() == old(self).limit(),
            final(self)@ == outside(old(self)@, segment),
    {
        let ghost all = self@;
        let ghost keep = |e: (RecordLocation, NodeView)| e.0.segment != segment;
        let ghost mut seen: int = 0;
        let mut i: usize = 0;
        proof {
            reveal(Seq::filter);
            assert(all.take(0).filter(keep) =~= Seq::<(RecordLocation, NodeView)>::empty());
            assert(self@ =~= all.take(0).filter(keep) + all.skip(0));
        }
        while i < self.entries.len()
            invariant
                self.wf(),
                self.limit() == old(self).limit(),
                0 <= seen <= all.len(),
                i <= self@.len(),
                keep == (|e: (RecordLocation, NodeView)| e.0.segment != segment),
                i == all.take(seen).filter(keep).len(),
                self@ == all.take(seen).filter(keep) + all.skip(seen),
            decreases self.entries.len() - i,
        {
            let ghost now = self@;
            proof {
                assert(now[i as int] == all[seen]);
                let next = all.take(seen + 1);
                reveal(Seq::filter);
                assert(next.drop_last() =~= all.take(seen));
                assert(next.last() == all[seen]);
            }
            if self.entries[i].0.segment == segment {
                let _gone = self.entries.remove(i);
                proof {
                    assert(self@ =~= now.remove(i as int));
                    assert forall|a: int, b: int| 0 <= a < b < self@.len() implies (#[trigger] self@[a]).0 != (
                    #[trigger] self@[b]).0 by {
                        let x = if a < i {
                            a
                        } else {
                            a + 1
                        };
                        let y = if b < i {
                            b
                        } else {
                            b + 1
                        };
                        assert(self@[a] == now[x] && self@[b] == now[y]);
                    }
                    assert(self@ =~= all.take(seen + 1).filter(keep) + all.skip(seen + 1));
                }
            } else {
                i = i + 1;
                proof {
                    assert(self@ =~= all.take(seen + 1).filter(keep) + all.skip(seen + 1));
                }
            }
            proof {
                seen = seen + 1;
            }
        }
        proof {
            assert(seen == all.len());
            assert(all.take(seen) =~= all);
            assert(self@ =~= all.filter(keep));
        }
    }
}

spec fn distinct(entries: CacheView) -> bool {
    forall|i: int, j: int| 0 <= i < j < entries.len() ==> (#[trigger] entries[i]).0 != (#[trigger] entries[j]).0
}

proof fn lemma_without_distinct(entries: CacheView, location: RecordLocation)
    requires
        distinct(entries),
    ensures
        distinct(without(entries, location)),
        forall|i: int|
            0 <= i < without(entries, location).len() ==> (#[trigger] without(entries, location)[i]).0 != location,
{
    let rest = without(entries, location);
    let k = entry_index(entries, location);
    assert forall|i: int| 0 <= i < rest.len() implies (#[trigger] rest[i]).0 != location by {
        if cached(entries, location) is Some {
            assert(rest[i] == entries[if i < k {
                i
            } else {
                i + 1
            }]);
        }
    }
}

proof fn lemma_refreshed_distinct(entries: CacheView, location: RecordLocation)
    requires
        distinct(entries),
    ensures
        distinct(refreshed(entries, location)),
{
    lemma_without_distinct(entries, location);
}

/// What is put is found, and other entries that are still there are found
/// unchanged: the cache never answers with a record that was not put at
/// that location.
pub proof fn law_cache_finds_what_was_put(
    entries: CacheView,
    location: RecordLocation,
    node: NodeView,
    capacity: nat,
    other: RecordLocation,
)
    requires
        forall|i: int, j: int|
            0 <= i < j < entries.len() ==> (#[trigger] entries[i]).0 != (#[trigger] entries[j]).0,
        capacity > 0,
        entries.len() <= capacity,
    ensures
        cached(stored(entries, location, node, capacity), location) == Some(node),
        stored(entries, location, node, capacity).len() <= capacity,
        other != location && cached(stored(entries, location, node, capacity), other) is Some ==> cached(
            stored(entries, location, node, capacity),
            other,
        ) == cached(entries, other),
        cached(without(entries, location), location) is None,
{
    lemma_without_distinct(entries, location);
    let kept = without(entries, location);
    let full = kept.push((location, node));
    let s = stored(entries, location, node, capacity);
    assert(s.last() == (location, node));
    assert(s[s.len() - 1].0 == location);
    let k = entry_index(s, location);
    assert(s[k].0 == location);
    if k < s.len() - 1 {
        if full.len() > capacity {
            assert(s[k] == full[k + 1]);
            assert(full[k + 1] == kept[k + 1]);
        } else {
            assert(full[k] == kept[k]);
        }
    }
    if other != location && cached(s, other) is Some {
        let i = entry_index(s, other);
        let f = if full.len() > capacity {
            i + 1
        } else {
            i
        };
        assert(s[i] == full[f]);
        assert(full[f] == kept[f]);
        let at = entry_index(entries, location);
        let e = if cached(entries, location) is Some && f >= at {
            f + 1
        } else {
            f
        };
        assert(kept[f] == entries[e]);
        assert(entries[e].0 == other);
        assert(entry_index(entries, other) == e);
    }
}

} // verus!
