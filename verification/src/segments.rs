//! Which segment files are kept open.
//!
//! A database has more segments than a process may have open files. The
//! table holds the open ones in the order of their last use and says which
//! to close when there are too many.

use vstd::prelude::*;

verus! {

/// Segment files kept open unless the application says otherwise.
pub const DEFAULT_OPEN_SEGMENTS: usize = 64;

/// The capacity to use where `configured` was asked for.
pub fn open_segment_capacity(configured: Option<usize>) -> (r: usize)
    ensures
        r == (match configured {
            Some(n) => if n > 0 {
                n
            } else {
                DEFAULT_OPEN_SEGMENTS
            },
            None => DEFAULT_OPEN_SEGMENTS,
        }),
{
    match configured {
        Some(n) => if n > 0 {
            n
        } else {
            DEFAULT_OPEN_SEGMENTS
        },
        None => DEFAULT_OPEN_SEGMENTS,
    }
}

/// The open segments.
pub struct OpenSegments {
    /// From the one used longest ago to the one used last.
    order: Vec<u32>,
}

impl View for OpenSegments {
    type V = Seq<u32>;

    closed spec fn view(&self) -> Seq<u32> {
        self.order@
    }
}

/// The list without `id`.
pub open spec fn without_id(order: Seq<u32>, id: u32) -> Seq<u32> {
    if order.contains(id) {
        order.remove(order.index_of(id))
    } else {
        order
    }
}

/// The segment may be closed: it is not appended to, and nobody holds it.
pub open spec fn closable(id: u32, active: u32, in_use: Seq<u32>) -> bool {
    id != active && !in_use.contains(id)
}

/// Position of the first segment that may be closed, or the list's length.
pub open spec fn first_closable(order: Seq<u32>, active: u32, in_use: Seq<u32>) -> int
    decreases order.len(),
{
    if order.len() == 0 || closable(order[0], active, in_use) {
        0
    } else {
        1 + first_closable(order.drop_first(), active, in_use)
    }
}

proof fn lemma_first_closable(order: Seq<u32>, active: u32, in_use: Seq<u32>, k: int)
    requires
        0 <= k <= order.len(),
        forall|i: int| 0 <= i < k ==> !closable(#[trigger] order[i], active, in_use),
        k < order.len() ==> closable(order[k], active, in_use),
    ensures
        first_closable(order, active, in_use) == k,
    decreases order.len(),
{
    if order.len() > 0 && k > 0 {
        assert(!closable(order[0], active, in_use));
        let rest = order.drop_first();
        assert forall|i: int| 0 <= i < k - 1 implies !closable(#[trigger] rest[i], active, in_use) by {
            assert(rest[i] == order[i + 1]);
        }
        lemma_first_closable(rest, active, in_use, k - 1);
    }
}

/// What is left open, and what is closed, when at most `capacity` are to
/// stay: those used longest ago go first, as far as they may be closed.
pub open spec fn evicted(order: Seq<u32>, capacity: nat, active: u32, in_use: Seq<u32>) -> (Seq<u32>, Seq<u32>)
    decreases order.len(),
{
    let k = first_closable(order, active, in_use);
    if order.len() <= capacity || !(0 <= k < order.len()) {
        (order, Seq::empty())
    } else {
        let (left, closed) = evicted(order.remove(k), capacity, active, in_use);
        (left, seq![order[k]] + closed)
    }
}

impl OpenSegments {
    /// No segment is in the table twice.
    pub closed spec fn wf(&self) -> bool {
        self.order@.no_duplicates()
    }

    pub proof fn lemma_wf(&self)
        requires
            self.wf(),
        ensures
            self@.no_duplicates(),
    {
    }

    pub fn new() -> (r: OpenSegments)
        ensures
            r.wf(),
            r@ == Seq::<u32>::empty(),
    {
        OpenSegments { order: Vec::new() }
    }

    fn position(&self, id: u32) -> (r: Option<usize>)
        requires
            self.wf(),
        ensures
            match r {
                Some(i) => i < self@.len() && self@[i as int] == id && self@.contains(id) && i == self@.index_of(id),
                None => !self@.contains(id),
            },
    {
        let mut i: usize = 0;
        while i < self.order.len()
            invariant
                self.wf(),
                i <= self.order@.len(),
                forall|j: int| 0 <= j < i ==> #[trigger] self.order@[j] != id,
            decreases self.order.len() - i,
        {
            if self.order[i] == id {
                proof {
                    assert(self@[i as int] == id);
                    assert(self@[self@.index_of(id)] == id);
                }
                return Some(i);
            }
            i = i + 1;
        }
        None
    }

    /// Marks an open segment as used last.
    pub fn touch(&mut self, id: u32)
        requires
            old(self).wf(),
        ensures
            final(self).wf(),
            final(self)@ == (if old(self)@.contains(id) {
                without_id(old(self)@, id).push(id)
            } else {
                old(self)@
            }),
    {
        match self.position(id) {
            Some(i) => {
                let _same: u32 = self.order.remove(i);
                self.order.push(id);
                proof {
                    lemma_without_id(old(self)@, id);
                }
            },
            None => {},
        }
    }

    /// Puts a segment that was just opened in the table, as used last.
    pub fn enter(&mut self, id: u32)
        requires
            old(self).wf(),
        ensures
            final(self).wf(),
            final(self)@ == without_id(old(self)@, id).push(id),
    {
        match self.position(id) {
            Some(i) => {
                let _same: u32 = self.order.remove(i);
            },
            None => {},
        }
        self.order.push(id);
        proof {
            lemma_without_id(old(self)@, id);
        }
    }

    fn first(&self, active: u32, in_use: &Vec<u32>) -> (r: usize)
        ensures
            r == first_closable(self@, active, in_use@),
    {
        let mut k: usize = 0;
        while k < self.order.len()
            invariant
                k <= self.order@.len(),
                forall|i: int| 0 <= i < k ==> !closable(#[trigger] self.order@[i], active, in_use@),
            decreases self.order.len() - k,
        {
            let id: u32 = self.order[k];
            if id != active && !listed(in_use, id) {
                proof {
                    lemma_first_closable(self@, active, in_use@, k as int);
                }
                return k;
            }
            k = k + 1;
        }
        proof {
            lemma_first_closable(self@, active, in_use@, k as int);
        }
        k
    }

    /// Takes out of the table the segments to close so that at most
    /// `capacity` stay open, in the order of closing. The active segment and
    /// those in use stay, also where that leaves too many.
    pub fn evict_down_to(&mut self, capacity: usize, active: u32, in_use: &Vec<u32>) -> (closed: Vec<u32>)
        requires
            old(self).wf(),
        ensures
            final(self).wf(),
            (final(self)@, closed@) == evicted(old(self)@, capacity as nat, active, in_use@),
    {
        let mut closed: Vec<u32> = Vec::new();
        let ghost whole = evicted(self@, capacity as nat, active, in_use@);
        proof {
            assert(Seq::<u32>::empty() + whole.1 =~= whole.1);
        }
        while self.order.len() > capacity
            invariant_except_break
                evicted(self@, capacity as nat, active, in_use@).0 == whole.0,
                closed@ + evicted(self@, capacity as nat, active, in_use@).1 == whole.1,
            invariant
                self.wf(),
                whole == evicted(old(self)@, capacity as nat, active, in_use@),
            ensures
                (self@, closed@) == whole,
            decreases self.order.len(),
        {
            let k: usize = self.first(active, in_use);
            proof {
                lemma_first_found(self@, active, in_use@);
            }
            if k >= self.order.len() {
                proof {
                    assert(closed@ + Seq::<u32>::empty() =~= closed@);
                }
                break;
            }
            let ghost before = self@;
            let ghost done = closed@;
            let id: u32 = self.order.remove(k);
            closed.push(id);
            proof {
                let rest = evicted(before.remove(k as int), capacity as nat, active, in_use@).1;
                assert(done + (seq![id] + rest) =~= done.push(id) + rest);
                assert(before.remove(k as int).no_duplicates());
            }
        }
        proof {
            assert(closed@ + Seq::<u32>::empty() =~= closed@);
        }
        closed
    }

    /// Takes a segment that is being retired out of the table.
    pub fn forget(&mut self, id: u32)
        requires
            old(self).wf(),
        ensures
            final(self).wf(),
            final(self)@ == without_id(old(self)@, id),
    {
        match self.position(id) {
            Some(i) => {
                let _same: u32 = self.order.remove(i);
                proof {
                    lemma_without_id(old(self)@, id);
                }
            },
            None => {},
        }
    }

    /// The open segments, from the one used longest ago to the one used last.
    pub fn resident(&self) -> (r: &Vec<u32>)
        ensures
            r@ == self@,
    {
        &self.order
    }
}

fn listed(ids: &Vec<u32>, id: u32) -> (r: bool)
    ensures
        r == ids@.contains(id),
{
    let mut i: usize = 0;
    while i < ids.len()
        invariant
            i <= ids@.len(),
            forall|j: int| 0 <= j < i ==> #[trigger] ids@[j] != id,
        decreases ids.len() - i,
    {
        if ids[i] == id {
            return true;
        }
        i = i + 1;
    }
    false
}

proof fn lemma_without_id(order: Seq<u32>, id: u32)
    requires
        order.no_duplicates(),
    ensures
        without_id(order, id).no_duplicates(),
        !without_id(order, id).contains(id),
        without_id(order, id).push(id).no_duplicates(),
{
    let rest = without_id(order, id);
    let k = order.index_of(id);
    if order.contains(id) {
        assert(order[k] == id);
    }
    assert forall|i: int| 0 <= i < rest.len() implies #[trigger] rest[i] != id by {
        if order.contains(id) {
            assert(rest[i] == order[if i < k {
                i
            } else {
                i + 1
            }]);
        }
    }
}

/// The active segment and those in use are never closed, and where more
/// than `capacity` stay open, all of them are active or in use.
pub proof fn law_eviction_is_bounded(order: Seq<u32>, capacity: nat, active: u32, in_use: Seq<u32>)
    ensures
        ({
            let (left, closed) = evicted(order, capacity, active, in_use);
            &&& left.len() + closed.len() == order.len()
            &&& forall|i: int| 0 <= i < closed.len() ==> closable(#[trigger] closed[i], active, in_use)
            &&& left.len() > capacity ==> forall|i: int|
                0 <= i < left.len() ==> !closable(#[trigger] left[i], active, in_use)
        }),
    decreases order.len(),
{
    let k = first_closable(order, active, in_use);
    lemma_first_found(order, active, in_use);
    if !(order.len() <= capacity || !(0 <= k < order.len())) {
        law_eviction_is_bounded(order.remove(k), capacity, active, in_use);
        let (left, closed) = evicted(order.remove(k), capacity, active, in_use);
        let all = seq![order[k]] + closed;
        assert forall|i: int| 0 <= i < all.len() implies closable(#[trigger] all[i], active, in_use) by {
            if i > 0 {
                assert(all[i] == closed[i - 1]);
            }
        }
    }
}

proof fn lemma_first_found(order: Seq<u32>, active: u32, in_use: Seq<u32>)
    ensures
        ({
            let k = first_closable(order, active, in_use);
            &&& 0 <= k <= order.len()
            &&& k < order.len() ==> closable(order[k], active, in_use)
            &&& forall|i: int| 0 <= i < k ==> !closable(#[trigger] order[i], active, in_use)
        }),
    decreases order.len(),
{
    if order.len() > 0 && !closable(order[0], active, in_use) {
        let rest = order.drop_first();
        lemma_first_found(rest, active, in_use);
        let k = first_closable(order, active, in_use);
        assert forall|i: int| 0 <= i < k implies !closable(#[trigger] order[i], active, in_use) by {
            if i > 0 {
                assert(order[i] == rest[i - 1]);
            }
        }
    }
}

} // verus!
