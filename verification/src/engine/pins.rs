//! Reads that go on while the database changes, and the segments they need.

use vstd::prelude::*;

use crate::engine::StorageEngine;

verus! {

/// A read that goes on: no segment that was in use when it began goes away
/// before it is released.
#[derive(Debug)]
pub struct ReadPin {
    epoch: u64,
}

impl ReadPin {
    /// The epoch in which the read began.
    pub closed spec fn at(&self) -> u64 {
        self.epoch
    }

    /// The epoch in which the read began.
    pub fn epoch(&self) -> (r: u64)
        ensures
            r == self.at(),
    {
        self.epoch
    }
}

/// The epochs without one `epoch`.
pub open spec fn released(readers: Seq<u64>, epoch: u64) -> Seq<u64> {
    if readers.contains(epoch) {
        readers.remove(readers.index_of_first(epoch)->0)
    } else {
        readers
    }
}

/// The segment can go: no read began before its epoch.
pub open spec fn unneeded(readers: Seq<u64>, segment: (u32, u64)) -> bool {
    forall|i: int| 0 <= i < readers.len() ==> #[trigger] readers[i] >= segment.1
}

/// The retired segments that can go.
pub open spec fn ready(readers: Seq<u64>, retired: Seq<(u32, u64)>) -> Seq<(u32, u64)> {
    retired.filter(|s: (u32, u64)| unneeded(readers, s))
}

/// The retired segments that reads still need.
pub open spec fn needed(readers: Seq<u64>, retired: Seq<(u32, u64)>) -> Seq<(u32, u64)> {
    retired.filter(|s: (u32, u64)| !unneeded(readers, s))
}

impl StorageEngine {
    /// Begins a read in the present epoch.
    pub fn pin_read(&mut self) -> (r: ReadPin)
        requires
            old(self).inv(),
        ensures
            final(self).inv(),
            r.at() == old(self).epoch(),
            final(self).readers() == old(self).readers().push(r.at()),
            final(self)@ == old(self)@,
            final(self).log() == old(self).log(),
            final(self).failed() == old(self).failed(),
            final(self).retired() == old(self).retired(),
            final(self).epoch() == old(self).epoch(),
            final(self).limits() == old(self).limits(),
            final(self).heap() == old(self).heap(),
            final(self).last_sequence() == old(self).last_sequence(),
            final(self).last_transaction() == old(self).last_transaction(),
            final(self).last_operation() == old(self).last_operation(),
            final(self).applied() == old(self).applied(),
            final(self).pending() == old(self).pending(),
            final(self).reads() == old(self).reads(),
            final(self).writes() == old(self).writes(),
    {
        let epoch: u64 = self.epoch;
        self.readers.push(epoch);
        ReadPin { epoch }
    }

    /// Ends a read.
    pub fn release_read(&mut self, pin: ReadPin)
        requires
            old(self).inv(),
        ensures
            final(self).inv(),
            final(self).readers() == released(old(self).readers(), pin.at()),
            final(self)@ == old(self)@,
            final(self).log() == old(self).log(),
            final(self).failed() == old(self).failed(),
            final(self).retired() == old(self).retired(),
            final(self).epoch() == old(self).epoch(),
            final(self).limits() == old(self).limits(),
            final(self).heap() == old(self).heap(),
            final(self).last_sequence() == old(self).last_sequence(),
            final(self).last_transaction() == old(self).last_transaction(),
            final(self).last_operation() == old(self).last_operation(),
            final(self).applied() == old(self).applied(),
            final(self).pending() == old(self).pending(),
            final(self).reads() == old(self).reads(),
            final(self).writes() == old(self).writes(),
    {
        let ghost all = self.readers@;
        let mut i: usize = 0;
        while i < self.readers.len()
            invariant
                *self == *old(self),
                self.inv(),
                all == self.readers@,
                i <= all.len(),
                forall|k: int| 0 <= k < i ==> #[trigger] all[k] != pin.at(),
            decreases self.readers.len() - i,
        {
            if self.readers[i] == pin.epoch {
                let _gone = self.readers.remove(i);
                proof {
                    all.index_of_first_ensures(pin.at());
                    let k = all.index_of_first(pin.at())->0;
                    assert(all[i as int] == pin.at());
                    assert(all.contains(pin.at()));
                    assert(k == i);
                }
                return;
            }
            i = i + 1;
        }
        proof {
            assert(!all.contains(pin.at()));
        }
    }

    /// The epoch of the read that began first.
    pub(super) fn oldest_reader(&self) -> (r: Option<u64>)
        ensures
            match r {
                Some(e) => self.readers@.contains(e) && forall|i: int|
                    0 <= i < self.readers@.len() ==> e <= #[trigger] self.readers@[i],
                None => self.readers@.len() == 0,
            },
    {
        let mut best: Option<u64> = None;
        let mut i: usize = 0;
        while i < self.readers.len()
            invariant
                i <= self.readers@.len(),
                match best {
                    Some(e) => self.readers@.contains(e) && forall|k: int|
                        0 <= k < i ==> e <= #[trigger] self.readers@[k],
                    None => i == 0,
                },
            decreases self.readers.len() - i,
        {
            let epoch: u64 = self.readers[i];
            best = match best {
                Some(e) => if epoch < e {
                    Some(epoch)
                } else {
                    Some(e)
                },
                None => Some(epoch),
            };
            proof {
                assert(self.readers@[i as int] == epoch);
            }
            i = i + 1;
        }
        best
    }
}

} // verus!
