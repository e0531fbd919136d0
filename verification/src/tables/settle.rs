//! Making what the tables hold last.

use vstd::prelude::*;

use crate::btree::TreeError;
use crate::heap::StoreStep;
use crate::tables::lists::{data_defs, text_defs, DataIndex, TextIndex};
use crate::tables::{worn_out, Tables};

verus! {

impl Tables {
    /// What brings the files of the heap up to date.
    pub(crate) fn heap_steps(&self) -> (r: Vec<StoreStep>)
        requires
            self.inv(),
        ensures
            r@ == crate::heap::sync_steps(self.heap()),
    {
        self.store.sync()
    }

    /// Commits every index.
    pub(crate) fn commit(&mut self) -> (r: Result<(), TreeError>)
        requires
            old(self).inv(),
        ensures
            final(self).inv(),
            final(self)@ == old(self)@,
            final(self).heap() == old(self).heap(),
            old(self).keeps_spare(final(self)),
            r is Ok ==> final(self).settled(),
            r matches Err(e) ==> e == TreeError::Full && final(self).worn(),
    {
        proof {
            reveal(Tables::keeps_spare);
        }
        match self.primary.commit() {
            Ok(()) => {},
            Err(e) => { return Err(e) },
        }
        match self.kind.commit() {
            Ok(()) => {},
            Err(e) => { return Err(e) },
        }
        match self.owner.commit() {
            Ok(()) => {},
            Err(e) => { return Err(e) },
        }
        match self.history.commit() {
            Ok(()) => {},
            Err(e) => { return Err(e) },
        }
        match self.edge_out.commit() {
            Ok(()) => {},
            Err(e) => { return Err(e) },
        }
        match self.edge_in.commit() {
            Ok(()) => {},
            Err(e) => { return Err(e) },
        }
        match commit_data(&mut self.data) {
            Ok(()) => {},
            Err(e) => {
                proof {
                    assert(data_defs(self.data@) =~= data_defs(old(self).data@));
                }
                return Err(e);
            },
        }
        match commit_text(&mut self.text) {
            Ok(()) => {},
            Err(e) => {
                proof {
                    assert(data_defs(self.data@) =~= data_defs(old(self).data@));
                    assert(text_defs(self.text@) =~= text_defs(old(self).text@));
                }
                return Err(e);
            },
        }
        proof {
            assert(data_defs(self.data@) =~= data_defs(old(self).data@));
            assert(text_defs(self.text@) =~= text_defs(old(self).text@));
        }
        Ok(())
    }
}

fn commit_data(list: &mut Vec<DataIndex>) -> (r: Result<(), TreeError>)
    requires
        forall|i: int| 0 <= i < old(list)@.len() ==> (#[trigger] old(list)@[i]).tree.wf(),
    ensures
        final(list)@.len() == old(list)@.len(),
        forall|i: int|
            0 <= i < final(list)@.len() ==> {
                &&& (#[trigger] final(list)@[i]).tree.wf()
                &&& final(list)@[i].tree@ == old(list)@[i].tree@
                &&& final(list)@[i].def@ == old(list)@[i].def@
            },
        r is Ok ==> forall|i: int|
            0 <= i < final(list)@.len() ==> (#[trigger] final(list)@[i]).tree.committed_entries()
                == final(list)@[i].tree@,
        r matches Err(e) ==> e == TreeError::Full && exists|i: int|
            0 <= i < final(list)@.len() && worn_out((#[trigger] final(list)@[i]).tree),
{
    let n: usize = list.len();
    let ghost before = list@;
    let mut i: usize = 0;
    while i < n
        invariant
            i <= n,
            n == before.len(),
            before == old(list)@,
            list@.len() == n,
            forall|k: int|
                0 <= k < n ==> {
                    &&& (#[trigger] list@[k]).tree.wf()
                    &&& list@[k].tree@ == before[k].tree@
                    &&& list@[k].def@ == before[k].def@
                },
            forall|k: int| 0 <= k < i ==> (#[trigger] list@[k]).tree.committed_entries() == list@[k].tree@,
        decreases n - i,
    {
        let ghost now = list@;
        match list[i].tree.commit() {
            Ok(()) => {},
            Err(e) => {
                proof {
                    assert forall|k: int| 0 <= k < n implies {
                        &&& (#[trigger] list@[k]).tree.wf()
                        &&& list@[k].tree@ == before[k].tree@
                        &&& list@[k].def@ == before[k].def@
                    } by {
                        if k != i {
                            assert(list@[k] == now[k]);
                        }
                    }
                }
                return Err(e);
            },
        }
        proof {
            assert forall|k: int| 0 <= k < n implies {
                &&& (#[trigger] list@[k]).tree.wf()
                &&& list@[k].tree@ == before[k].tree@
                &&& list@[k].def@ == before[k].def@
            } by {
                if k != i {
                    assert(list@[k] == now[k]);
                }
            }
            assert forall|k: int| 0 <= k < i + 1 implies (#[trigger] list@[k]).tree.committed_entries()
                == list@[k].tree@ by {
                if k != i {
                    assert(list@[k] == now[k]);
                }
            }
        }
        i = i + 1;
    }
    Ok(())
}

fn commit_text(list: &mut Vec<TextIndex>) -> (r: Result<(), TreeError>)
    requires
        forall|i: int| 0 <= i < old(list)@.len() ==> (#[trigger] old(list)@[i]).tree.wf(),
    ensures
        final(list)@.len() == old(list)@.len(),
        forall|i: int|
            0 <= i < final(list)@.len() ==> {
                &&& (#[trigger] final(list)@[i]).tree.wf()
                &&& final(list)@[i].tree@ == old(list)@[i].tree@
                &&& final(list)@[i].def@ == old(list)@[i].def@
            },
        r is Ok ==> forall|i: int|
            0 <= i < final(list)@.len() ==> (#[trigger] final(list)@[i]).tree.committed_entries()
                == final(list)@[i].tree@,
        r matches Err(e) ==> e == TreeError::Full && exists|i: int|
            0 <= i < final(list)@.len() && worn_out((#[trigger] final(list)@[i]).tree),
{
    let n: usize = list.len();
    let ghost before = list@;
    let mut i: usize = 0;
    while i < n
        invariant
            i <= n,
            n == before.len(),
            before == old(list)@,
            list@.len() == n,
            forall|k: int|
                0 <= k < n ==> {
                    &&& (#[trigger] list@[k]).tree.wf()
                    &&& list@[k].tree@ == before[k].tree@
                    &&& list@[k].def@ == before[k].def@
                },
            forall|k: int| 0 <= k < i ==> (#[trigger] list@[k]).tree.committed_entries() == list@[k].tree@,
        decreases n - i,
    {
        let ghost now = list@;
        match list[i].tree.commit() {
            Ok(()) => {},
            Err(e) => {
                proof {
                    assert forall|k: int| 0 <= k < n implies {
                        &&& (#[trigger] list@[k]).tree.wf()
                        &&& list@[k].tree@ == before[k].tree@
                        &&& list@[k].def@ == before[k].def@
                    } by {
                        if k != i {
                            assert(list@[k] == now[k]);
                        }
                    }
                }
                return Err(e);
            },
        }
        proof {
            assert forall|k: int| 0 <= k < n implies {
                &&& (#[trigger] list@[k]).tree.wf()
                &&& list@[k].tree@ == before[k].tree@
                &&& list@[k].def@ == before[k].def@
            } by {
                if k != i {
                    assert(list@[k] == now[k]);
                }
            }
            assert forall|k: int| 0 <= k < i + 1 implies (#[trigger] list@[k]).tree.committed_entries()
                == list@[k].tree@ by {
                if k != i {
                    assert(list@[k] == now[k]);
                }
            }
        }
        i = i + 1;
    }
    Ok(())
}

} // verus!
