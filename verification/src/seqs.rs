//! Facts about sequences.

use vstd::prelude::*;

verus! {

/// What a filter keeps is from the sequence.
pub proof fn lemma_filter_member<T>(s: Seq<T>, keep: spec_fn(T) -> bool, i: int)
    requires
        0 <= i < s.filter(keep).len(),
    ensures
        keep(s.filter(keep)[i]),
        s.contains(s.filter(keep)[i]),
    decreases s.len(),
{
    reveal(Seq::filter);
    let init = s.drop_last();
    if i < init.filter(keep).len() {
        lemma_filter_member(init, keep, i);
        let k = choose|k: int| 0 <= k < init.len() && init[k] == init.filter(keep)[i];
        assert(s[k] == s.filter(keep)[i]);
    } else {
        assert(s[s.len() - 1] == s.filter(keep)[i]);
    }
}

/// A filter keeps what it should.
pub proof fn lemma_filter_keeps<T>(s: Seq<T>, keep: spec_fn(T) -> bool, i: int)
    requires
        0 <= i < s.len(),
        keep(s[i]),
    ensures
        s.filter(keep).contains(s[i]),
    decreases s.len(),
{
    reveal(Seq::filter);
    let init = s.drop_last();
    let f = s.filter(keep);
    if i < init.len() {
        lemma_filter_keeps(init, keep, i);
        assert(init[i] == s[i]);
        let k = choose|k: int| 0 <= k < init.filter(keep).len() && init.filter(keep)[k] == s[i];
        assert(f[k] == s[i]);
    } else {
        assert(f[f.len() - 1] == s[i]);
    }
}

} // verus!
