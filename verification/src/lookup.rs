//! First-match search over sequences, the building block of every lookup.
use vstd::prelude::*;

verus! {

/// The index of the first entry of `flags` that holds, or `-1` when none does.
pub open spec fn first_match(flags: Seq<bool>) -> int
    decreases flags.len(),
{
    if flags.len() == 0 {
        -1
    } else {
        let r = first_match(flags.drop_last());
        if r >= 0 {
            r
        } else if flags.last() {
            flags.len() - 1
        } else {
            -1
        }
    }
}

/// `first_match` is `-1` exactly when no entry holds, and otherwise the index
/// of an entry that holds with none holding before it.
pub proof fn lemma_first_match(flags: Seq<bool>)
    ensures
        -1 <= first_match(flags) < flags.len(),
        first_match(flags) == -1 <==> forall|k: int| 0 <= k < flags.len() ==> !flags[k],
        first_match(flags) >= 0 ==> flags[first_match(flags)] && forall|k: int|
            0 <= k < first_match(flags) ==> !flags[k],
    decreases flags.len(),
{
    if flags.len() > 0 {
        let init = flags.drop_last();
        lemma_first_match(init);
        assert forall|k: int| 0 <= k < init.len() implies init[k] == flags[k] by {}
    }
}

/// The first entry that holds is found by a scan that stops at it.
pub proof fn lemma_first_match_at(flags: Seq<bool>, i: int)
    requires
        0 <= i < flags.len(),
        flags[i],
        forall|k: int| 0 <= k < i ==> !flags[k],
    ensures
        first_match(flags) == i,
{
    lemma_first_match(flags);
    let r = first_match(flags);
    if r != i {
        if r < i {
            assert(!flags[r]);
        } else {
            assert(!flags[i]);
        }
    }
}

/// When no entry holds, `first_match` is `-1`.
pub proof fn lemma_first_match_none(flags: Seq<bool>)
    requires
        forall|k: int| 0 <= k < flags.len() ==> !flags[k],
    ensures
        first_match(flags) == -1,
{
    lemma_first_match(flags);
}

} // verus!
