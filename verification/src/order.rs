//! Which items of a listing are kept, in the order of the listing.

use vstd::prelude::*;

verus! {

/// The positions at which `flags` is true, in rising order.
pub open spec fn kept(flags: Seq<bool>) -> Seq<int>
    decreases flags.len(),
{
    if flags.len() == 0 {
        Seq::empty()
    } else if flags.last() {
        kept(flags.drop_last()).push(flags.len() - 1)
    } else {
        kept(flags.drop_last())
    }
}

/// `kept` holds positions of `flags` at which it is true, each once and in
/// rising order, and leaves out none.
pub proof fn lemma_kept(flags: Seq<bool>)
    ensures
        kept(flags).len() <= flags.len(),
        forall|k: int|
            0 <= k < kept(flags).len() ==> 0 <= #[trigger] kept(flags)[k] < flags.len()
                && flags[kept(flags)[k]],
        forall|k: int, l: int|
            0 <= k < l < kept(flags).len() ==> #[trigger] kept(flags)[k] < #[trigger] kept(
                flags,
            )[l],
        forall|i: int|
            0 <= i < flags.len() && #[trigger] flags[i] ==> exists|k: int|
                0 <= k < kept(flags).len() && #[trigger] kept(flags)[k] == i,
    decreases flags.len(),
{
    if flags.len() > 0 {
        let rest = flags.drop_last();
        let n = flags.len() - 1;
        lemma_kept(rest);
        assert forall|i: int| 0 <= i < flags.len() && #[trigger] flags[i] implies exists|k: int|
            0 <= k < kept(flags).len() && #[trigger] kept(flags)[k] == i by {
            if i < n {
                assert(rest[i]);
                let k = choose|k: int| 0 <= k < kept(rest).len() && #[trigger] kept(rest)[k] == i;
                assert(kept(flags)[k] == i);
            } else {
                assert(kept(flags)[kept(flags).len() - 1] == i);
            }
        }
    }
}

} // verus!
