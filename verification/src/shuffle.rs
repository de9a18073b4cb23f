//! The random-shuffle collaborator: a source of permutations of the
//! eight direction indices, with one deterministic implementation and
//! one backed by a real random number generator.

use vstd::prelude::*;
use rand::seq::SliceRandom;

verus! {

/// The identity ordering of the eight direction indices.
pub open spec fn ident_perm() -> Seq<u8> {
    Seq::new(8, |i: int| i as u8)
}

/// Every call returns some ordering of the eight direction indices
/// `0..8`: a sequence of length 8 whose entries are all below 8 and
/// that contains each of the eight indices.
pub trait ShuffleSource {
    /// The one permutation this source always returns, if it is a
    /// fixed source; `None` for a randomized source.
    spec fn fixed_perm(&self) -> Option<Seq<u8>>;

    fn next_perm(&mut self) -> (p: Vec<u8>)
        ensures
            p@.len() == 8,
            forall|i: int| 0 <= i < 8 ==> #[trigger] p@[i] < 8,
            forall|d: u8| d < 8 ==> p@.contains(d),
            final(self).fixed_perm() == old(self).fixed_perm(),
            old(self).fixed_perm() matches Some(q) ==> p@ == q,
    ;
}

/// A shuffle source that always returns the identity permutation; it
/// makes generation deterministic and reproducible.
pub struct IdentityShuffle;

impl ShuffleSource for IdentityShuffle {
    open spec fn fixed_perm(&self) -> Option<Seq<u8>> {
        Some(ident_perm())
    }

    fn next_perm(&mut self) -> (p: Vec<u8>) {
        let mut v: Vec<u8> = Vec::new();
        let mut i: u8 = 0;
        while i < 8
            invariant
                i <= 8,
                v@.len() == i as int,
                forall|k: int| 0 <= k < i as int ==> #[trigger] v@[k] == k,
            decreases 8 - i as int,
        {
            v.push(i);
            i = i + 1;
        }
        proof {
            assert forall|d: u8| d < 8 implies v@.contains(d) by {
                assert(v@[d as int] == d);
            }
            assert(v@ =~= ident_perm());
        }
        v
    }
}

/// A shuffle source drawing uniformly random permutations from the
/// thread-local random number generator.
pub struct RandomShuffle;

/// Relies on rand's `SliceRandom::shuffle`: a Fisher-Yates pass of
/// in-place swaps, so the slice afterwards holds a permutation of the
/// eight distinct indices it started with.
#[verifier::external_body]
fn shuffled_indices() -> (p: Vec<u8>)
    ensures
        p@.len() == 8,
        forall|i: int| 0 <= i < 8 ==> #[trigger] p@[i] < 8,
        forall|d: u8| d < 8 ==> p@.contains(d),
{
    let mut v: Vec<u8> = vec![0, 1, 2, 3, 4, 5, 6, 7];
    v.shuffle(&mut rand::thread_rng());
    v
}

impl ShuffleSource for RandomShuffle {
    open spec fn fixed_perm(&self) -> Option<Seq<u8>> {
        None
    }

    fn next_perm(&mut self) -> (p: Vec<u8>) {
        shuffled_indices()
    }
}

} // verus!
