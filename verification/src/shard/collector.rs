//! Collecting shards as custodians respond.

use crate::error::{Error, Result};
use crate::laws::accepted_iff_enough_and_consistent;
use crate::policy::RecoveryPolicy;
use crate::shard::reconstruct::{consistent, has_index, index_taken, points, refusal};
use crate::shard::{shares, Shard, Share};
use vstd::prelude::*;

verus! {

/// Accumulates shards as custodians respond, deduplicated by index, until the policy
/// threshold is met and they are enough to reconstruct.
///
/// Pure bookkeeping: it does no cryptographic verification. Feed it shards that are
/// already verified and decrypted.
#[derive(Debug)]
pub struct ShardCollector {
    threshold: u8,
    shards: Vec<Shard>,
}

impl Clone for ShardCollector {
    fn clone(&self) -> (copy: Self)
        ensures
            copy.target() == self.target(),
            shares(copy.held()) == shares(self.held()),
            copy.wf(),
    {
        proof {
            use_type_invariant(self);
        }
        let shards: Vec<Shard> = self.shards.clone();
        proof {
            assert(shares(shards@) =~= shares(self.shards@));
        }
        Self { threshold: self.threshold, shards }
    }
}

/// What is wrong with one more share, given those already held.
pub open spec fn rejection(held: Seq<Share>, new: Share) -> Option<Error> {
    if new.index == 0 {
        Some(Error::ZeroShardIndex)
    } else if held.len() > 0 && (held[0].body.len() != new.body.len() || held[0].threshold
        != new.threshold) {
        Some(Error::MismatchedShards)
    } else if index_taken(held, held.len() as int, new.index) {
        Some(Error::DuplicateShardIndex(new.index))
    } else {
        None
    }
}

/// A share that is not rejected can stand together with those already held.
pub proof fn accepted_stands_together(held: Seq<Share>, new: Share)
    requires
        consistent(held),
        rejection(held, new) is None,
    ensures
        consistent(held.push(new)),
{
    let all = held.push(new);
    let xs = points(all, all.len());
    assert forall|i: int| 0 <= i < all.len() implies (#[trigger] all[i]).threshold == new.threshold
        && all[i].body.len() == new.body.len() by {
        if i < held.len() {
            assert(held[i].threshold == held[0].threshold);
        }
    }
    assert forall|i: int, j: int| 0 <= i < j < all.len() implies xs[i] != xs[j] by {
        assert(points(held, held.len())[i] == held[i].index);
        if j < held.len() {
            assert(points(held, held.len())[j] == held[j].index);
        } else {
            assert(held[i].index != new.index);
        }
    }
}

impl ShardCollector {
    /// The threshold of the policy.
    pub closed spec fn target(&self) -> u8 {
        self.threshold
    }

    /// The shards held, in the order in which they arrived.
    pub closed spec fn held(&self) -> Seq<Shard> {
        self.shards@
    }

    /// As many shards are held as the policy asks for, and as many as they record.
    pub open spec fn met(&self) -> bool {
        self.held().len() >= self.target() && self.held().len() >= shares(self.held())[0].threshold
    }

    /// What holds of every collector: there is a threshold, and the shards can stand
    /// together.
    #[verifier::type_invariant]
    pub open spec fn wf(&self) -> bool {
        1 <= self.target() && consistent(shares(self.held()))
    }

    /// A fresh collector targeting `policy`'s threshold.
    pub fn new(policy: &RecoveryPolicy) -> (collector: Self)
        ensures
            collector.target() == policy.k(),
            collector.held() == Seq::<Shard>::empty(),
            collector.wf(),
    {
        let threshold: u8 = policy.threshold();
        let shards: Vec<Shard> = Vec::new();
        Self { threshold, shards }
    }

    /// Add a shard; rejects index 0, duplicate indices, and shards whose body length or
    /// recorded threshold disagrees with those already held.
    pub fn add(&mut self, shard: Shard) -> (result: Result<()>)
        ensures
            final(self).target() == old(self).target(),
            final(self).wf(),
            match result {
                Ok(_) => {
                    &&& rejection(shares(old(self).held()), shard@) is None
                    &&& final(self).held() == old(self).held().push(shard)
                },
                Err(e) => {
                    &&& rejection(shares(old(self).held()), shard@) == Some(e)
                    &&& final(self).held() == old(self).held()
                },
            },
    {
        proof {
            use_type_invariant(&*self);
        }
        if shard.index == 0 {
            return Err(Error::ZeroShardIndex);
        }
        if self.shards.len() > 0 {
            let first: &Shard = &self.shards[0];
            assert(first@ == shares(self.shards@)[0]);
            if first.body.len() != shard.body.len() || first.threshold != shard.threshold {
                return Err(Error::MismatchedShards);
            }
        }
        if has_index(self.shards.as_slice(), self.shards.len(), shard.index) {
            return Err(Error::DuplicateShardIndex(shard.index));
        }
        let mut shards: Vec<Shard> = Vec::new();
        std::mem::swap(&mut shards, &mut self.shards);
        let ghost held = shares(shards@);
        let ghost new = shard@;
        shards.push(shard);
        proof {
            accepted_stands_together(held, new);
            assert(shares(shards@) =~= held.push(new));
        }
        self.shards = shards;
        Ok(())
    }

    /// Whether enough distinct shards have arrived to reconstruct: as many as the policy
    /// asks for, and as many as the shards themselves record.
    pub fn threshold_met(&self) -> (met: bool)
        ensures
            met == self.met(),
            met == (self.held().len() >= self.target() && refusal(shares(self.held())) is None),
            self.wf(),
    {
        let held: usize = self.shards.len();
        proof {
            use_type_invariant(self);
            accepted_iff_enough_and_consistent(shares(self.shards@));
            if held > 0 {
                assert(self.shards@[0]@ == shares(self.shards@)[0]);
            }
        }
        held >= self.threshold as usize && held >= self.shards[0].threshold as usize
    }

    /// The shards collected so far, ready to hand to [`reconstruct`](crate::reconstruct)
    /// once [`threshold_met`](Self::threshold_met).
    pub fn shards(&self) -> (shards: &[Shard])
        ensures
            shards@ == self.held(),
            self.wf(),
    {
        proof {
            use_type_invariant(self);
        }
        self.shards.as_slice()
    }
}

} // verus!
