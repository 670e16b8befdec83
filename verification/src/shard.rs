//! Shards: what each custodian holds.

use vstd::prelude::*;

pub mod collector;
pub mod reconstruct;
pub mod split;

verus! {

/// One Shamir share.
///
/// `index` is the x-coordinate (`1..=N`, never 0: that is the coordinate of the secret
/// itself); `body` holds one field element per secret byte; `threshold` is carried so
/// that [`reconstruct`](crate::reconstruct) can refuse with too few shards rather than
/// return garbage.
#[derive(Debug, PartialEq, Eq)]
pub struct Shard {
    /// The Shamir x-coordinate of this share (`1..=N`).
    pub index: u8,
    threshold: u8,
    body: Vec<u8>,
}

/// What a shard holds.
#[verifier::ext_equal]
pub struct Share {
    pub index: u8,
    pub threshold: u8,
    pub body: Seq<u8>,
}

impl View for Shard {
    type V = Share;

    closed spec fn view(&self) -> Share {
        Share { index: self.index, threshold: self.threshold, body: self.body@ }
    }
}

/// What a shard holds is what its fields hold.
proof fn view_is_the_fields(shard: Shard)
    ensures
        shard@.index == shard.index,
        shard@.threshold == shard.threshold,
        shard@.body == shard.body@,
{
}

/// What each of the shards holds.
pub open spec fn shares(shards: Seq<Shard>) -> Seq<Share> {
    Seq::new(shards.len(), |i: int| shards[i]@)
}

impl Clone for Shard {
    fn clone(&self) -> (copy: Self)
        ensures
            copy@ == self@,
    {
        let body: Vec<u8> = self.body.clone();
        proof {
            assert(body@ =~= self.body@);
        }
        let copy: Self = Self { index: self.index, threshold: self.threshold, body };
        proof {
            view_is_the_fields(*self);
            view_is_the_fields(copy);
        }
        copy
    }
}

impl Shard {
    /// The threshold `K` recorded at split time.
    pub fn threshold(&self) -> (threshold: u8)
        ensures
            threshold == self@.threshold,
    {
        self.threshold
    }

    /// The length of the secret that this shard reconstructs to (its body length).
    pub fn len(&self) -> (len: usize)
        ensures
            len == self@.body.len(),
    {
        self.body.len()
    }

    /// Whether the shard's body is empty.
    pub fn is_empty(&self) -> (empty: bool)
        ensures
            empty == (self@.body.len() == 0),
    {
        self.body.len() == 0
    }
}

} // verus!
