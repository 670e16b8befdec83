//! Who holds the shards, and how many of them it takes.

use crate::error::{Error, Result};
use vstd::prelude::*;

verus! {

/// A person you trust, addressed by their TOKEN identity.
///
/// The crate never contacts them: it only records who a shard is for.
#[derive(Debug, PartialEq, Eq)]
pub struct Custodian {
    /// The custodian's TOKEN handle.
    pub handle: String,
    /// The custodian's 32-byte TOKEN public key.
    pub pubkey: [u8; 32],
}

impl Clone for Custodian {
    fn clone(&self) -> (copy: Self)
        ensures
            copy == *self,
    {
        Self { handle: self.handle.clone(), pubkey: self.pubkey }
    }
}

impl Custodian {
    /// Name a custodian by handle and TOKEN pubkey.
    pub fn new<H: Into<String>>(handle: H, pubkey: [u8; 32]) -> (custodian: Self)
        ensures
            call_ensures(<H as Into<String>>::into, (handle,), custodian.handle),
            custodian.pubkey == pubkey,
    {
        Self { handle: handle.into(), pubkey }
    }
}

/// The user-set recovery policy: a threshold `K` and the `N` custodians it distributes to.
///
/// Built through [`RecoveryPolicy::new`], so that `1 <= K <= N <= 255` is checked once
/// and then carried by the type.
#[derive(Debug, PartialEq, Eq)]
pub struct RecoveryPolicy {
    threshold: u8,
    custodians: Vec<Custodian>,
}

impl Clone for RecoveryPolicy {
    fn clone(&self) -> (copy: Self)
        ensures
            copy.k() == self.k(),
            copy.members() == self.members(),
            copy.wf(),
    {
        proof {
            use_type_invariant(self);
        }
        Self { threshold: self.threshold, custodians: clone_custodians(&self.custodians) }
    }
}

/// The same custodians in the same order.
fn clone_custodians(custodians: &Vec<Custodian>) -> (copy: Vec<Custodian>)
    ensures
        copy@ == custodians@,
{
    let copy: Vec<Custodian> = custodians.clone();
    proof {
        assert(copy@ =~= custodians@);
    }
    copy
}

impl RecoveryPolicy {
    /// The threshold `K`.
    pub closed spec fn k(&self) -> u8 {
        self.threshold
    }

    /// The custodians, in the order in which they were named.
    pub closed spec fn members(&self) -> Seq<Custodian> {
        self.custodians@
    }

    /// The number `N` of custodians.
    pub open spec fn n(&self) -> nat {
        self.members().len()
    }

    /// What holds of every policy.
    #[verifier::type_invariant]
    pub open spec fn wf(&self) -> bool {
        1 <= self.k() <= self.n() <= 255
    }

    /// Start building a policy.
    pub fn new() -> (builder: RecoveryPolicyBuilder)
        ensures
            builder.chosen() == None::<u8>,
            builder.named() == Seq::<Custodian>::empty(),
    {
        RecoveryPolicyBuilder::default()
    }

    /// The threshold `K`: how many custodians must cooperate.
    pub fn threshold(&self) -> (k: u8)
        ensures
            k == self.k(),
            self.wf(),
    {
        proof {
            use_type_invariant(self);
        }
        self.threshold
    }

    /// The `N` custodians the secret is distributed to.
    pub fn custodians(&self) -> (custodians: &[Custodian])
        ensures
            custodians@ == self.members(),
            self.wf(),
    {
        proof {
            use_type_invariant(self);
        }
        self.custodians.as_slice()
    }
}

/// Builder for [`RecoveryPolicy`]; the threshold and the custodians are validated in
/// [`build`](Self::build).
#[derive(Debug)]
pub struct RecoveryPolicyBuilder {
    threshold: Option<u8>,
    custodians: Vec<Custodian>,
}

impl Clone for RecoveryPolicyBuilder {
    fn clone(&self) -> (copy: Self)
        ensures
            copy.chosen() == self.chosen(),
            copy.named() == self.named(),
    {
        Self { threshold: self.threshold, custodians: clone_custodians(&self.custodians) }
    }
}

impl Default for RecoveryPolicyBuilder {
    fn default() -> (builder: Self)
        ensures
            builder.chosen() == None::<u8>,
            builder.named() == Seq::<Custodian>::empty(),
    {
        Self { threshold: None, custodians: Vec::new() }
    }
}

/// Why a policy with this threshold and `n` custodians is refused, if it is.
pub open spec fn policy_refusal(threshold: Option<u8>, n: nat) -> Option<Error> {
    match threshold {
        None => Some(Error::ThresholdUnset),
        Some(k) => if k == 0 {
            Some(Error::ZeroThreshold)
        } else if n == 0 {
            Some(Error::NoCustodians)
        } else if n > 255 {
            Some(Error::TooManyCustodians(n as usize))
        } else if k > n {
            Some(Error::ThresholdExceedsCustodians { k, n: n as usize })
        } else {
            None
        },
    }
}

/// A policy is accepted exactly where `1 <= K <= N <= 255`.
pub proof fn policy_accepted_iff(k: u8, n: nat)
    ensures
        policy_refusal(Some(k), n) is None <==> 1 <= k <= n <= 255,
{
}

impl RecoveryPolicyBuilder {
    /// The threshold chosen so far.
    pub closed spec fn chosen(&self) -> Option<u8> {
        self.threshold
    }

    /// The custodians named so far.
    pub closed spec fn named(&self) -> Seq<Custodian> {
        self.custodians@
    }

    /// Set the threshold `K`: how many of the `N` custodians must cooperate to reconstruct.
    pub fn threshold(self, k: u8) -> (builder: Self)
        ensures
            builder.chosen() == Some(k),
            builder.named() == self.named(),
    {
        let mut builder: Self = self;
        builder.threshold = Some(k);
        builder
    }

    /// Replace the custodian list wholesale.
    pub fn custodians(self, custodians: Vec<Custodian>) -> (builder: Self)
        ensures
            builder.chosen() == self.chosen(),
            builder.named() == custodians@,
    {
        let mut builder: Self = self;
        builder.custodians = custodians;
        builder
    }

    /// Append one custodian.
    pub fn custodian(self, custodian: Custodian) -> (builder: Self)
        ensures
            builder.chosen() == self.chosen(),
            builder.named() == self.named().push(custodian),
    {
        let mut builder: Self = self;
        builder.custodians.push(custodian);
        builder
    }

    /// Validate and finalize: `K >= 1`, at least one custodian, `K <= N`, `N <= 255`.
    pub fn build(self) -> (policy: Result<RecoveryPolicy>)
        ensures
            match policy {
                Ok(policy) => {
                    &&& policy_refusal(self.chosen(), self.named().len()) is None
                    &&& Some(policy.k()) == self.chosen()
                    &&& policy.members() == self.named()
                    &&& policy.wf()
                },
                Err(e) => policy_refusal(self.chosen(), self.named().len()) == Some(e),
            },
    {
        let threshold: u8 = match self.threshold {
            Some(threshold) => threshold,
            None => return Err(Error::ThresholdUnset),
        };
        if threshold == 0 {
            return Err(Error::ZeroThreshold);
        }
        let n: usize = self.custodians.len();
        if n == 0 {
            return Err(Error::NoCustodians);
        }
        if n > 255 {
            return Err(Error::TooManyCustodians(n));
        }
        if threshold as usize > n {
            return Err(Error::ThresholdExceedsCustodians { k: threshold, n });
        }
        Ok(RecoveryPolicy { threshold, custodians: self.custodians })
    }
}

} // verus!
