//! The request that starts a recovery.

use vstd::prelude::*;

verus! {

/// A request to reconstitute an identity on new hardware after total device loss.
///
/// Pure data: others deliver it to the custodians.
#[derive(Debug, PartialEq, Eq)]
pub struct RecoveryRequest {
    /// The handle being recovered.
    pub handle: String,
    /// The fresh device's 32-byte TOKEN pubkey the identity will move to.
    pub new_device_pubkey: [u8; 32],
    /// When the request was raised, in eagle-time oscillations.
    pub at: u64,
}

impl Clone for RecoveryRequest {
    fn clone(&self) -> (copy: Self)
        ensures
            copy == *self,
    {
        Self {
            handle: self.handle.clone(),
            new_device_pubkey: self.new_device_pubkey,
            at: self.at,
        }
    }
}

impl RecoveryRequest {
    /// Raise a recovery request for `handle`, targeting `new_device_pubkey`, stamped at
    /// eagle-time `at`.
    pub fn new<H: Into<String>>(handle: H, new_device_pubkey: [u8; 32], at: u64) -> (request: Self)
        ensures
            call_ensures(<H as Into<String>>::into, (handle,), request.handle),
            request.new_device_pubkey == new_device_pubkey,
            request.at == at,
    {
        Self { handle: handle.into(), new_device_pubkey, at }
    }
}

} // verus!
