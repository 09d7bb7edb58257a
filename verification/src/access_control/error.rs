//! The failures of the authorization engine.

use vstd::prelude::*;

verus! {

/// Why an operation of the engine failed. A failed operation leaves the
/// state of the engine exactly as it was.
#[derive(Clone, Copy, Debug, PartialEq, Eq, Structural, Hash)]
pub enum Error {
    /// The request, the resource or the principal has no entry.
    NotFound,
    /// The caller lacks the permission that the operation needs.
    Forbidden,
    /// The resource is on the deny-list.
    DeniedResource,
    /// The public key is on the deny-list.
    DeniedKey,
    /// The share target is already committed under some source.
    AlreadyApproved,
    /// The declared key differs from the key registered for the target.
    KeyMismatch,
    /// A share target was given where none is taken, or none where one is
    /// needed.
    InvalidArgument,
    /// The principal does not hold the permission that is to be revoked.
    PermissionNotHeld,
    /// The engine has been set up before.
    AlreadyInitialized,
    /// The engine has not been set up yet.
    NotInitialized,
}

impl Error {
    /// What [`Error::message`] says of the failure.
    pub open spec fn text(self) -> Seq<char> {
        match self {
            Error::NotFound => "The provided request, cid or user is not found"@,
            Error::Forbidden => "The caller doesn't have the permission for this call"@,
            Error::DeniedResource => "The cid is denied"@,
            Error::DeniedKey => "The public key is denied"@,
            Error::AlreadyApproved => "The provided Shared CID is already approved"@,
            Error::KeyMismatch => "The public keys don't match"@,
            Error::InvalidArgument => "Shared CID is required for a share request and for no other"@,
            Error::PermissionNotHeld => "The user didn't have such permissions for the provided cid"@,
            Error::AlreadyInitialized => "The contract is already initialized"@,
            Error::NotInitialized => "The contract isn't initialized"@,
        }
    }

    /// A sentence that says what failed.
    pub fn message(&self) -> (r: &'static str)
        ensures
            r@ == self.text(),
    {
        match self {
            Error::NotFound => "The provided request, cid or user is not found",
            Error::Forbidden => "The caller doesn't have the permission for this call",
            Error::DeniedResource => "The cid is denied",
            Error::DeniedKey => "The public key is denied",
            Error::AlreadyApproved => "The provided Shared CID is already approved",
            Error::KeyMismatch => "The public keys don't match",
            Error::InvalidArgument => "Shared CID is required for a share request and for no other",
            Error::PermissionNotHeld => "The user didn't have such permissions for the provided cid",
            Error::AlreadyInitialized => "The contract is already initialized",
            Error::NotInitialized => "The contract isn't initialized",
        }
    }
}

} // verus!
