//! Network identities

use vstd::prelude::*;

verus! {

/// A sixteen-byte identifier of a user, of a message or of a frame
/// sequence, held as one 128-bit number.
#[derive(Clone, Copy, Debug, PartialEq, Eq, Structural, Hash, PartialOrd, Ord)]
pub struct Identity {
    pub id: u128,
}

/// Draws a random 128-bit number from the thread-local generator of `rand`.
///
/// Trusted: wraps `rand::random::<u128>`; nothing is promised of the value.
#[verifier::external_body]
fn random_u128() -> (r: u128) {
    rand::random::<u128>()
}

impl Identity {
    /// The identity that holds the given number.
    pub fn from_u128(id: u128) -> (r: Identity)
        ensures
            r.id == id,
    {
        Identity { id }
    }

    /// A fresh random identity.
    pub fn random() -> (r: Identity) {
        Identity { id: random_u128() }
    }
}

} // verus!
