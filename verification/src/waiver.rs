//! Liability waivers participants may have signed.

use vstd::prelude::*;

verus! {

/// Identifier of a waiver: an opaque 128-bit value, compared by value.
#[derive(Clone, Copy, Debug, PartialEq, Eq, Structural, PartialOrd, Ord, Hash)]
pub struct WaiverId(pub u128);

/// A legal release of liability a participant signs before a trip.
/// Waivers are referenced by bookings but never written through this
/// crate's repository contract.
#[derive(Clone, Debug, PartialEq, Eq, PartialOrd, Ord, Hash)]
pub struct Waiver {
    pub id: WaiverId,
    pub content: String,
}

} // verus!
