//! Equipment items and the rentals attached to a booking.

use vstd::prelude::*;

use crate::booking::BookingId;

verus! {

/// Identifier of an equipment item: an opaque 128-bit value, compared by
/// value.
#[derive(Clone, Copy, Debug, PartialEq, Eq, Structural, PartialOrd, Ord, Hash)]
pub struct EquipmentId(pub u128);

/// An equipment item's display name.
#[derive(Clone, Debug, PartialEq, Eq, PartialOrd, Ord, Hash)]
pub struct EquipmentName(pub String);

/// An equipment item's free-text description.
#[derive(Clone, Debug, PartialEq, Eq, PartialOrd, Ord, Hash)]
pub struct EquipmentDescription(pub String);

/// An item that is included with, or can be rented for, a booking.
#[derive(Clone, Debug, PartialEq, Eq, PartialOrd, Ord, Hash)]
pub struct Equipment {
    pub id: EquipmentId,
    pub name: EquipmentName,
    pub description: EquipmentDescription,
}

/// The equipment rented for one booking: a mapping from equipment id to a
/// signed quantity, carried as a sequence of pairs with pairwise distinct
/// keys (see [`BookingRentals::keys_distinct`]).  Its lifecycle is tied to
/// the booking it references.
#[derive(Clone, Debug, PartialEq, Eq)]
pub struct BookingRentals {
    pub booking_id: BookingId,
    pub rentals: Vec<(EquipmentId, i32)>,
}

/// Mathematical image of a [`BookingRentals`].
#[verifier::ext_equal]
pub struct BookingRentalsV {
    pub booking_id: BookingId,
    pub rentals: Seq<(EquipmentId, i32)>,
}

impl View for BookingRentals {
    type V = BookingRentalsV;

    open spec fn view(&self) -> BookingRentalsV {
        BookingRentalsV { booking_id: self.booking_id, rentals: self.rentals@ }
    }
}

impl BookingRentals {
    /// The mapping's well-formedness: no equipment id occurs twice.
    pub open spec fn keys_distinct(&self) -> bool {
        forall|i: int, j: int|
            0 <= i < j < self.rentals@.len() ==> self.rentals@[i].0 != self.rentals@[j].0
    }
}

/// Failures of equipment persistence operations.
#[derive(Clone, Debug, PartialEq, Eq)]
pub enum EquipmentError {
    /// The given rentals repeat an equipment id.
    Conflict,
    /// The backing store failed; carries a description of the cause.
    Unknown(String),
}

} // verus!
