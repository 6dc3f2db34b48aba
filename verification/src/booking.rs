//! The booking aggregate and its value types.

use vstd::prelude::*;

use crate::customer::CustomerId;
use crate::trip::TripId;
use crate::waiver::WaiverId;

verus! {

/// Identifier of a booking: an opaque 128-bit value, compared by value.
#[derive(Clone, Copy, Debug, PartialEq, Eq, Structural, PartialOrd, Ord, Hash)]
pub struct BookingId(pub u128);

/// Identifier of a participant: an opaque 128-bit value, compared by value.
#[derive(Clone, Copy, Debug, PartialEq, Eq, Structural, PartialOrd, Ord, Hash)]
pub struct ParticipantId(pub u128);

/// A person who takes part in a trip as a member of a booking.
///
/// The date of birth is a day number (days relative to the Unix epoch);
/// adapters convert calendar dates at the boundary.
#[derive(Clone, Debug, PartialEq, Eq)]
pub struct Participant {
    pub id: ParticipantId,
    pub name: String,
    pub dob: i64,
    pub notes: String,
    pub waiver: Option<WaiverId>,
}

/// Mathematical image of a [`Participant`]: strings become character
/// sequences, everything else is carried as is.
#[verifier::ext_equal]
pub struct ParticipantV {
    pub id: ParticipantId,
    pub name: Seq<char>,
    pub dob: i64,
    pub notes: Seq<char>,
    pub waiver: Option<WaiverId>,
}

impl View for Participant {
    type V = ParticipantV;

    open spec fn view(&self) -> ParticipantV {
        ParticipantV {
            id: self.id,
            name: self.name@,
            dob: self.dob,
            notes: self.notes@,
            waiver: self.waiver,
        }
    }
}

/// The booking aggregate root: the intent of an ordered group of
/// participants to take part in a trip, made by one customer.
#[derive(Clone, Debug, PartialEq, Eq)]
pub struct Booking {
    pub id: BookingId,
    pub customer: CustomerId,
    pub trip: TripId,
    pub participants: Vec<Participant>,
}

/// Mathematical image of a [`Booking`].
#[verifier::ext_equal]
pub struct BookingV {
    pub id: BookingId,
    pub customer: CustomerId,
    pub trip: TripId,
    pub participants: Seq<ParticipantV>,
}

impl View for Booking {
    type V = BookingV;

    open spec fn view(&self) -> BookingV {
        BookingV {
            id: self.id,
            customer: self.customer,
            trip: self.trip,
            participants: self.participants@.map_values(|p: Participant| p@),
        }
    }
}

/// The view of an optional booking, for stating read results.
pub open spec fn opt_booking_view(o: Option<Booking>) -> Option<BookingV> {
    match o {
        Some(b) => Some(b@),
        None => None,
    }
}

/// The view of a sequence of bookings, for stating query results.
pub open spec fn seq_booking_view(v: Seq<Booking>) -> Seq<BookingV> {
    v.map_values(|b: Booking| b@)
}

/// Optional criteria narrowing a booking query; an absent field does not
/// constrain the result.
#[derive(Clone, Copy, Debug, PartialEq, Eq)]
pub struct BookingFilters {
    pub customer: Option<CustomerId>,
    pub trip: Option<TripId>,
    pub participant: Option<ParticipantId>,
}

impl BookingFilters {
    /// Whether every filter field is absent.
    pub open spec fn spec_is_empty(&self) -> bool {
        self.customer is None && self.trip is None && self.participant is None
    }

    /// True when no filter field is present.
    pub fn is_empty(&self) -> (r: bool)
        ensures
            r == self.spec_is_empty(),
    {
        self.customer.is_none() && self.trip.is_none() && self.participant.is_none()
    }
}

/// A request to make a booking on behalf of a customer.
#[derive(Clone, Copy, Debug, PartialEq, Eq)]
pub struct CreateBookingRequest {
    #[allow(dead_code)]
    customer_id: CustomerId,
    #[allow(dead_code)]
    trip_id: u128,
}

/// Failures of booking persistence operations.
///
/// "Not found" is never an error: reads return an absent value instead.
#[derive(Clone, Debug, PartialEq, Eq)]
pub enum BookingError {
    /// A unique key would be violated: the booking id is already taken, or
    /// the supplied participant sequence repeats an id.
    Conflict,
    /// The backing store failed; carries a description of the cause.
    Unknown(String),
}

} // verus!
