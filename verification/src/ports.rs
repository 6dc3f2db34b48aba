//! The repository contract the booking domain depends on.
//!
//! An implementation exposes its relational state as a [`Db`] value and
//! keeps it well formed; each operation promises at least this: a read
//! that succeeds reports exactly what the state holds, and a write either
//! commits its whole effect or — on any failure — leaves the state as it
//! was (the transactional promise of the write protocol).  Failure itself
//! is left open: a networked implementation may fail on any call.  The
//! in-memory store implements this contract with the stronger promise
//! that it fails exactly on the documented conflicts.

use vstd::prelude::*;

use crate::booking::{opt_booking_view, seq_booking_view, Booking, BookingError, BookingFilters, BookingId};
use crate::customer::{opt_customer_view, Customer, CustomerError, CustomerId};
use crate::db::Db;
use crate::equipment::{BookingRentals, EquipmentError};
use crate::trip::{opt_trip_view, seq_trip_view, Trip, TripError, TripFilters, TripId};

verus! {

/// Access to and persistence of the booking domain's models.
pub trait BookingRepository: Sized {
    /// The relational state the implementation holds.
    spec fn state(&self) -> Db;

    /// The implementation's invariant: its state is well formed.
    spec fn inv(&self) -> bool;

    /// Gets a booking by id if it exists.
    fn find_booking(&self, id: BookingId) -> (r: Result<Option<Booking>, BookingError>)
        requires
            self.inv(),
        ensures
            r matches Ok(o) ==> opt_booking_view(o) == self.state().lookup_booking(id),
    ;

    /// Gets all bookings that match the given filters.
    fn find_bookings(&self, filters: &BookingFilters) -> (r: Result<Vec<Booking>, BookingError>)
        requires
            self.inv(),
        ensures
            r matches Ok(bs) ==> seq_booking_view(bs@) == self.state().query_bookings(*filters),
    ;

    /// Atomically saves a booking and its participants.
    fn save_booking(&mut self, booking: &Booking) -> (r: Result<(), BookingError>)
        requires
            old(self).inv(),
        ensures
            final(self).inv(),
            r is Ok ==> old(self).state().can_save_booking(booking@) && final(self).state()
                == old(self).state().saved_booking(booking@),
            r is Err ==> final(self).state() == old(self).state(),
    ;

    /// Atomically deletes a booking and its membership rows.
    fn delete_booking(&mut self, id: BookingId) -> (r: Result<(), BookingError>)
        requires
            old(self).inv(),
        ensures
            final(self).inv(),
            r is Ok ==> final(self).state() == old(self).state().deleted_booking(id),
            r is Err ==> final(self).state() == old(self).state(),
    ;

    /// Gets a customer by id if it exists.
    fn find_customer(&self, id: CustomerId) -> (r: Result<Option<Customer>, CustomerError>)
        requires
            self.inv(),
        ensures
            r matches Ok(o) ==> opt_customer_view(o) == self.state().lookup_customer(id),
    ;

    /// Creates a customer.
    fn save_customer(&mut self, customer: &Customer) -> (r: Result<(), CustomerError>)
        requires
            old(self).inv(),
        ensures
            final(self).inv(),
            r is Ok ==> old(self).state().can_save_customer(customer@) && final(self).state()
                == old(self).state().saved_customer(customer@),
            r is Err ==> final(self).state() == old(self).state(),
    ;

    /// Deletes a customer by id.
    fn delete_customer(&mut self, id: CustomerId) -> (r: Result<(), CustomerError>)
        requires
            old(self).inv(),
        ensures
            final(self).inv(),
            r is Ok ==> final(self).state() == old(self).state().deleted_customer(id),
            r is Err ==> final(self).state() == old(self).state(),
    ;

    /// Gets a trip by id if it exists.
    fn find_trip(&self, id: TripId) -> (r: Result<Option<Trip>, TripError>)
        requires
            self.inv(),
        ensures
            r matches Ok(o) ==> opt_trip_view(o) == self.state().lookup_trip(id),
    ;

    /// Gets all trips that match the given filters.
    fn find_trips(&self, trip_filters: &TripFilters) -> (r: Result<Vec<Trip>, TripError>)
        requires
            self.inv(),
        ensures
            r matches Ok(ts) ==> seq_trip_view(ts@) == self.state().query_trips(*trip_filters),
    ;

    /// Gets the equipment rentals of a booking.
    fn find_booking_rentals(&self, booking_id: BookingId) -> (r: Result<
        BookingRentals,
        EquipmentError,
    >)
        requires
            self.inv(),
        ensures
            r matches Ok(br) ==> br.booking_id == booking_id && br@.rentals
                == self.state().lookup_rentals(booking_id) && br.keys_distinct(),
    ;

    /// Replaces the equipment rentals of a booking.
    fn save_booking_rentals(&mut self, booking_rentals: &BookingRentals) -> (r: Result<
        (),
        EquipmentError,
    >)
        requires
            old(self).inv(),
        ensures
            final(self).inv(),
            r is Ok ==> booking_rentals.keys_distinct() && final(self).state() == old(
                self,
            ).state().saved_rentals(booking_rentals@.booking_id, booking_rentals@.rentals),
            r is Err ==> final(self).state() == old(self).state(),
    ;
}

/// The use-case interactions the booking domain offers inbound callers.
pub trait BookingService: Sized {
    /// The relational state behind the service.
    spec fn state(&self) -> Db;

    /// The service's invariant.
    spec fn inv(&self) -> bool;

    /// Gets a booking by id if it exists.
    fn find_booking(&self, id: BookingId) -> (r: Result<Option<Booking>, BookingError>)
        requires
            self.inv(),
        ensures
            r matches Ok(o) ==> opt_booking_view(o) == self.state().lookup_booking(id),
    ;
}

} // verus!
