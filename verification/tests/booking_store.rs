//! Behaviour of the in-memory repository's booking operations.

use tide::booking::{Booking, BookingError, BookingFilters, BookingId, Participant, ParticipantId};
use tide::customer::CustomerId;
use tide::store::MemoryStore;
use tide::trip::TripId;
use tide::waiver::WaiverId;

fn participant(id: u128, name: &str, dob: i64, notes: &str, waiver: Option<u128>) -> Participant {
    Participant {
        id: ParticipantId(id),
        name: name.to_string(),
        dob,
        notes: notes.to_string(),
        waiver: waiver.map(WaiverId),
    }
}

fn booking(id: u128, customer: u128, trip: u128, participants: Vec<Participant>) -> Booking {
    Booking {
        id: BookingId(id),
        customer: CustomerId(customer),
        trip: TripId(trip),
        participants,
    }
}

fn no_filters() -> BookingFilters {
    BookingFilters { customer: None, trip: None, participant: None }
}

#[test]
fn round_trip_preserves_participants_in_order() {
    let mut store = MemoryStore::new();
    store.record_waiver(ParticipantId(21), WaiverId(91));
    let b = booking(
        1,
        10,
        20,
        vec![
            participant(22, "Zoe", 7300, "vegetarian", None),
            participant(21, "Ann", 1200, "", Some(91)),
        ],
    );
    assert_eq!(store.save_booking(&b), Ok(()));
    let found = store.find_booking(BookingId(1)).unwrap();
    assert_eq!(found, Some(b));
}

#[test]
fn find_missing_booking_is_none() {
    let store = MemoryStore::new();
    assert_eq!(store.find_booking(BookingId(7)).unwrap(), None);
}

#[test]
fn booking_without_participants_is_invisible() {
    let mut store = MemoryStore::new();
    let b = booking(3, 10, 20, vec![]);
    assert_eq!(store.save_booking(&b), Ok(()));
    // the read joins through the membership table, so no rows come back
    assert_eq!(store.find_booking(BookingId(3)).unwrap(), None);
}

#[test]
fn duplicate_booking_id_is_a_conflict() {
    let mut store = MemoryStore::new();
    let b = booking(5, 10, 20, vec![participant(1, "Ann", 0, "", None)]);
    assert_eq!(store.save_booking(&b), Ok(()));
    let again = booking(5, 11, 21, vec![participant(2, "Bob", 1, "", None)]);
    assert_eq!(store.save_booking(&again), Err(BookingError::Conflict));
    // the first booking is untouched
    assert_eq!(store.find_booking(BookingId(5)).unwrap(), Some(b));
}

#[test]
fn failed_save_leaves_no_partial_effect() {
    let mut store = MemoryStore::new();
    let first = booking(1, 10, 20, vec![participant(40, "Ann", 100, "old notes", None)]);
    assert_eq!(store.save_booking(&first), Ok(()));
    // duplicate participant ids violate the join table's key: the write
    // fails as a whole
    let bad = booking(
        2,
        10,
        20,
        vec![
            participant(40, "Ann", 100, "new notes", None),
            participant(40, "Ann", 100, "new notes", None),
        ],
    );
    assert_eq!(store.save_booking(&bad), Err(BookingError::Conflict));
    assert_eq!(store.find_booking(BookingId(2)).unwrap(), None);
    // not even the participant upsert of the failed write is visible
    let found = store.find_booking(BookingId(1)).unwrap().unwrap();
    assert_eq!(found.participants[0].notes, "old notes".to_string());
}

#[test]
fn saving_known_participant_updates_content_store_wide() {
    let mut store = MemoryStore::new();
    let first = booking(1, 10, 20, vec![participant(40, "Ann", 100, "old", None)]);
    assert_eq!(store.save_booking(&first), Ok(()));
    let second = booking(2, 11, 20, vec![participant(40, "Annette", 100, "new", None)]);
    assert_eq!(store.save_booking(&second), Ok(()));
    // the earlier booking now shows the refreshed content too
    let found = store.find_booking(BookingId(1)).unwrap().unwrap();
    assert_eq!(found.participants[0].name, "Annette".to_string());
    assert_eq!(found.participants[0].notes, "new".to_string());
}

#[test]
fn missing_waiver_row_maps_to_none() {
    let mut store = MemoryStore::new();
    // the supplied reference is not backed by a waiver row: the read
    // reports what the store holds, an absent reference
    let b = booking(1, 10, 20, vec![participant(33, "Ann", 0, "", Some(77))]);
    assert_eq!(store.save_booking(&b), Ok(()));
    let found = store.find_booking(BookingId(1)).unwrap().unwrap();
    assert_eq!(found.participants[0].waiver, None);
}

#[test]
fn recorded_waiver_is_referenced() {
    let mut store = MemoryStore::new();
    store.record_waiver(ParticipantId(33), WaiverId(77));
    let b = booking(1, 10, 20, vec![participant(33, "Ann", 0, "", Some(77))]);
    assert_eq!(store.save_booking(&b), Ok(()));
    let found = store.find_booking(BookingId(1)).unwrap().unwrap();
    assert_eq!(found.participants[0].waiver, Some(WaiverId(77)));
}

#[test]
fn empty_filters_return_an_empty_result() {
    let mut store = MemoryStore::new();
    let b = booking(1, 10, 20, vec![participant(2, "Ann", 0, "", None)]);
    assert_eq!(store.save_booking(&b), Ok(()));
    // the chosen policy: an all-absent filter matches nothing, not
    // everything
    assert_eq!(store.find_bookings(&no_filters()).unwrap(), vec![]);
}

#[test]
fn filters_are_a_conjunction() {
    let mut store = MemoryStore::new();
    let b1 = booking(1, 10, 20, vec![participant(2, "Ann", 0, "", None)]);
    let b2 = booking(3, 10, 21, vec![participant(4, "Bob", 0, "", None)]);
    assert_eq!(store.save_booking(&b1), Ok(()));
    assert_eq!(store.save_booking(&b2), Ok(()));
    let by_customer = BookingFilters {
        customer: Some(CustomerId(10)),
        trip: None,
        participant: None,
    };
    assert_eq!(store.find_bookings(&by_customer).unwrap(), vec![b1.clone(), b2.clone()]);
    let by_customer_and_trip = BookingFilters {
        customer: Some(CustomerId(10)),
        trip: Some(TripId(20)),
        participant: None,
    };
    assert_eq!(store.find_bookings(&by_customer_and_trip).unwrap(), vec![b1]);
}

#[test]
fn results_are_ordered_by_booking_id() {
    let mut store = MemoryStore::new();
    let late = booking(9, 10, 20, vec![participant(2, "Ann", 0, "", None)]);
    let early = booking(4, 10, 20, vec![participant(3, "Bob", 0, "", None)]);
    assert_eq!(store.save_booking(&late), Ok(()));
    assert_eq!(store.save_booking(&early), Ok(()));
    let by_customer = BookingFilters {
        customer: Some(CustomerId(10)),
        trip: None,
        participant: None,
    };
    assert_eq!(store.find_bookings(&by_customer).unwrap(), vec![early, late]);
}

#[test]
fn participant_filter_narrows_rows() {
    let mut store = MemoryStore::new();
    let b = booking(
        1,
        10,
        20,
        vec![participant(2, "Ann", 0, "", None), participant(3, "Bob", 0, "", None)],
    );
    assert_eq!(store.save_booking(&b), Ok(()));
    let by_participant = BookingFilters {
        customer: None,
        trip: None,
        participant: Some(ParticipantId(3)),
    };
    // the filter constrains the join rows: the booking comes back with
    // only the matching participant
    let found = store.find_bookings(&by_participant).unwrap();
    assert_eq!(found.len(), 1);
    assert_eq!(found[0].id, BookingId(1));
    assert_eq!(found[0].participants, vec![participant(3, "Bob", 0, "", None)]);
    let by_stranger = BookingFilters {
        customer: None,
        trip: None,
        participant: Some(ParticipantId(99)),
    };
    assert_eq!(store.find_bookings(&by_stranger).unwrap(), vec![]);
}

#[test]
fn deleting_a_missing_booking_succeeds() {
    let mut store = MemoryStore::new();
    assert_eq!(store.delete_booking(BookingId(8)), Ok(()));
}

#[test]
fn deleting_twice_equals_deleting_once() {
    let mut store = MemoryStore::new();
    let b = booking(1, 10, 20, vec![participant(2, "Ann", 0, "", None)]);
    let other = booking(2, 11, 21, vec![participant(3, "Bob", 0, "", None)]);
    assert_eq!(store.save_booking(&b), Ok(()));
    assert_eq!(store.save_booking(&other), Ok(()));
    assert_eq!(store.delete_booking(BookingId(1)), Ok(()));
    assert_eq!(store.delete_booking(BookingId(1)), Ok(()));
    assert_eq!(store.find_booking(BookingId(1)).unwrap(), None);
    // the other booking survives
    assert_eq!(store.find_booking(BookingId(2)).unwrap(), Some(other));
}

#[test]
fn deleting_a_booking_keeps_participant_rows() {
    let mut store = MemoryStore::new();
    let b = booking(1, 10, 20, vec![participant(40, "Ann", 100, "kept", None)]);
    assert_eq!(store.save_booking(&b), Ok(()));
    assert_eq!(store.delete_booking(BookingId(1)), Ok(()));
    // the participant entity survives: a new booking re-attaches it
    // without restating different content
    let again = booking(2, 10, 20, vec![participant(40, "Ann", 100, "kept", None)]);
    assert_eq!(store.save_booking(&again), Ok(()));
    let found = store.find_booking(BookingId(2)).unwrap().unwrap();
    assert_eq!(found.participants[0].notes, "kept".to_string());
}

#[test]
fn largest_ids_are_ordinary_values() {
    let mut store = MemoryStore::new();
    let b = booking(
        u128::MAX,
        u128::MAX,
        u128::MAX,
        vec![participant(u128::MAX, "Max", i64::MAX, "", None)],
    );
    assert_eq!(store.save_booking(&b), Ok(()));
    assert_eq!(store.find_booking(BookingId(u128::MAX)).unwrap(), Some(b.clone()));
    let small = booking(0, 1, 2, vec![participant(3, "Min", i64::MIN, "", None)]);
    assert_eq!(store.save_booking(&small), Ok(()));
    let by_all = BookingFilters { customer: None, trip: None, participant: Some(ParticipantId(3)) };
    let found = store.find_bookings(&by_all).unwrap();
    assert_eq!(found.len(), 1);
    assert_eq!(found[0].id, BookingId(0));
}
