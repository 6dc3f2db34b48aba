//! Behaviour of the row-flattening mapper, the filter-query builder, the
//! rentals, the configuration, and the service facade.

use tide::booking::{BookingFilters, BookingId, Participant, ParticipantId};
use tide::config::{Config, ConfigError};
use tide::customer::CustomerId;
use tide::equipment::{BookingRentals, EquipmentError, EquipmentId};
use tide::mapper::{
    booking_from_rows, customer_from_row, participants_to_tuples, rows_to_bookings, trip_from_row,
    BookingRow, CustomerRow, TripRow,
};
use tide::ports::{BookingRepository, BookingService};
use tide::query::{booking_predicates, trip_predicates, BookingPredicate, TripPredicate};
use tide::service::Service;
use tide::store::MemoryStore;
use tide::trip::{LocationId, TripFilters, TripId, TripKindId};
use tide::waiver::WaiverId;

fn row(booking: u128, participant: u128, name: &str, waiver: Option<u128>) -> BookingRow {
    BookingRow {
        booking_id: BookingId(booking),
        customer_id: CustomerId(booking + 100),
        trip_id: TripId(booking + 200),
        participant_id: ParticipantId(participant),
        name: name.to_string(),
        dob: 7000,
        notes: String::new(),
        waiver_id: waiver.map(WaiverId),
    }
}

#[test]
fn grouping_keeps_first_appearance_order() {
    let rows = vec![
        row(2, 21, "Ann", None),
        row(1, 11, "Bob", None),
        row(2, 22, "Cid", Some(9)),
    ];
    let bookings = rows_to_bookings(&rows);
    assert_eq!(bookings.len(), 2);
    assert_eq!(bookings[0].id, BookingId(2));
    assert_eq!(bookings[0].customer, CustomerId(102));
    assert_eq!(bookings[0].trip, TripId(202));
    assert_eq!(
        bookings[0].participants.iter().map(|p| p.id).collect::<Vec<_>>(),
        vec![ParticipantId(21), ParticipantId(22)]
    );
    assert_eq!(bookings[0].participants[1].waiver, Some(WaiverId(9)));
    assert_eq!(bookings[1].id, BookingId(1));
    assert_eq!(bookings[1].participants.len(), 1);
}

#[test]
fn grouping_maps_a_missing_waiver_to_none() {
    let rows = vec![row(1, 11, "Bob", None)];
    let bookings = rows_to_bookings(&rows);
    assert_eq!(bookings[0].participants[0].waiver, None);
}

#[test]
fn no_rows_group_to_no_bookings() {
    let bookings = rows_to_bookings(&Vec::new());
    assert_eq!(bookings, vec![]);
}

#[test]
fn single_booking_takes_first_header_and_every_row() {
    assert_eq!(booking_from_rows(&Vec::new()), None);
    let rows = vec![row(1, 11, "Ann", None), row(1, 12, "Bob", Some(5))];
    let b = booking_from_rows(&rows).unwrap();
    assert_eq!(b.id, BookingId(1));
    assert_eq!(b.customer, CustomerId(101));
    assert_eq!(b.trip, TripId(201));
    assert_eq!(b.participants.len(), 2);
    assert_eq!(b.participants[0].name, "Ann".to_string());
    assert_eq!(b.participants[1].waiver, Some(WaiverId(5)));
}

#[test]
fn participants_split_into_column_vectors() {
    let ps = vec![
        Participant {
            id: ParticipantId(1),
            name: "Ann".to_string(),
            dob: 100,
            notes: "a".to_string(),
            waiver: None,
        },
        Participant {
            id: ParticipantId(2),
            name: "Bob".to_string(),
            dob: 200,
            notes: "b".to_string(),
            waiver: Some(WaiverId(4)),
        },
    ];
    let (ids, names, dobs, notes) = participants_to_tuples(&ps);
    assert_eq!(ids, vec![1, 2]);
    assert_eq!(names, vec!["Ann".to_string(), "Bob".to_string()]);
    assert_eq!(dobs, vec![100, 200]);
    assert_eq!(notes, vec!["a".to_string(), "b".to_string()]);
}

#[test]
fn leaf_rows_convert_to_entities() {
    let c = customer_from_row(CustomerRow {
        customer_id: CustomerId(1),
        name: "Ann".to_string(),
        email: "ann@example.com".to_string(),
        phone: "555-0100".to_string(),
    });
    assert_eq!(c.id, CustomerId(1));
    assert_eq!(c.name.0, "Ann".to_string());
    let t = trip_from_row(TripRow {
        trip_id: TripId(2),
        trip_kind_id: TripKindId(3),
        name: "rafting".to_string(),
        description: "white water".to_string(),
        guided: true,
        meal_provided: false,
        location_id: LocationId(4),
        start_time: 100,
        end_time: 200,
    });
    assert_eq!(t.id, TripId(2));
    assert_eq!(t.kind.id, TripKindId(3));
    assert_eq!(t.location, LocationId(4));
    assert!(t.kind.guided);
}

#[test]
fn booking_filters_compile_to_present_fields_only() {
    let none = BookingFilters { customer: None, trip: None, participant: None };
    assert_eq!(booking_predicates(&none), vec![]);
    assert!(none.is_empty());
    let some = BookingFilters {
        customer: Some(CustomerId(7)),
        trip: None,
        participant: Some(ParticipantId(9)),
    };
    assert_eq!(
        booking_predicates(&some),
        vec![BookingPredicate::CustomerIs(7), BookingPredicate::ParticipantIs(9)]
    );
    assert!(!some.is_empty());
}

#[test]
fn trip_filters_compile_to_present_fields_only() {
    let all = TripFilters {
        kind: Some(TripKindId(1)),
        location: Some(LocationId(2)),
        date_range: Some((10, 20)),
    };
    assert_eq!(
        trip_predicates(&all),
        vec![
            TripPredicate::KindIs(1),
            TripPredicate::LocationIs(2),
            TripPredicate::StartsBetween(10, 20),
        ]
    );
    let none = TripFilters { kind: None, location: None, date_range: None };
    assert_eq!(trip_predicates(&none), vec![]);
    assert!(none.is_empty());
}

#[test]
fn rentals_round_trip_and_replace() {
    let mut store = MemoryStore::new();
    let empty = store.find_booking_rentals(BookingId(1)).unwrap();
    assert_eq!(empty.rentals, vec![]);
    let first = BookingRentals {
        booking_id: BookingId(1),
        rentals: vec![(EquipmentId(5), 2), (EquipmentId(6), 1)],
    };
    assert_eq!(store.save_booking_rentals(&first), Ok(()));
    assert_eq!(store.find_booking_rentals(BookingId(1)).unwrap(), first);
    // saving again replaces the whole mapping
    let second = BookingRentals { booking_id: BookingId(1), rentals: vec![(EquipmentId(6), 3)] };
    assert_eq!(store.save_booking_rentals(&second), Ok(()));
    assert_eq!(store.find_booking_rentals(BookingId(1)).unwrap(), second);
}

#[test]
fn rentals_with_a_repeated_key_are_refused() {
    let mut store = MemoryStore::new();
    let bad = BookingRentals {
        booking_id: BookingId(1),
        rentals: vec![(EquipmentId(5), 2), (EquipmentId(5), 1)],
    };
    assert_eq!(store.save_booking_rentals(&bad), Err(EquipmentError::Conflict));
    assert_eq!(store.find_booking_rentals(BookingId(1)).unwrap().rentals, vec![]);
}

#[test]
fn config_comes_from_both_variables() {
    let c = Config::from_env(Some("8080".to_string()), Some("postgres://db".to_string())).unwrap();
    assert_eq!(c.server_port, "8080".to_string());
    assert_eq!(c.db_url, "postgres://db".to_string());
    assert_eq!(
        Config::from_env(None, Some("postgres://db".to_string())),
        Err(ConfigError::MissingServerPort)
    );
    assert_eq!(Config::from_env(Some("8080".to_string()), None), Err(ConfigError::MissingDbUrl));
}

#[test]
fn service_forwards_to_its_repository() {
    let mut store = MemoryStore::new();
    let b = tide::booking::Booking {
        id: BookingId(1),
        customer: CustomerId(10),
        trip: TripId(20),
        participants: vec![Participant {
            id: ParticipantId(2),
            name: "Ann".to_string(),
            dob: 0,
            notes: String::new(),
            waiver: None,
        }],
    };
    assert_eq!(BookingRepository::save_booking(&mut store, &b), Ok(()));
    let service = Service::new(store);
    assert_eq!(BookingService::find_booking(&service, BookingId(1)).unwrap(), Some(b));
}

#[test]
fn booking_clause_renders_placeholders_in_order() {
    let f = BookingFilters {
        customer: Some(CustomerId(7)),
        trip: Some(TripId(8)),
        participant: Some(ParticipantId(9)),
    };
    assert_eq!(
        tide::query::booking_where_clause(&f),
        " AND customer_id = $1 AND trip_id = $2 AND participant_id = $3".to_string()
    );
    let only_trip = BookingFilters { customer: None, trip: Some(TripId(8)), participant: None };
    assert_eq!(tide::query::booking_where_clause(&only_trip), " AND trip_id = $1".to_string());
    let none = BookingFilters { customer: None, trip: None, participant: None };
    assert_eq!(tide::query::booking_where_clause(&none), String::new());
}

#[test]
fn trip_clause_numbers_both_range_binds() {
    let f = TripFilters {
        kind: Some(TripKindId(1)),
        location: Some(LocationId(2)),
        date_range: Some((10, 20)),
    };
    assert_eq!(
        tide::query::trip_where_clause(&f),
        " AND trip_kind_id = $1 AND location_id = $2 AND start_time BETWEEN $3 AND $4"
            .to_string()
    );
    let range_only = TripFilters { kind: None, location: None, date_range: Some((10, 20)) };
    assert_eq!(
        tide::query::trip_where_clause(&range_only),
        " AND start_time BETWEEN $1 AND $2".to_string()
    );
}
