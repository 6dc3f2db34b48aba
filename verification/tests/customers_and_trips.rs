//! Behaviour of the customer and trip operations, and of the validated
//! value objects.

use tide::customer::{
    CreateCustomerRequest, Customer, CustomerError, CustomerId, CustomerName, EmailAddress,
    PhoneNumber,
};
use tide::store::MemoryStore;
use tide::trip::{Location, LocationDescription, LocationId, LocationName, Trip, TripFilters, TripId, TripKind, TripKindId};

fn customer(id: u128, name: &str, email: &str, phone: &str) -> Customer {
    Customer {
        id: CustomerId(id),
        name: CustomerName(name.to_string()),
        email: EmailAddress(email.to_string()),
        phone: PhoneNumber(phone.to_string()),
    }
}

fn trip(id: u128, kind: u128, location: u128, start: i64, end: i64) -> Trip {
    Trip {
        id: TripId(id),
        kind: TripKind {
            id: TripKindId(kind),
            name: "rafting".to_string(),
            description: "white water".to_string(),
            guided: true,
            meal_provided: false,
        },
        location: LocationId(location),
        start_time: start,
        end_time: end,
    }
}

#[test]
fn customer_round_trip() {
    let mut store = MemoryStore::new();
    let c = customer(1, "Ann", "ann@example.com", "555-0100");
    assert_eq!(store.save_customer(&c), Ok(()));
    assert_eq!(store.find_customer(CustomerId(1)).unwrap(), Some(c));
    assert_eq!(store.find_customer(CustomerId(2)).unwrap(), None);
}

#[test]
fn duplicate_customer_id_is_a_conflict() {
    let mut store = MemoryStore::new();
    let c = customer(1, "Ann", "ann@example.com", "555-0100");
    assert_eq!(store.save_customer(&c), Ok(()));
    let again = customer(1, "Bob", "bob@example.com", "555-0101");
    assert_eq!(store.save_customer(&again), Err(CustomerError::Conflict));
    assert_eq!(store.find_customer(CustomerId(1)).unwrap(), Some(c));
}

#[test]
fn duplicate_email_is_reported() {
    let mut store = MemoryStore::new();
    let c = customer(1, "Ann", "ann@example.com", "555-0100");
    assert_eq!(store.save_customer(&c), Ok(()));
    let other = customer(2, "Bob", "ann@example.com", "555-0101");
    assert_eq!(
        store.save_customer(&other),
        Err(CustomerError::EmailTaken("ann@example.com".to_string()))
    );
    assert_eq!(store.find_customer(CustomerId(2)).unwrap(), None);
}

#[test]
fn delete_customer_is_idempotent() {
    let mut store = MemoryStore::new();
    let c = customer(1, "Ann", "ann@example.com", "555-0100");
    assert_eq!(store.save_customer(&c), Ok(()));
    assert_eq!(store.delete_customer(CustomerId(1)), Ok(()));
    assert_eq!(store.delete_customer(CustomerId(1)), Ok(()));
    assert_eq!(store.find_customer(CustomerId(1)).unwrap(), None);
}

#[test]
fn names_are_trimmed_and_validated() {
    let ok = CustomerName::try_from(&"  Alice  ".to_string());
    assert_eq!(ok, Ok(CustomerName("Alice".to_string())));
    let short = CustomerName::try_from(&"  ab ".to_string());
    assert_eq!(short, Err(CustomerError::InvalidName("ab".to_string())));
}

#[test]
fn emails_are_trimmed_and_validated() {
    let ok = EmailAddress::try_from(&" a@b.io ".to_string());
    assert_eq!(ok, Ok(EmailAddress("a@b.io".to_string())));
    let short = EmailAddress::try_from(&" x ".to_string());
    assert_eq!(short, Err(CustomerError::InvalidEmail("x".to_string())));
}

#[test]
fn phones_are_trimmed_and_validated() {
    let ok = PhoneNumber::try_from(&" 555-0100 ".to_string());
    assert_eq!(ok, Ok(PhoneNumber("555-0100".to_string())));
    let short = PhoneNumber::try_from(&"12".to_string());
    assert_eq!(short, Err(CustomerError::InvalidPhone("12".to_string())));
}

#[test]
fn customer_creation_validates_in_order() {
    let good = CreateCustomerRequest {
        name: " Ann Lee ".to_string(),
        email: "ann@example.com".to_string(),
        phone: "555-0100".to_string(),
    };
    let c = Customer::try_from(good).unwrap();
    assert_eq!(c.name, CustomerName("Ann Lee".to_string()));
    assert_eq!(c.email, EmailAddress("ann@example.com".to_string()));
    assert_eq!(c.phone, PhoneNumber("555-0100".to_string()));

    let bad_name_and_email = CreateCustomerRequest {
        name: " x ".to_string(),
        email: "y".to_string(),
        phone: "555-0100".to_string(),
    };
    // the first failing field decides the error
    assert_eq!(
        Customer::try_from(bad_name_and_email),
        Err(CustomerError::InvalidName("x".to_string()))
    );
    let bad_phone = CreateCustomerRequest {
        name: "Ann".to_string(),
        email: "ann@example.com".to_string(),
        phone: " 1 ".to_string(),
    };
    assert_eq!(Customer::try_from(bad_phone), Err(CustomerError::InvalidPhone("1".to_string())));
}

#[test]
fn fresh_customers_get_distinct_ids() {
    let request = || CreateCustomerRequest {
        name: "Ann".to_string(),
        email: "ann@example.com".to_string(),
        phone: "555-0100".to_string(),
    };
    let a = Customer::try_from(request()).unwrap();
    let b = Customer::try_from(request()).unwrap();
    assert_ne!(a.id, b.id);
}

#[test]
fn trip_round_trip() {
    let mut store = MemoryStore::new();
    let t = trip(1, 5, 9, 1000, 2000);
    assert!(store.insert_trip(&t));
    assert_eq!(store.find_trip(TripId(1)).unwrap(), Some(t));
    assert_eq!(store.find_trip(TripId(2)).unwrap(), None);
}

#[test]
fn duplicate_trip_id_is_refused() {
    let mut store = MemoryStore::new();
    assert!(store.insert_trip(&trip(1, 5, 9, 1000, 2000)));
    assert!(!store.insert_trip(&trip(1, 6, 9, 1500, 2500)));
}

#[test]
fn trip_filters_are_a_conjunction() {
    let mut store = MemoryStore::new();
    let t1 = trip(1, 5, 9, 1000, 2000);
    let t2 = trip(2, 5, 8, 5000, 6000);
    let t3 = trip(3, 6, 9, 1000, 2000);
    assert!(store.insert_trip(&t1));
    assert!(store.insert_trip(&t2));
    assert!(store.insert_trip(&t3));
    let by_kind = TripFilters { kind: Some(TripKindId(5)), location: None, date_range: None };
    assert_eq!(store.find_trips(&by_kind).unwrap(), vec![t1.clone(), t2.clone()]);
    let by_kind_and_location = TripFilters {
        kind: Some(TripKindId(5)),
        location: Some(LocationId(9)),
        date_range: None,
    };
    assert_eq!(store.find_trips(&by_kind_and_location).unwrap(), vec![t1.clone()]);
    // the date range bounds the start instant, both ends included
    let by_range = TripFilters { kind: None, location: None, date_range: Some((1000, 5000)) };
    assert_eq!(store.find_trips(&by_range).unwrap(), vec![t1, t2, t3].into_iter().filter(
        |t| t.start_time >= 1000 && t.start_time <= 5000,
    ).collect::<Vec<_>>());
}

#[test]
fn empty_trip_filters_return_an_empty_result() {
    let mut store = MemoryStore::new();
    assert!(store.insert_trip(&trip(1, 5, 9, 1000, 2000)));
    let none = TripFilters { kind: None, location: None, date_range: None };
    assert_eq!(store.find_trips(&none).unwrap(), vec![]);
}

#[test]
fn locations_carry_their_texts() {
    let l = Location {
        id: LocationId(4),
        name: LocationName("North dock".to_string()),
        description: LocationDescription("the jetty by the bridge".to_string()),
    };
    assert_eq!(l.name, LocationName("North dock".to_string()));
    assert_eq!(l.description, LocationDescription("the jetty by the bridge".to_string()));
}
