//! Trips, their kinds and departure locations.

use vstd::prelude::*;

verus! {

/// Identifier of a trip: an opaque 128-bit value, compared by value.
#[derive(Clone, Copy, Debug, PartialEq, Eq, Structural, PartialOrd, Ord, Hash)]
pub struct TripId(pub u128);

/// Identifier of a trip kind: an opaque 128-bit value, compared by value.
#[derive(Clone, Copy, Debug, PartialEq, Eq, Structural, PartialOrd, Ord, Hash)]
pub struct TripKindId(pub u128);

/// Identifier of a location: an opaque 128-bit value, compared by value.
#[derive(Clone, Copy, Debug, PartialEq, Eq, Structural, PartialOrd, Ord, Hash)]
pub struct LocationId(pub u128);

/// A category of trip: a service the company provides.
#[derive(Clone, Debug, PartialEq, Eq, PartialOrd, Ord, Hash)]
pub struct TripKind {
    pub id: TripKindId,
    pub name: String,
    pub description: String,
    pub guided: bool,
    pub meal_provided: bool,
}

/// Mathematical image of a [`TripKind`].
#[verifier::ext_equal]
pub struct TripKindV {
    pub id: TripKindId,
    pub name: Seq<char>,
    pub description: Seq<char>,
    pub guided: bool,
    pub meal_provided: bool,
}

impl View for TripKind {
    type V = TripKindV;

    open spec fn view(&self) -> TripKindV {
        TripKindV {
            id: self.id,
            name: self.name@,
            description: self.description@,
            guided: self.guided,
            meal_provided: self.meal_provided,
        }
    }
}

/// A scheduled, bookable instance of a trip kind.
///
/// The start and end are instants carried as seconds relative to the Unix
/// epoch; adapters convert calendar timestamps at the boundary.  Trips are
/// immutable once created: the repository contract only reads them.
#[derive(Clone, Debug, PartialEq, Eq, PartialOrd, Ord, Hash)]
pub struct Trip {
    pub id: TripId,
    pub kind: TripKind,
    pub location: LocationId,
    pub start_time: i64,
    pub end_time: i64,
}

/// Mathematical image of a [`Trip`].
#[verifier::ext_equal]
pub struct TripV {
    pub id: TripId,
    pub kind: TripKindV,
    pub location: LocationId,
    pub start_time: i64,
    pub end_time: i64,
}

impl View for Trip {
    type V = TripV;

    open spec fn view(&self) -> TripV {
        TripV {
            id: self.id,
            kind: self.kind@,
            location: self.location,
            start_time: self.start_time,
            end_time: self.end_time,
        }
    }
}

/// The view of an optional trip, for stating read results.
pub open spec fn opt_trip_view(o: Option<Trip>) -> Option<TripV> {
    match o {
        Some(t) => Some(t@),
        None => None,
    }
}

/// The view of a sequence of trips, for stating query results.
pub open spec fn seq_trip_view(v: Seq<Trip>) -> Seq<TripV> {
    v.map_values(|t: Trip| t@)
}

/// A departure location a trip leaves from.
#[derive(Clone, Debug, PartialEq, Eq, PartialOrd, Ord, Hash)]
pub struct Location {
    pub id: LocationId,
    pub name: LocationName,
    pub description: LocationDescription,
}

/// A location's display name.
#[derive(Clone, Debug, PartialEq, Eq, PartialOrd, Ord, Hash)]
pub struct LocationName(pub String);

/// A location's free-text description.
#[derive(Clone, Debug, PartialEq, Eq, PartialOrd, Ord, Hash)]
pub struct LocationDescription(pub String);

/// Optional criteria narrowing a trip query; an absent field does not
/// constrain the result.  The date range bounds the trip's start instant,
/// both ends included.
#[derive(Clone, Copy, Debug, PartialEq, Eq)]
pub struct TripFilters {
    pub kind: Option<TripKindId>,
    pub location: Option<LocationId>,
    pub date_range: Option<(i64, i64)>,
}

impl TripFilters {
    /// Whether every filter field is absent.
    pub open spec fn spec_is_empty(&self) -> bool {
        self.kind is None && self.location is None && self.date_range is None
    }

    /// True when no filter field is present.
    pub fn is_empty(&self) -> (r: bool)
        ensures
            r == self.spec_is_empty(),
    {
        self.kind.is_none() && self.location.is_none() && self.date_range.is_none()
    }
}

/// Failures of trip persistence operations.
///
/// "Not found" is never an error: reads return an absent value instead.
#[derive(Clone, Debug, PartialEq, Eq)]
pub enum TripError {
    /// The backing store failed; carries a description of the cause.
    Unknown(String),
}

} // verus!
