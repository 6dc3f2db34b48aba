//! The mathematical model of the relational store.
//!
//! [`Db`] mirrors the schema the adapter depends on: one sequence per
//! table, each element one row.  All repository contracts are stated as
//! functions of a `Db` value; the in-memory store exposes its state as one,
//! and every operation's effect is a pure function from `Db` to `Db`.

use vstd::prelude::*;

use crate::booking::{BookingFilters, BookingId, BookingV, ParticipantId, ParticipantV};
use crate::customer::{CustomerId, CustomerV};
use crate::equipment::EquipmentId;
use crate::trip::{TripFilters, TripId, TripV};
use crate::waiver::WaiverId;

verus! {

/// One row of the booking table: the aggregate's header, ids only.
#[derive(Clone, Copy, Debug, PartialEq, Eq, Structural)]
pub struct BookingHeader {
    pub id: BookingId,
    pub customer: CustomerId,
    pub trip: TripId,
}

/// One row of the participant table.  Participant rows are owned by no
/// booking: they are keyed by id and upserted.
#[derive(Clone, Debug, PartialEq, Eq)]
pub struct ParticipantRow {
    pub id: ParticipantId,
    pub name: String,
    pub dob: i64,
    pub notes: String,
}

/// Mathematical image of a [`ParticipantRow`].
#[verifier::ext_equal]
pub struct ParticipantRowV {
    pub id: ParticipantId,
    pub name: Seq<char>,
    pub dob: i64,
    pub notes: Seq<char>,
}

impl View for ParticipantRow {
    type V = ParticipantRowV;

    open spec fn view(&self) -> ParticipantRowV {
        ParticipantRowV { id: self.id, name: self.name@, dob: self.dob, notes: self.notes@ }
    }
}

/// One row of the join table recording that a participant belongs to a
/// booking.  This table is the only record of membership; its order is the
/// order participants were attached in.
#[derive(Clone, Copy, Debug, PartialEq, Eq, Structural)]
pub struct MembershipRow {
    pub booking: BookingId,
    pub participant: ParticipantId,
}

/// One row of the table linking a participant to the waiver they signed.
/// At most one waiver is recorded per participant.
#[derive(Clone, Copy, Debug, PartialEq, Eq, Structural)]
pub struct WaiverRow {
    pub participant: ParticipantId,
    pub waiver: WaiverId,
}

/// One row of the equipment-rental table: a quantity of one equipment item
/// rented for one booking.
#[derive(Clone, Copy, Debug, PartialEq, Eq, Structural)]
pub struct RentalRow {
    pub booking: BookingId,
    pub equipment: EquipmentId,
    pub quantity: i32,
}

/// The whole relational state, one sequence per table.
#[verifier::ext_equal]
pub struct Db {
    pub bookings: Seq<BookingHeader>,
    pub participants: Seq<ParticipantRowV>,
    pub memberships: Seq<MembershipRow>,
    pub waivers: Seq<WaiverRow>,
    pub customers: Seq<CustomerV>,
    pub trips: Seq<TripV>,
    pub rentals: Seq<RentalRow>,
}

/// Whether a participant id passes an optional participant filter.
pub open spec fn passes_filter(pid: ParticipantId, pf: Option<ParticipantId>) -> bool {
    match pf {
        Some(p) => pid == p,
        None => true,
    }
}

/// The participant ids joined to booking `b`, in table order, keeping only
/// those that pass the optional participant filter.
pub open spec fn member_pids(ms: Seq<MembershipRow>, b: BookingId, pf: Option<ParticipantId>) -> Seq<
    ParticipantId,
>
    decreases ms.len(),
{
    if ms.len() == 0 {
        Seq::empty()
    } else {
        let rest = member_pids(ms.drop_last(), b, pf);
        let m = ms.last();
        if m.booking == b && passes_filter(m.participant, pf) {
            rest.push(m.participant)
        } else {
            rest
        }
    }
}

/// The join table without the rows of booking `b` (the delete step of the
/// write protocol).
pub open spec fn without_booking(ms: Seq<MembershipRow>, b: BookingId) -> Seq<MembershipRow>
    decreases ms.len(),
{
    if ms.len() == 0 {
        Seq::empty()
    } else {
        let rest = without_booking(ms.drop_last(), b);
        if ms.last().booking == b {
            rest
        } else {
            rest.push(ms.last())
        }
    }
}

/// The booking table without the header of booking `id`.
pub open spec fn without_header(hs: Seq<BookingHeader>, id: BookingId) -> Seq<BookingHeader>
    decreases hs.len(),
{
    if hs.len() == 0 {
        Seq::empty()
    } else {
        let rest = without_header(hs.drop_last(), id);
        if hs.last().id == id {
            rest
        } else {
            rest.push(hs.last())
        }
    }
}

/// Whether a booking header passes the customer and trip filters (the
/// participant filter applies to join rows, not headers).
pub open spec fn header_matches(h: BookingHeader, f: BookingFilters) -> bool {
    &&& match f.customer {
        Some(c) => h.customer == c,
        None => true,
    }
    &&& match f.trip {
        Some(t) => h.trip == t,
        None => true,
    }
}

/// The participant-table row for each supplied participant, content only.
pub open spec fn row_of(p: ParticipantV) -> ParticipantRowV {
    ParticipantRowV { id: p.id, name: p.name, dob: p.dob, notes: p.notes }
}

/// One upsert: overwrite the row with this id if present, else append.
pub open spec fn upsert_one(ps: Seq<ParticipantRowV>, row: ParticipantRowV) -> Seq<
    ParticipantRowV,
> {
    if exists|i: int| 0 <= i < ps.len() && ps[i].id == row.id {
        ps.update(choose|i: int| 0 <= i < ps.len() && ps[i].id == row.id, row)
    } else {
        ps.push(row)
    }
}

/// Upserting every supplied participant, first to last.
pub open spec fn upsert_rows(ps: Seq<ParticipantRowV>, items: Seq<ParticipantV>) -> Seq<
    ParticipantRowV,
>
    decreases items.len(),
{
    if items.len() == 0 {
        ps
    } else {
        upsert_one(upsert_rows(ps, items.drop_last()), row_of(items.last()))
    }
}

/// The join rows attaching the supplied participants to booking `b`, in
/// the supplied order.
pub open spec fn joined(b: BookingId, ps: Seq<ParticipantV>) -> Seq<MembershipRow> {
    ps.map_values(|p: ParticipantV| MembershipRow { booking: b, participant: p.id })
}

/// The sort key of the booking table.
pub open spec fn header_key() -> spec_fn(BookingHeader) -> u128 {
    |h: BookingHeader| h.id.0
}

/// The sort key of the trip table.
pub open spec fn trip_key() -> spec_fn(TripV) -> u128 {
    |t: TripV| t.id.0
}

/// Where a header with this id belongs in the id-sorted booking table: the
/// number of leading headers with a smaller id.
pub open spec fn insert_pos(hs: Seq<BookingHeader>, id: BookingId) -> int {
    crate::sorted::pos_of(hs, header_key(), id.0)
}

/// Where a trip with this id belongs in the id-sorted trip table.
pub open spec fn trip_insert_pos(ts: Seq<TripV>, id: TripId) -> int {
    crate::sorted::pos_of(ts, trip_key(), id.0)
}

/// Whether the header sequence holds a row with this id.
pub open spec fn has_header(hs: Seq<BookingHeader>, id: BookingId) -> bool {
    exists|i: int| 0 <= i < hs.len() && hs[i].id == id
}

/// The header row with this id (meaningful only under [`has_header`]).
pub open spec fn header_with(hs: Seq<BookingHeader>, id: BookingId) -> BookingHeader {
    hs[choose|i: int| 0 <= i < hs.len() && hs[i].id == id]
}

/// Whether the participant sequence holds a row with this id.
pub open spec fn has_row(ps: Seq<ParticipantRowV>, id: ParticipantId) -> bool {
    exists|i: int| 0 <= i < ps.len() && ps[i].id == id
}

/// The participant row with this id (meaningful only under [`has_row`]).
pub open spec fn row_with(ps: Seq<ParticipantRowV>, id: ParticipantId) -> ParticipantRowV {
    ps[choose|i: int| 0 <= i < ps.len() && ps[i].id == id]
}

/// Whether the supplied participants carry pairwise distinct ids.
pub open spec fn distinct_pids(ps: Seq<ParticipantV>) -> bool {
    forall|i: int, j: int| 0 <= i < j < ps.len() ==> ps[i].id != ps[j].id
}

/// The rental rows of booking `b`, in table order.
pub open spec fn rentals_for(rs: Seq<RentalRow>, b: BookingId) -> Seq<RentalRow>
    decreases rs.len(),
{
    if rs.len() == 0 {
        Seq::empty()
    } else {
        let rest = rentals_for(rs.drop_last(), b);
        if rs.last().booking == b {
            rest.push(rs.last())
        } else {
            rest
        }
    }
}

/// The rental table without the rows of booking `b`.
pub open spec fn without_rentals(rs: Seq<RentalRow>, b: BookingId) -> Seq<RentalRow>
    decreases rs.len(),
{
    if rs.len() == 0 {
        Seq::empty()
    } else {
        let rest = without_rentals(rs.drop_last(), b);
        if rs.last().booking == b {
            rest
        } else {
            rest.push(rs.last())
        }
    }
}

/// Whether a trip passes every present filter: its kind, its location, and
/// a closed range its start instant must fall in.
pub open spec fn trip_matches(t: TripV, f: TripFilters) -> bool {
    &&& match f.kind {
        Some(k) => t.kind.id == k,
        None => true,
    }
    &&& match f.location {
        Some(l) => t.location == l,
        None => true,
    }
    &&& match f.date_range {
        Some(r) => r.0 <= t.start_time <= r.1,
        None => true,
    }
}

impl Db {
    /// The state with every table empty.
    pub open spec fn empty() -> Db {
        Db {
            bookings: Seq::empty(),
            participants: Seq::empty(),
            memberships: Seq::empty(),
            waivers: Seq::empty(),
            customers: Seq::empty(),
            trips: Seq::empty(),
            rentals: Seq::empty(),
        }
    }

    // --- per-table invariants -------------------------------------------

    /// The booking table is strictly sorted by id (so ids are unique and
    /// queries list bookings in ascending id order).
    pub open spec fn bookings_ok(self) -> bool {
        crate::sorted::sorted_by(self.bookings, header_key())
    }

    /// Participant ids are unique.
    pub open spec fn participants_ok(self) -> bool {
        forall|i: int, j: int|
            0 <= i < j < self.participants.len() ==> self.participants[i].id
                != self.participants[j].id
    }

    /// Join rows are pairwise distinct (the pair is the table's key) and
    /// reference existing bookings and participants.
    pub open spec fn memberships_ok(self) -> bool {
        &&& forall|i: int, j: int|
            0 <= i < j < self.memberships.len() ==> self.memberships[i] != self.memberships[j]
        &&& forall|i: int|
            0 <= i < self.memberships.len() ==> self.has_booking(
                #[trigger] self.memberships[i].booking,
            ) && self.has_participant(self.memberships[i].participant)
    }

    /// At most one waiver is recorded per participant.
    pub open spec fn waivers_ok(self) -> bool {
        forall|i: int, j: int|
            0 <= i < j < self.waivers.len() ==> self.waivers[i].participant
                != self.waivers[j].participant
    }

    /// Customer ids and customer email addresses are unique.
    pub open spec fn customers_ok(self) -> bool {
        &&& forall|i: int, j: int|
            0 <= i < j < self.customers.len() ==> self.customers[i].id != self.customers[j].id
        &&& forall|i: int, j: int|
            0 <= i < j < self.customers.len() ==> self.customers[i].email
                != self.customers[j].email
    }

    /// The trip table is strictly sorted by id.
    pub open spec fn trips_ok(self) -> bool {
        crate::sorted::sorted_by(self.trips, trip_key())
    }

    /// At most one rental row per booking and equipment item.
    pub open spec fn rentals_ok(self) -> bool {
        forall|i: int, j: int|
            0 <= i < j < self.rentals.len() ==> !(self.rentals[i].booking
                == self.rentals[j].booking && self.rentals[i].equipment
                == self.rentals[j].equipment)
    }

    /// The whole state's well-formedness.
    pub open spec fn wf(self) -> bool {
        &&& self.bookings_ok()
        &&& self.participants_ok()
        &&& self.memberships_ok()
        &&& self.waivers_ok()
        &&& self.customers_ok()
        &&& self.trips_ok()
        &&& self.rentals_ok()
    }

    // --- lookups ---------------------------------------------------------

    /// Whether a booking header with this id exists.
    pub open spec fn has_booking(self, id: BookingId) -> bool {
        has_header(self.bookings, id)
    }

    /// The header with this id (meaningful only under [`Self::has_booking`]).
    pub open spec fn header_of(self, id: BookingId) -> BookingHeader {
        header_with(self.bookings, id)
    }

    /// Whether a participant row with this id exists.
    pub open spec fn has_participant(self, id: ParticipantId) -> bool {
        has_row(self.participants, id)
    }

    /// The participant row with this id (meaningful only under
    /// [`Self::has_participant`]).
    pub open spec fn participant_row(self, id: ParticipantId) -> ParticipantRowV {
        row_with(self.participants, id)
    }

    /// The waiver recorded for this participant, if any.  A participant
    /// with no waiver row yields an absent reference, never an error.
    pub open spec fn waiver_of(self, pid: ParticipantId) -> Option<WaiverId> {
        if exists|i: int| 0 <= i < self.waivers.len() && self.waivers[i].participant == pid {
            Some(
                self.waivers[choose|i: int|
                    0 <= i < self.waivers.len() && self.waivers[i].participant == pid].waiver,
            )
        } else {
            None
        }
    }

    /// The participant aggregate value reconstructed for this id: row
    /// content plus the optional waiver reference.
    pub open spec fn participant_value(self, pid: ParticipantId) -> ParticipantV {
        let row = self.participant_row(pid);
        ParticipantV {
            id: pid,
            name: row.name,
            dob: row.dob,
            notes: row.notes,
            waiver: self.waiver_of(pid),
        }
    }

    /// The booking aggregate assembled from a header: its member
    /// participants in join-table order, narrowed by the optional
    /// participant filter.
    pub open spec fn assembled_booking(self, h: BookingHeader, pf: Option<ParticipantId>) -> BookingV {
        BookingV {
            id: h.id,
            customer: h.customer,
            trip: h.trip,
            participants: member_pids(self.memberships, h.id, pf).map_values(
                |pid: ParticipantId| self.participant_value(pid),
            ),
        }
    }

    /// What a single-booking read returns: the aggregate if the header
    /// exists and at least one join row matches (the read joins through the
    /// membership table, so a booking without members yields no rows).
    pub open spec fn lookup_booking(self, id: BookingId) -> Option<BookingV> {
        if self.has_booking(id) && member_pids(self.memberships, id, None).len() > 0 {
            Some(self.assembled_booking(self.header_of(id), None))
        } else {
            None
        }
    }

    /// The bookings selected from the headers `hs` by the filters, in
    /// order: those whose header passes the customer and trip filters and
    /// that keep at least one join row under the participant filter.
    pub open spec fn selected_bookings(self, hs: Seq<BookingHeader>, f: BookingFilters) -> Seq<
        BookingV,
    >
        decreases hs.len(),
    {
        if hs.len() == 0 {
            Seq::empty()
        } else {
            let rest = self.selected_bookings(hs.drop_last(), f);
            let h = hs.last();
            if header_matches(h, f) && member_pids(self.memberships, h.id, f.participant).len()
                > 0 {
                rest.push(self.assembled_booking(h, f.participant))
            } else {
                rest
            }
        }
    }

    /// What a filtered booking query returns.  With every filter field
    /// absent the result is empty by definition — the contract's chosen
    /// policy, asserted by tests so a change is deliberate.
    pub open spec fn query_bookings(self, f: BookingFilters) -> Seq<BookingV> {
        if f.spec_is_empty() {
            Seq::empty()
        } else {
            self.selected_bookings(self.bookings, f)
        }
    }

    // --- the transactional booking write ---------------------------------

    /// Whether the four-step write can commit: the header id must be free
    /// (headers are inserted, never updated) and the supplied participant
    /// sequence must not repeat an id (the join table's key is the pair).
    pub open spec fn can_save_booking(self, b: BookingV) -> bool {
        &&& !self.has_booking(b.id)
        &&& distinct_pids(b.participants)
    }

    /// The committed effect of the four-step write: insert the header,
    /// upsert every participant's content, clear the booking's join rows,
    /// and re-attach the supplied participants in order.
    pub open spec fn saved_booking(self, b: BookingV) -> Db {
        Db {
            bookings: self.bookings.insert(
                insert_pos(self.bookings, b.id),
                BookingHeader { id: b.id, customer: b.customer, trip: b.trip },
            ),
            participants: upsert_rows(self.participants, b.participants),
            memberships: without_booking(self.memberships, b.id) + joined(b.id, b.participants),
            waivers: self.waivers,
            customers: self.customers,
            trips: self.trips,
            rentals: self.rentals,
        }
    }

    /// The effect of the two-step delete: clear the booking's join rows,
    /// then its header.  Participant rows survive; deleting an absent id
    /// changes nothing.
    pub open spec fn deleted_booking(self, id: BookingId) -> Db {
        Db {
            bookings: without_header(self.bookings, id),
            memberships: without_booking(self.memberships, id),
            participants: self.participants,
            waivers: self.waivers,
            customers: self.customers,
            trips: self.trips,
            rentals: self.rentals,
        }
    }

    // --- customers -------------------------------------------------------

    /// Whether a customer row with this id exists.
    pub open spec fn has_customer(self, id: CustomerId) -> bool {
        exists|i: int| 0 <= i < self.customers.len() && self.customers[i].id == id
    }

    /// The customer row with this id (meaningful only under
    /// [`Self::has_customer`]).
    pub open spec fn customer_of(self, id: CustomerId) -> CustomerV {
        self.customers[choose|i: int|
            0 <= i < self.customers.len() && self.customers[i].id == id]
    }

    /// What a single-customer read returns.
    pub open spec fn lookup_customer(self, id: CustomerId) -> Option<CustomerV> {
        if self.has_customer(id) {
            Some(self.customer_of(id))
        } else {
            None
        }
    }

    /// Whether a customer other than `id` already uses this email address.
    pub open spec fn email_taken(self, email: Seq<char>, id: CustomerId) -> bool {
        exists|i: int|
            0 <= i < self.customers.len() && self.customers[i].email == email
                && self.customers[i].id != id
    }

    /// Whether a customer insert can commit: id free, email free.
    pub open spec fn can_save_customer(self, c: CustomerV) -> bool {
        &&& !self.has_customer(c.id)
        &&& !self.email_taken(c.email, c.id)
    }

    /// The effect of a committed customer insert.
    pub open spec fn saved_customer(self, c: CustomerV) -> Db {
        Db { customers: self.customers.push(c), ..self }
    }

    /// The customer table without the row of `id`.
    pub open spec fn without_customer(cs: Seq<CustomerV>, id: CustomerId) -> Seq<CustomerV>
        decreases cs.len(),
    {
        if cs.len() == 0 {
            Seq::empty()
        } else {
            let rest = Self::without_customer(cs.drop_last(), id);
            if cs.last().id == id {
                rest
            } else {
                rest.push(cs.last())
            }
        }
    }

    /// The effect of a customer delete; deleting an absent id changes
    /// nothing.  Bookings are not cascaded: no rule ties them to the
    /// customer row.
    pub open spec fn deleted_customer(self, id: CustomerId) -> Db {
        Db { customers: Self::without_customer(self.customers, id), ..self }
    }

    // --- trips -----------------------------------------------------------

    /// Whether a trip row with this id exists.
    pub open spec fn has_trip(self, id: TripId) -> bool {
        exists|i: int| 0 <= i < self.trips.len() && self.trips[i].id == id
    }

    /// The trip with this id (meaningful only under [`Self::has_trip`]).
    pub open spec fn trip_of(self, id: TripId) -> TripV {
        self.trips[choose|i: int| 0 <= i < self.trips.len() && self.trips[i].id == id]
    }

    /// What a single-trip read returns.
    pub open spec fn lookup_trip(self, id: TripId) -> Option<TripV> {
        if self.has_trip(id) {
            Some(self.trip_of(id))
        } else {
            None
        }
    }

    /// The trips selected from `ts` by the filters, in order.
    pub open spec fn selected_trips(ts: Seq<TripV>, f: TripFilters) -> Seq<TripV>
        decreases ts.len(),
    {
        if ts.len() == 0 {
            Seq::empty()
        } else {
            let rest = Self::selected_trips(ts.drop_last(), f);
            if trip_matches(ts.last(), f) {
                rest.push(ts.last())
            } else {
                rest
            }
        }
    }

    /// What a filtered trip query returns; the all-absent filter yields an
    /// empty result, as for bookings.
    pub open spec fn query_trips(self, f: TripFilters) -> Seq<TripV> {
        if f.spec_is_empty() {
            Seq::empty()
        } else {
            Self::selected_trips(self.trips, f)
        }
    }

    /// The effect of seeding one trip into the id-sorted trip table.
    pub open spec fn inserted_trip(self, t: TripV) -> Db {
        Db { trips: self.trips.insert(trip_insert_pos(self.trips, t.id), t), ..self }
    }

    // --- waivers ---------------------------------------------------------

    /// The waiver table without the row of participant `pid`.
    pub open spec fn without_waiver(ws: Seq<WaiverRow>, pid: ParticipantId) -> Seq<WaiverRow>
        decreases ws.len(),
    {
        if ws.len() == 0 {
            Seq::empty()
        } else {
            let rest = Self::without_waiver(ws.drop_last(), pid);
            if ws.last().participant == pid {
                rest
            } else {
                rest.push(ws.last())
            }
        }
    }

    /// The effect of recording a participant's waiver: drop any earlier
    /// record for the participant and append the new one.
    pub open spec fn recorded_waiver(self, pid: ParticipantId, wid: WaiverId) -> Db {
        Db {
            waivers: Self::without_waiver(self.waivers, pid).push(
                WaiverRow { participant: pid, waiver: wid },
            ),
            ..self
        }
    }

    // --- rentals ---------------------------------------------------------

    /// The effect of saving a booking's rentals: replace every rental row
    /// of that booking with the supplied mapping, in its order.
    pub open spec fn saved_rentals(self, b: BookingId, pairs: Seq<(EquipmentId, i32)>) -> Db {
        Db {
            rentals: without_rentals(self.rentals, b) + pairs.map_values(
                |p: (EquipmentId, i32)| RentalRow { booking: b, equipment: p.0, quantity: p.1 },
            ),
            ..self
        }
    }

    /// The rental mapping read back for a booking: its rows' pairs in
    /// table order (empty when none exist).
    pub open spec fn lookup_rentals(self, b: BookingId) -> Seq<(EquipmentId, i32)> {
        rentals_for(self.rentals, b).map_values(|r: RentalRow| (r.equipment, r.quantity))
    }
}

// --- how the table functions unfold over a pushed row ---------------------

/// Appending one row to the end of a sequence is the step a forward scan
/// takes: the prefix one longer is the prefix plus the next element.
pub proof fn lemma_take_step<A>(s: Seq<A>, i: int)
    requires
        0 <= i < s.len(),
    ensures
        s.take(i + 1) == s.take(i).push(s[i]),
{
    assert(s.take(i + 1) =~= s.take(i).push(s[i]));
}

/// How [`member_pids`] grows when one join row is appended.
pub proof fn lemma_member_pids_push(
    ms: Seq<MembershipRow>,
    m: MembershipRow,
    b: BookingId,
    pf: Option<ParticipantId>,
)
    ensures
        m.booking == b && passes_filter(m.participant, pf) ==> member_pids(ms.push(m), b, pf)
            == member_pids(ms, b, pf).push(m.participant),
        !(m.booking == b && passes_filter(m.participant, pf)) ==> member_pids(ms.push(m), b, pf)
            == member_pids(ms, b, pf),
{
    assert(ms.push(m).drop_last() =~= ms);
}

/// How [`without_booking`] grows when one join row is appended.
pub proof fn lemma_without_booking_push(ms: Seq<MembershipRow>, m: MembershipRow, b: BookingId)
    ensures
        m.booking == b ==> without_booking(ms.push(m), b) == without_booking(ms, b),
        m.booking != b ==> without_booking(ms.push(m), b) == without_booking(ms, b).push(m),
{
    assert(ms.push(m).drop_last() =~= ms);
}

/// How [`without_header`] grows when one header is appended.
pub proof fn lemma_without_header_push(hs: Seq<BookingHeader>, h: BookingHeader, id: BookingId)
    ensures
        h.id == id ==> without_header(hs.push(h), id) == without_header(hs, id),
        h.id != id ==> without_header(hs.push(h), id) == without_header(hs, id).push(h),
{
    assert(hs.push(h).drop_last() =~= hs);
}

/// How [`rentals_for`] and [`without_rentals`] grow when one rental row is
/// appended.
pub proof fn lemma_rentals_push(rs: Seq<RentalRow>, r: RentalRow, b: BookingId)
    ensures
        r.booking == b ==> rentals_for(rs.push(r), b) == rentals_for(rs, b).push(r),
        r.booking != b ==> rentals_for(rs.push(r), b) == rentals_for(rs, b),
        r.booking == b ==> without_rentals(rs.push(r), b) == without_rentals(rs, b),
        r.booking != b ==> without_rentals(rs.push(r), b) == without_rentals(rs, b).push(r),
{
    assert(rs.push(r).drop_last() =~= rs);
}

/// How [`Db::without_waiver`] grows when one waiver row is appended.
pub proof fn lemma_without_waiver_push(ws: Seq<WaiverRow>, w: WaiverRow, pid: ParticipantId)
    ensures
        w.participant == pid ==> Db::without_waiver(ws.push(w), pid) == Db::without_waiver(
            ws,
            pid,
        ),
        w.participant != pid ==> Db::without_waiver(ws.push(w), pid) == Db::without_waiver(
            ws,
            pid,
        ).push(w),
{
    assert(ws.push(w).drop_last() =~= ws);
}

/// A waiver replacement's delete step: no row of the participant
/// survives, survivors were already there, and one-per-participant is
/// kept.
pub proof fn lemma_without_waiver_rows(ws: Seq<WaiverRow>, pid: ParticipantId)
    requires
        forall|i: int, j: int| 0 <= i < j < ws.len() ==> ws[i].participant != ws[j].participant,
    ensures
        forall|k: int|
            0 <= k < Db::without_waiver(ws, pid).len() ==> (#[trigger] Db::without_waiver(
                ws,
                pid,
            )[k]).participant != pid,
        forall|x: WaiverRow| Db::without_waiver(ws, pid).contains(x) ==> ws.contains(x),
        forall|i: int, j: int|
            0 <= i < j < Db::without_waiver(ws, pid).len() ==> Db::without_waiver(
                ws,
                pid,
            )[i].participant != Db::without_waiver(ws, pid)[j].participant,
    decreases ws.len(),
{
    if ws.len() == 0 {
    } else {
        assert forall|i: int, j: int|
            0 <= i < j < ws.drop_last().len() implies ws.drop_last()[i].participant
            != ws.drop_last()[j].participant by {
            assert(ws.drop_last()[i] == ws[i]);
            assert(ws.drop_last()[j] == ws[j]);
        }
        lemma_without_waiver_rows(ws.drop_last(), pid);
        let r = Db::without_waiver(ws, pid);
        let rest = Db::without_waiver(ws.drop_last(), pid);
        assert forall|x: WaiverRow| r.contains(x) implies ws.contains(x) by {
            let i = choose|i: int| 0 <= i < r.len() && r[i] == x;
            if i < rest.len() {
                assert(rest[i] == x);
                assert(ws.drop_last().contains(x));
                let w = choose|w: int| 0 <= w < ws.drop_last().len() && ws.drop_last()[w] == x;
                assert(ws[w] == x);
            } else {
                assert(x == ws.last());
                assert(ws[ws.len() - 1] == x);
            }
        }
        if ws.last().participant != pid {
            assert forall|i: int, j: int|
                0 <= i < j < r.len() implies r[i].participant != r[j].participant by {
                if j == rest.len() {
                    assert(rest.contains(rest[i]));
                    assert(ws.drop_last().contains(rest[i]));
                    let w = choose|w: int|
                        0 <= w < ws.drop_last().len() && ws.drop_last()[w] == rest[i];
                    assert(ws[w] == rest[i]);
                    assert(ws[w].participant != ws.last().participant);
                }
            }
        }
    }
}

/// How [`Db::without_customer`] grows when one customer row is appended.
pub proof fn lemma_without_customer_push(cs: Seq<CustomerV>, c: CustomerV, id: CustomerId)
    ensures
        c.id == id ==> Db::without_customer(cs.push(c), id) == Db::without_customer(cs, id),
        c.id != id ==> Db::without_customer(cs.push(c), id) == Db::without_customer(cs, id).push(
            c,
        ),
{
    assert(cs.push(c).drop_last() =~= cs);
}

// --- what the delete steps leave behind -----------------------------------

/// No join row of booking `b` survives its delete step, and every survivor
/// was already there.
pub proof fn lemma_without_booking_rows(ms: Seq<MembershipRow>, b: BookingId)
    ensures
        forall|k: int|
            0 <= k < without_booking(ms, b).len() ==> (#[trigger] without_booking(ms, b)[k]).booking
                != b,
        forall|x: MembershipRow| without_booking(ms, b).contains(x) ==> ms.contains(x),
    decreases ms.len(),
{
    if ms.len() == 0 {
    } else {
        lemma_without_booking_rows(ms.drop_last(), b);
        let r = without_booking(ms, b);
        let rest = without_booking(ms.drop_last(), b);
        assert forall|x: MembershipRow| r.contains(x) implies ms.contains(x) by {
            let i = choose|i: int| 0 <= i < r.len() && r[i] == x;
            if i < rest.len() {
                assert(rest[i] == x);
                assert(ms.drop_last().contains(x));
                let w = choose|w: int| 0 <= w < ms.drop_last().len() && ms.drop_last()[w] == x;
                assert(ms[w] == x);
            } else {
                assert(x == ms.last());
                assert(ms[ms.len() - 1] == x);
            }
        }
    }
}

/// The delete step keeps join rows pairwise distinct.
pub proof fn lemma_without_booking_distinct(ms: Seq<MembershipRow>, b: BookingId)
    requires
        forall|i: int, j: int| 0 <= i < j < ms.len() ==> ms[i] != ms[j],
    ensures
        forall|i: int, j: int|
            0 <= i < j < without_booking(ms, b).len() ==> without_booking(ms, b)[i]
                != without_booking(ms, b)[j],
    decreases ms.len(),
{
    if ms.len() == 0 {
    } else {
        lemma_without_booking_distinct(ms.drop_last(), b);
        lemma_without_booking_rows(ms.drop_last(), b);
        let rest = without_booking(ms.drop_last(), b);
        if ms.last().booking != b {
            assert forall|i: int, j: int|
                0 <= i < j < without_booking(ms, b).len() implies without_booking(ms, b)[i]
                != without_booking(ms, b)[j] by {
                if j == rest.len() {
                    assert(rest.contains(rest[i]));
                    assert(ms.drop_last().contains(rest[i]));
                    let w = choose|w: int|
                        0 <= w < ms.drop_last().len() && ms.drop_last()[w] == rest[i];
                    assert(ms[w] == rest[i]);
                    assert(ms[w] != ms.last());
                }
            }
        }
    }
}

/// Deleting a booking that has no join rows changes nothing.
pub proof fn lemma_without_booking_absent(ms: Seq<MembershipRow>, b: BookingId)
    requires
        forall|k: int| 0 <= k < ms.len() ==> (#[trigger] ms[k]).booking != b,
    ensures
        without_booking(ms, b) == ms,
    decreases ms.len(),
{
    if ms.len() == 0 {
        assert(without_booking(ms, b) =~= ms);
    } else {
        assert forall|k: int|
            0 <= k < ms.drop_last().len() implies (#[trigger] ms.drop_last()[k]).booking != b by {
            assert(ms.drop_last()[k] == ms[k]);
        }
        lemma_without_booking_absent(ms.drop_last(), b);
        assert(ms[ms.len() - 1].booking != b);
        assert(without_booking(ms, b) =~= ms);
    }
}

/// No header of booking `id` survives its delete step, every survivor was
/// already there, and the table stays sorted.
pub proof fn lemma_without_header_rows(hs: Seq<BookingHeader>, id: BookingId)
    requires
        crate::sorted::sorted_by(hs, header_key()),
    ensures
        forall|k: int|
            0 <= k < without_header(hs, id).len() ==> (#[trigger] without_header(hs, id)[k]).id
                != id,
        forall|x: BookingHeader| without_header(hs, id).contains(x) ==> hs.contains(x),
        crate::sorted::sorted_by(without_header(hs, id), header_key()),
    decreases hs.len(),
{
    if hs.len() == 0 {
    } else {
        assert forall|i: int, j: int|
            0 <= i < j < hs.drop_last().len() implies header_key()(hs.drop_last()[i]) < header_key()(
            hs.drop_last()[j],
        ) by {
            assert(hs.drop_last()[i] == hs[i]);
            assert(hs.drop_last()[j] == hs[j]);
        }
        lemma_without_header_rows(hs.drop_last(), id);
        let r = without_header(hs, id);
        let rest = without_header(hs.drop_last(), id);
        assert forall|x: BookingHeader| r.contains(x) implies hs.contains(x) by {
            let i = choose|i: int| 0 <= i < r.len() && r[i] == x;
            if i < rest.len() {
                assert(rest[i] == x);
                assert(hs.drop_last().contains(x));
                let w = choose|w: int| 0 <= w < hs.drop_last().len() && hs.drop_last()[w] == x;
                assert(hs[w] == x);
            } else {
                assert(x == hs.last());
                assert(hs[hs.len() - 1] == x);
            }
        }
        if hs.last().id != id {
            assert forall|i: int, j: int|
                0 <= i < j < without_header(hs, id).len() implies header_key()(
                without_header(hs, id)[i],
            ) < header_key()(without_header(hs, id)[j]) by {
                if j == rest.len() {
                    assert(rest.contains(rest[i]));
                    assert(hs.drop_last().contains(rest[i]));
                    let w = choose|w: int|
                        0 <= w < hs.drop_last().len() && hs.drop_last()[w] == rest[i];
                    assert(hs[w] == rest[i]);
                    assert(header_key()(hs[w]) < header_key()(hs.last()));
                }
            }
        }
    }
}

/// Deleting other ids keeps a header present, and an absent id's delete
/// changes nothing.
pub proof fn lemma_without_header_keeps(hs: Seq<BookingHeader>, id: BookingId, x: BookingId)
    requires
        x != id,
    ensures
        has_header(without_header(hs, id), x) == has_header(hs, x),
    decreases hs.len(),
{
    if hs.len() == 0 {
    } else {
        lemma_without_header_keeps(hs.drop_last(), id, x);
        let r = without_header(hs, id);
        let rest = without_header(hs.drop_last(), id);
        if has_header(hs, x) {
            let i = choose|i: int| 0 <= i < hs.len() && hs[i].id == x;
            if i == hs.len() - 1 {
                assert(r[r.len() - 1].id == x);
            } else {
                assert(hs.drop_last()[i] == hs[i]);
                assert(has_header(hs.drop_last(), x));
                let w = choose|w: int| 0 <= w < rest.len() && rest[w].id == x;
                assert(r[w].id == x);
            }
            assert(has_header(r, x));
        }
        if has_header(r, x) {
            lemma_without_header_rows_weak(hs, id);
            let i = choose|i: int| 0 <= i < r.len() && r[i].id == x;
            assert(r.contains(r[i]));
            assert(hs.contains(r[i]));
            let w = choose|w: int| 0 <= w < hs.len() && hs[w] == r[i];
            assert(hs[w].id == x);
            assert(has_header(hs, x));
        }
    }
}

/// Every survivor of a header delete was already in the table (needed
/// without sortedness).
pub proof fn lemma_without_header_rows_weak(hs: Seq<BookingHeader>, id: BookingId)
    ensures
        forall|x: BookingHeader| without_header(hs, id).contains(x) ==> hs.contains(x),
    decreases hs.len(),
{
    if hs.len() == 0 {
    } else {
        lemma_without_header_rows_weak(hs.drop_last(), id);
        let r = without_header(hs, id);
        let rest = without_header(hs.drop_last(), id);
        assert forall|x: BookingHeader| r.contains(x) implies hs.contains(x) by {
            let i = choose|i: int| 0 <= i < r.len() && r[i] == x;
            if i < rest.len() {
                assert(rest[i] == x);
                assert(hs.drop_last().contains(x));
                let w = choose|w: int| 0 <= w < hs.drop_last().len() && hs.drop_last()[w] == x;
                assert(hs[w] == x);
            } else {
                assert(x == hs.last());
                assert(hs[hs.len() - 1] == x);
            }
        }
    }
}

/// Deleting an absent header changes nothing.
pub proof fn lemma_without_header_absent(hs: Seq<BookingHeader>, id: BookingId)
    requires
        !has_header(hs, id),
    ensures
        without_header(hs, id) == hs,
    decreases hs.len(),
{
    if hs.len() == 0 {
        assert(without_header(hs, id) =~= hs);
    } else {
        assert(!has_header(hs.drop_last(), id)) by {
            if has_header(hs.drop_last(), id) {
                let i = choose|i: int|
                    0 <= i < hs.drop_last().len() && hs.drop_last()[i].id == id;
                assert(hs[i].id == id);
            }
        }
        lemma_without_header_absent(hs.drop_last(), id);
        assert(hs[hs.len() - 1].id != id);
        assert(without_header(hs, id) =~= hs);
    }
}

// --- how member lists relate to the tables --------------------------------

/// A booking none of whose join rows are in the table has no members.
pub proof fn lemma_member_pids_absent(
    ms: Seq<MembershipRow>,
    b: BookingId,
    pf: Option<ParticipantId>,
)
    requires
        forall|k: int| 0 <= k < ms.len() ==> (#[trigger] ms[k]).booking != b,
    ensures
        member_pids(ms, b, pf) == Seq::<ParticipantId>::empty(),
    decreases ms.len(),
{
    if ms.len() == 0 {
    } else {
        assert forall|k: int|
            0 <= k < ms.drop_last().len() implies (#[trigger] ms.drop_last()[k]).booking != b by {
            assert(ms.drop_last()[k] == ms[k]);
        }
        lemma_member_pids_absent(ms.drop_last(), b, pf);
        assert(ms[ms.len() - 1].booking != b);
    }
}

/// Member lists distribute over concatenation of the join table.
pub proof fn lemma_member_pids_concat(
    ms1: Seq<MembershipRow>,
    ms2: Seq<MembershipRow>,
    b: BookingId,
    pf: Option<ParticipantId>,
)
    ensures
        member_pids(ms1 + ms2, b, pf) == member_pids(ms1, b, pf) + member_pids(ms2, b, pf),
    decreases ms2.len(),
{
    if ms2.len() == 0 {
        assert(ms1 + ms2 =~= ms1);
        assert(member_pids(ms1, b, pf) + member_pids(ms2, b, pf) =~= member_pids(ms1, b, pf));
    } else {
        lemma_member_pids_concat(ms1, ms2.drop_last(), b, pf);
        assert((ms1 + ms2).drop_last() =~= ms1 + ms2.drop_last());
        assert((ms1 + ms2).last() == ms2.last());
        if ms2.last().booking == b && passes_filter(ms2.last().participant, pf) {
            assert(member_pids(ms1, b, pf) + member_pids(ms2, b, pf) =~= (member_pids(ms1, b, pf)
                + member_pids(ms2.drop_last(), b, pf)).push(ms2.last().participant));
        } else {
            assert(member_pids(ms1, b, pf) + member_pids(ms2, b, pf) =~= member_pids(ms1, b, pf)
                + member_pids(ms2.drop_last(), b, pf));
        }
    }
}

/// The join rows written for a booking list exactly its participants' ids,
/// in order.
pub proof fn lemma_member_pids_joined(b: BookingId, ps: Seq<ParticipantV>)
    ensures
        member_pids(joined(b, ps), b, None) == ps.map_values(|p: ParticipantV| p.id),
    decreases ps.len(),
{
    if ps.len() == 0 {
        assert(joined(b, ps) =~= Seq::<MembershipRow>::empty());
        assert(ps.map_values(|p: ParticipantV| p.id) =~= Seq::<ParticipantId>::empty());
    } else {
        lemma_member_pids_joined(b, ps.drop_last());
        assert(joined(b, ps).drop_last() =~= joined(b, ps.drop_last()));
        assert(joined(b, ps).last() == MembershipRow { booking: b, participant: ps.last().id });
        assert(ps.map_values(|p: ParticipantV| p.id) =~= ps.drop_last().map_values(
            |p: ParticipantV| p.id,
        ).push(ps.last().id));
    }
}

/// One participant upsert: the targeted row gets the new content, every
/// other row is untouched, and ids stay unique.
pub proof fn lemma_upsert_one_effect(ps: Seq<ParticipantRowV>, row: ParticipantRowV)
    requires
        forall|i: int, j: int| 0 <= i < j < ps.len() ==> ps[i].id != ps[j].id,
    ensures
        forall|i: int, j: int|
            0 <= i < j < upsert_one(ps, row).len() ==> upsert_one(ps, row)[i].id != upsert_one(
                ps,
                row,
            )[j].id,
        has_row(upsert_one(ps, row), row.id),
        row_with(upsert_one(ps, row), row.id) == row,
        forall|x: ParticipantId|
            x != row.id ==> #[trigger] has_row(upsert_one(ps, row), x) == has_row(ps, x),
        forall|x: ParticipantId|
            x != row.id && has_row(ps, x) ==> #[trigger] row_with(upsert_one(ps, row), x)
                == row_with(ps, x),
{
    let r = upsert_one(ps, row);
    if exists|i: int| 0 <= i < ps.len() && ps[i].id == row.id {
        let c = choose|i: int| 0 <= i < ps.len() && ps[i].id == row.id;
        assert(r == ps.update(c, row));
        assert forall|k: int| 0 <= k < r.len() implies #[trigger] r[k].id == ps[k].id by {
            if k != c {
                assert(r[k] == ps[k]);
            }
        }
        assert(r[c].id == row.id);
        assert(has_row(r, row.id));
        let c2 = choose|i: int| 0 <= i < r.len() && r[i].id == row.id;
        assert(ps[c2].id == row.id);
        assert(c2 == c);
        assert(row_with(r, row.id) == row);
        assert forall|x: ParticipantId| x != row.id implies #[trigger] has_row(r, x) == has_row(
            ps,
            x,
        ) by {
            if has_row(r, x) {
                let i = choose|i: int| 0 <= i < r.len() && r[i].id == x;
                assert(ps[i].id == x);
            }
            if has_row(ps, x) {
                let i = choose|i: int| 0 <= i < ps.len() && ps[i].id == x;
                assert(r[i].id == x);
            }
        }
        assert forall|x: ParticipantId| x != row.id && has_row(ps, x) implies #[trigger] row_with(
            r,
            x,
        ) == row_with(ps, x) by {
            let w = choose|i: int| 0 <= i < ps.len() && ps[i].id == x;
            assert(w != c);
            assert(r[w] == ps[w]);
            assert(has_row(r, x));
            let i = choose|i: int| 0 <= i < r.len() && r[i].id == x;
            assert(ps[i].id == x);
            assert(i == w);
            assert(i != c);
            assert(r[i] == ps[i]);
        }
    } else {
        assert(r == ps.push(row));
        assert(r[ps.len() as int] == row);
        assert(has_row(r, row.id));
        assert forall|i: int, j: int| 0 <= i < j < r.len() implies r[i].id != r[j].id by {
            if j == ps.len() {
                assert(r[i] == ps[i]);
                assert(ps[i].id != row.id);
            } else {
                assert(r[i] == ps[i]);
                assert(r[j] == ps[j]);
            }
        }
        let c2 = choose|i: int| 0 <= i < r.len() && r[i].id == row.id;
        if c2 < ps.len() {
            assert(ps[c2].id == row.id);
            assert(false);
        }
        assert(row_with(r, row.id) == row);
        assert forall|x: ParticipantId| x != row.id implies #[trigger] has_row(r, x) == has_row(
            ps,
            x,
        ) by {
            if has_row(r, x) {
                let i = choose|i: int| 0 <= i < r.len() && r[i].id == x;
                assert(i < ps.len());
                assert(ps[i].id == x);
            }
            if has_row(ps, x) {
                let i = choose|i: int| 0 <= i < ps.len() && ps[i].id == x;
                assert(r[i].id == x);
            }
        }
        assert forall|x: ParticipantId| x != row.id && has_row(ps, x) implies #[trigger] row_with(
            r,
            x,
        ) == row_with(ps, x) by {
            let w = choose|i: int| 0 <= i < ps.len() && ps[i].id == x;
            assert(r[w].id == x);
            assert(has_row(r, x));
            let i = choose|i: int| 0 <= i < r.len() && r[i].id == x;
            if i == ps.len() {
                assert(r[i] == row);
                assert(false);
            }
            assert(ps[i].id == x);
            assert(i == w);
            assert(r[i] == ps[i]);
        }
    }
}

/// Upserting a sequence of participants with distinct ids: every supplied
/// participant ends with exactly its supplied content, every other row is
/// untouched, ids stay unique, and the table's ids are the old ones plus
/// the supplied ones.
pub proof fn lemma_upsert_rows_effect(ps: Seq<ParticipantRowV>, items: Seq<ParticipantV>)
    requires
        forall|i: int, j: int| 0 <= i < j < ps.len() ==> ps[i].id != ps[j].id,
        distinct_pids(items),
    ensures
        forall|i: int, j: int|
            0 <= i < j < upsert_rows(ps, items).len() ==> upsert_rows(ps, items)[i].id
                != upsert_rows(ps, items)[j].id,
        forall|x: ParticipantId|
            #[trigger] has_row(upsert_rows(ps, items), x) <==> has_row(ps, x) || (exists|k: int|
                0 <= k < items.len() && items[k].id == x),
        forall|k: int|
            0 <= k < items.len() ==> has_row(upsert_rows(ps, items), (#[trigger] items[k]).id)
                && row_with(upsert_rows(ps, items), items[k].id) == row_of(items[k]),
        forall|x: ParticipantId|
            (forall|k: int| 0 <= k < items.len() ==> (#[trigger] items[k]).id != x) && has_row(
                ps,
                x,
            ) ==> #[trigger] row_with(upsert_rows(ps, items), x) == row_with(ps, x),
    decreases items.len(),
{
    if items.len() == 0 {
    } else {
        assert forall|i: int, j: int|
            0 <= i < j < items.drop_last().len() implies items.drop_last()[i].id
            != items.drop_last()[j].id by {
            assert(items.drop_last()[i] == items[i]);
            assert(items.drop_last()[j] == items[j]);
        }
        lemma_upsert_rows_effect(ps, items.drop_last());
        let mid = upsert_rows(ps, items.drop_last());
        let last = items.last();
        lemma_upsert_one_effect(mid, row_of(last));
        let r = upsert_rows(ps, items);
        assert(r == upsert_one(mid, row_of(last)));
        assert forall|x: ParticipantId| #[trigger] has_row(r, x) <==> has_row(ps, x) || (
        exists|k: int| 0 <= k < items.len() && items[k].id == x) by {
            if has_row(r, x) {
                if x == last.id {
                    assert(items[items.len() - 1].id == x);
                } else {
                    assert(has_row(mid, x));
                    if !has_row(ps, x) {
                        let k = choose|k: int|
                            0 <= k < items.drop_last().len() && items.drop_last()[k].id == x;
                        assert(items[k].id == x);
                    }
                }
            }
            if has_row(ps, x) || (exists|k: int| 0 <= k < items.len() && items[k].id == x) {
                if x == last.id {
                    assert(has_row(r, x));
                } else if has_row(ps, x) {
                    assert(has_row(mid, x));
                    assert(has_row(r, x));
                } else {
                    let k = choose|k: int| 0 <= k < items.len() && items[k].id == x;
                    assert(k < items.len() - 1);
                    assert(items.drop_last()[k].id == x);
                    assert(has_row(mid, x));
                    assert(has_row(r, x));
                }
            }
        }
        assert forall|k: int| 0 <= k < items.len() implies has_row(
            r,
            (#[trigger] items[k]).id,
        ) && row_with(r, items[k].id) == row_of(items[k]) by {
            if k == items.len() - 1 {
                assert(row_of(last).id == last.id);
                assert(row_with(r, last.id) == row_of(last));
            } else {
                assert(items.drop_last()[k] == items[k]);
                assert(items[k].id != last.id);
                assert(has_row(mid, items[k].id));
                assert(row_with(mid, items[k].id) == row_of(items[k]));
                assert(row_with(r, items[k].id) == row_with(mid, items[k].id));
            }
        }
        assert forall|x: ParticipantId|
            (forall|k: int| 0 <= k < items.len() ==> (#[trigger] items[k]).id != x) && has_row(
                ps,
                x,
            ) implies #[trigger] row_with(r, x) == row_with(ps, x) by {
            assert(items[items.len() - 1].id != x);
            assert forall|k: int|
                0 <= k < items.drop_last().len() implies (#[trigger] items.drop_last()[k]).id
                != x by {
                assert(items.drop_last()[k] == items[k]);
            }
            assert(row_with(mid, x) == row_with(ps, x));
            assert(has_row(mid, x));
            assert(row_with(r, x) == row_with(mid, x));
        }
    }
}

/// Every listed member id comes from a join row of that booking.
pub proof fn lemma_member_pids_sourced(
    ms: Seq<MembershipRow>,
    b: BookingId,
    pf: Option<ParticipantId>,
)
    ensures
        forall|k: int|
            0 <= k < member_pids(ms, b, pf).len() ==> exists|i: int|
                0 <= i < ms.len() && ms[i].booking == b && ms[i].participant == #[trigger] member_pids(
                    ms,
                    b,
                    pf,
                )[k],
    decreases ms.len(),
{
    if ms.len() == 0 {
    } else {
        lemma_member_pids_sourced(ms.drop_last(), b, pf);
        let r0 = member_pids(ms.drop_last(), b, pf);
        assert forall|k: int|
            0 <= k < member_pids(ms, b, pf).len() implies exists|i: int|
            0 <= i < ms.len() && ms[i].booking == b && ms[i].participant == #[trigger] member_pids(
                ms,
                b,
                pf,
            )[k] by {
            if k < r0.len() {
                let i = choose|i: int|
                    0 <= i < ms.drop_last().len() && ms.drop_last()[i].booking == b
                        && ms.drop_last()[i].participant == r0[k];
                assert(ms[i] == ms.drop_last()[i]);
                assert(member_pids(ms, b, pf)[k] == r0[k]);
            } else {
                let last = ms[ms.len() - 1];
                assert(last.booking == b && last.participant == member_pids(ms, b, pf)[k]);
            }
        }
    }
}

/// How a booking query grows when one header is appended to the scanned
/// prefix.
pub proof fn lemma_selected_bookings_push(
    db: Db,
    hs: Seq<BookingHeader>,
    h: BookingHeader,
    f: BookingFilters,
)
    ensures
        header_matches(h, f) && member_pids(db.memberships, h.id, f.participant).len() > 0
            ==> db.selected_bookings(hs.push(h), f) == db.selected_bookings(hs, f).push(
            db.assembled_booking(h, f.participant),
        ),
        !(header_matches(h, f) && member_pids(db.memberships, h.id, f.participant).len() > 0)
            ==> db.selected_bookings(hs.push(h), f) == db.selected_bookings(hs, f),
{
    assert(hs.push(h).drop_last() =~= hs);
}

/// How a trip query grows when one trip is appended to the scanned prefix.
pub proof fn lemma_selected_trips_push(ts: Seq<TripV>, t: TripV, f: TripFilters)
    ensures
        trip_matches(t, f) ==> Db::selected_trips(ts.push(t), f) == Db::selected_trips(ts, f).push(
            t,
        ),
        !trip_matches(t, f) ==> Db::selected_trips(ts.push(t), f) == Db::selected_trips(ts, f),
{
    assert(ts.push(t).drop_last() =~= ts);
}

/// A customer delete removes exactly the rows of the id: no such row
/// survives, survivors were already there, and under unique ids and emails
/// the survivors keep both unique.
pub proof fn lemma_without_customer_rows(cs: Seq<CustomerV>, id: CustomerId)
    requires
        forall|i: int, j: int| 0 <= i < j < cs.len() ==> cs[i].id != cs[j].id,
        forall|i: int, j: int| 0 <= i < j < cs.len() ==> cs[i].email != cs[j].email,
    ensures
        forall|k: int|
            0 <= k < Db::without_customer(cs, id).len() ==> (#[trigger] Db::without_customer(
                cs,
                id,
            )[k]).id != id,
        forall|x: CustomerV| Db::without_customer(cs, id).contains(x) ==> cs.contains(x),
        forall|i: int, j: int|
            0 <= i < j < Db::without_customer(cs, id).len() ==> Db::without_customer(cs, id)[i].id
                != Db::without_customer(cs, id)[j].id,
        forall|i: int, j: int|
            0 <= i < j < Db::without_customer(cs, id).len() ==> Db::without_customer(
                cs,
                id,
            )[i].email != Db::without_customer(cs, id)[j].email,
    decreases cs.len(),
{
    if cs.len() == 0 {
    } else {
        assert forall|i: int, j: int|
            0 <= i < j < cs.drop_last().len() implies cs.drop_last()[i].id != cs.drop_last()[j].id
            && cs.drop_last()[i].email != cs.drop_last()[j].email by {
            assert(cs.drop_last()[i] == cs[i]);
            assert(cs.drop_last()[j] == cs[j]);
        }
        lemma_without_customer_rows(cs.drop_last(), id);
        let r = Db::without_customer(cs, id);
        let rest = Db::without_customer(cs.drop_last(), id);
        assert forall|x: CustomerV| r.contains(x) implies cs.contains(x) by {
            let i = choose|i: int| 0 <= i < r.len() && r[i] == x;
            if i < rest.len() {
                assert(rest[i] == x);
                assert(cs.drop_last().contains(x));
                let w = choose|w: int| 0 <= w < cs.drop_last().len() && cs.drop_last()[w] == x;
                assert(cs[w] == x);
            } else {
                assert(x == cs.last());
                assert(cs[cs.len() - 1] == x);
            }
        }
        if cs.last().id != id {
            assert forall|i: int, j: int| 0 <= i < j < r.len() implies r[i].id != r[j].id && r[i].email
                != r[j].email by {
                if j == rest.len() {
                    assert(rest.contains(rest[i]));
                    assert(cs.drop_last().contains(rest[i]));
                    let w = choose|w: int|
                        0 <= w < cs.drop_last().len() && cs.drop_last()[w] == rest[i];
                    assert(cs[w] == rest[i]);
                    assert(cs[w].id != cs.last().id);
                    assert(cs[w].email != cs.last().email);
                }
            }
        }
    }
}

/// The rental rows of one booking keep pairwise distinct equipment ids,
/// and each comes from the table.
pub proof fn lemma_rentals_for_rows(rs: Seq<RentalRow>, b: BookingId)
    requires
        forall|i: int, j: int|
            0 <= i < j < rs.len() ==> !(rs[i].booking == rs[j].booking && rs[i].equipment
                == rs[j].equipment),
    ensures
        forall|k: int|
            0 <= k < rentals_for(rs, b).len() ==> (#[trigger] rentals_for(rs, b)[k]).booking == b,
        forall|x: RentalRow| rentals_for(rs, b).contains(x) ==> rs.contains(x),
        forall|i: int, j: int|
            0 <= i < j < rentals_for(rs, b).len() ==> rentals_for(rs, b)[i].equipment
                != rentals_for(rs, b)[j].equipment,
    decreases rs.len(),
{
    if rs.len() == 0 {
    } else {
        assert forall|i: int, j: int|
            0 <= i < j < rs.drop_last().len() implies !(rs.drop_last()[i].booking
            == rs.drop_last()[j].booking && rs.drop_last()[i].equipment
            == rs.drop_last()[j].equipment) by {
            assert(rs.drop_last()[i] == rs[i]);
            assert(rs.drop_last()[j] == rs[j]);
        }
        lemma_rentals_for_rows(rs.drop_last(), b);
        let r = rentals_for(rs, b);
        let rest = rentals_for(rs.drop_last(), b);
        assert forall|x: RentalRow| r.contains(x) implies rs.contains(x) by {
            let i = choose|i: int| 0 <= i < r.len() && r[i] == x;
            if i < rest.len() {
                assert(rest[i] == x);
                assert(rs.drop_last().contains(x));
                let w = choose|w: int| 0 <= w < rs.drop_last().len() && rs.drop_last()[w] == x;
                assert(rs[w] == x);
            } else {
                assert(x == rs.last());
                assert(rs[rs.len() - 1] == x);
            }
        }
        if rs.last().booking == b {
            assert forall|i: int, j: int|
                0 <= i < j < r.len() implies r[i].equipment != r[j].equipment by {
                if j == rest.len() {
                    assert(rest.contains(rest[i]));
                    assert(rs.drop_last().contains(rest[i]));
                    let w = choose|w: int|
                        0 <= w < rs.drop_last().len() && rs.drop_last()[w] == rest[i];
                    assert(rs[w] == rest[i]);
                    assert(rest[i].booking == b);
                    assert(!(rs[w].booking == rs.last().booking && rs[w].equipment
                        == rs.last().equipment));
                }
            }
        }
    }
}

/// A rental replacement's delete step: no row of the booking survives,
/// survivors were already there, and pairwise key distinctness is kept.
pub proof fn lemma_without_rentals_rows(rs: Seq<RentalRow>, b: BookingId)
    requires
        forall|i: int, j: int|
            0 <= i < j < rs.len() ==> !(rs[i].booking == rs[j].booking && rs[i].equipment
                == rs[j].equipment),
    ensures
        forall|k: int|
            0 <= k < without_rentals(rs, b).len() ==> (#[trigger] without_rentals(rs, b)[k]).booking
                != b,
        forall|x: RentalRow| without_rentals(rs, b).contains(x) ==> rs.contains(x),
        forall|i: int, j: int|
            0 <= i < j < without_rentals(rs, b).len() ==> !(without_rentals(rs, b)[i].booking
                == without_rentals(rs, b)[j].booking && without_rentals(rs, b)[i].equipment
                == without_rentals(rs, b)[j].equipment),
    decreases rs.len(),
{
    if rs.len() == 0 {
    } else {
        assert forall|i: int, j: int|
            0 <= i < j < rs.drop_last().len() implies !(rs.drop_last()[i].booking
            == rs.drop_last()[j].booking && rs.drop_last()[i].equipment
            == rs.drop_last()[j].equipment) by {
            assert(rs.drop_last()[i] == rs[i]);
            assert(rs.drop_last()[j] == rs[j]);
        }
        lemma_without_rentals_rows(rs.drop_last(), b);
        let r = without_rentals(rs, b);
        let rest = without_rentals(rs.drop_last(), b);
        assert forall|x: RentalRow| r.contains(x) implies rs.contains(x) by {
            let i = choose|i: int| 0 <= i < r.len() && r[i] == x;
            if i < rest.len() {
                assert(rest[i] == x);
                assert(rs.drop_last().contains(x));
                let w = choose|w: int| 0 <= w < rs.drop_last().len() && rs.drop_last()[w] == x;
                assert(rs[w] == x);
            } else {
                assert(x == rs.last());
                assert(rs[rs.len() - 1] == x);
            }
        }
        if rs.last().booking != b {
            assert forall|i: int, j: int|
                0 <= i < j < r.len() implies !(r[i].booking == r[j].booking && r[i].equipment
                == r[j].equipment) by {
                if j == rest.len() {
                    assert(rest.contains(rest[i]));
                    assert(rs.drop_last().contains(rest[i]));
                    let w = choose|w: int|
                        0 <= w < rs.drop_last().len() && rs.drop_last()[w] == rest[i];
                    assert(rs[w] == rest[i]);
                    assert(!(rs[w].booking == rs.last().booking && rs[w].equipment
                        == rs.last().equipment));
                }
            }
        }
    }
}

/// Two states with the same waiver table record the same waiver for every
/// participant.
pub proof fn lemma_waiver_of_same(d0: Db, d1: Db, pid: ParticipantId)
    requires
        d1.waivers == d0.waivers,
        d0.waivers_ok(),
    ensures
        d1.waiver_of(pid) == d0.waiver_of(pid),
{
    if exists|i: int| 0 <= i < d0.waivers.len() && d0.waivers[i].participant == pid {
        let c0 = choose|i: int| 0 <= i < d0.waivers.len() && d0.waivers[i].participant == pid;
        assert(d1.waivers[c0].participant == pid);
        assert(exists|i: int| 0 <= i < d1.waivers.len() && d1.waivers[i].participant == pid);
        let c1 = choose|i: int| 0 <= i < d1.waivers.len() && d1.waivers[i].participant == pid;
        assert(d0.waivers[c1].participant == pid);
        assert(c1 == c0);
        assert(d1.waiver_of(pid) == Some(d1.waivers[c1].waiver));
        assert(d0.waiver_of(pid) == Some(d0.waivers[c0].waiver));
    } else {
        if exists|i: int| 0 <= i < d1.waivers.len() && d1.waivers[i].participant == pid {
            let c1 = choose|i: int|
                0 <= i < d1.waivers.len() && d1.waivers[i].participant == pid;
            assert(d0.waivers[c1].participant == pid);
            assert(false);
        }
        assert(d1.waiver_of(pid) is None);
        assert(d0.waiver_of(pid) is None);
    }
}

// --- well-formedness transfer when only one table changed -----------------

/// A change confined to the customer table preserves well-formedness as
/// soon as the new customer table is itself in order.
pub proof fn lemma_wf_customers_changed(d0: Db, d1: Db)
    requires
        d0.wf(),
        d1.bookings == d0.bookings,
        d1.participants == d0.participants,
        d1.memberships == d0.memberships,
        d1.waivers == d0.waivers,
        d1.trips == d0.trips,
        d1.rentals == d0.rentals,
        d1.customers_ok(),
    ensures
        d1.wf(),
{
    assert forall|i: int|
        0 <= i < d1.memberships.len() implies d1.has_booking(
        (#[trigger] d1.memberships[i]).booking,
    ) && d1.has_participant(d1.memberships[i].participant) by {
        assert(d0.has_booking(d0.memberships[i].booking));
        assert(d0.has_participant(d0.memberships[i].participant));
    }
    assert(d1.memberships_ok());
}

/// A change confined to the waiver table preserves well-formedness as
/// soon as the new waiver table is itself in order.
pub proof fn lemma_wf_waivers_changed(d0: Db, d1: Db)
    requires
        d0.wf(),
        d1.bookings == d0.bookings,
        d1.participants == d0.participants,
        d1.memberships == d0.memberships,
        d1.customers == d0.customers,
        d1.trips == d0.trips,
        d1.rentals == d0.rentals,
        d1.waivers_ok(),
    ensures
        d1.wf(),
{
    assert forall|i: int|
        0 <= i < d1.memberships.len() implies d1.has_booking(
        (#[trigger] d1.memberships[i]).booking,
    ) && d1.has_participant(d1.memberships[i].participant) by {
        assert(d0.has_booking(d0.memberships[i].booking));
        assert(d0.has_participant(d0.memberships[i].participant));
    }
    assert(d1.memberships_ok());
}

/// A change confined to the trip table preserves well-formedness as soon
/// as the new trip table is itself in order.
pub proof fn lemma_wf_trips_changed(d0: Db, d1: Db)
    requires
        d0.wf(),
        d1.bookings == d0.bookings,
        d1.participants == d0.participants,
        d1.memberships == d0.memberships,
        d1.customers == d0.customers,
        d1.waivers == d0.waivers,
        d1.rentals == d0.rentals,
        d1.trips_ok(),
    ensures
        d1.wf(),
{
    assert forall|i: int|
        0 <= i < d1.memberships.len() implies d1.has_booking(
        (#[trigger] d1.memberships[i]).booking,
    ) && d1.has_participant(d1.memberships[i].participant) by {
        assert(d0.has_booking(d0.memberships[i].booking));
        assert(d0.has_participant(d0.memberships[i].participant));
    }
    assert(d1.memberships_ok());
}

/// A change confined to the rental table preserves well-formedness as
/// soon as the new rental table is itself in order.
pub proof fn lemma_wf_rentals_changed(d0: Db, d1: Db)
    requires
        d0.wf(),
        d1.bookings == d0.bookings,
        d1.participants == d0.participants,
        d1.memberships == d0.memberships,
        d1.customers == d0.customers,
        d1.waivers == d0.waivers,
        d1.trips == d0.trips,
        d1.rentals_ok(),
    ensures
        d1.wf(),
{
    assert forall|i: int|
        0 <= i < d1.memberships.len() implies d1.has_booking(
        (#[trigger] d1.memberships[i]).booking,
    ) && d1.has_participant(d1.memberships[i].participant) by {
        assert(d0.has_booking(d0.memberships[i].booking));
        assert(d0.has_participant(d0.memberships[i].participant));
    }
    assert(d1.memberships_ok());
}

/// Replacing a booking's rentals with a mapping of distinct keys leaves
/// the state well formed.
pub proof fn lemma_saved_rentals_wf(db: Db, b: BookingId, pairs: Seq<(EquipmentId, i32)>)
    requires
        db.wf(),
        forall|i: int, j: int| 0 <= i < j < pairs.len() ==> pairs[i].0 != pairs[j].0,
    ensures
        db.saved_rentals(b, pairs).wf(),
{
    let d1 = db.saved_rentals(b, pairs);
    lemma_without_rentals_rows(db.rentals, b);
    let left = without_rentals(db.rentals, b);
    let right = pairs.map_values(
        |p: (EquipmentId, i32)| RentalRow { booking: b, equipment: p.0, quantity: p.1 },
    );
    assert(d1.rentals == left + right);
    assert forall|i: int, j: int|
        0 <= i < j < d1.rentals.len() implies !(d1.rentals[i].booking == d1.rentals[j].booking
        && d1.rentals[i].equipment == d1.rentals[j].equipment) by {
        if i < left.len() && j < left.len() {
        } else if i < left.len() && j >= left.len() {
            assert(d1.rentals[i] == left[i]);
            assert(d1.rentals[j] == right[j - left.len()]);
            assert(left[i].booking != b);
        } else {
            assert(d1.rentals[i] == right[i - left.len()]);
            assert(d1.rentals[j] == right[j - left.len()]);
            assert(pairs[i - left.len()].0 != pairs[j - left.len()].0);
        }
    }
    assert(d1.rentals_ok());
    lemma_wf_rentals_changed(db, d1);
}

// --- the write and delete protocols preserve well-formedness --------------

/// A committed booking write leaves the state well formed, and its header
/// is found afterwards with exactly the supplied references.
pub proof fn lemma_saved_booking_wf(db: Db, b: BookingV)
    requires
        db.wf(),
        db.can_save_booking(b),
    ensures
        db.saved_booking(b).wf(),
        db.saved_booking(b).has_booking(b.id),
        header_with(db.saved_booking(b).bookings, b.id) == (BookingHeader {
            id: b.id,
            customer: b.customer,
            trip: b.trip,
        }),
{
    let h = BookingHeader { id: b.id, customer: b.customer, trip: b.trip };
    let d1 = db.saved_booking(b);
    assert(header_key()(h) == b.id.0);
    assert forall|i: int|
        0 <= i < db.bookings.len() implies header_key()(#[trigger] db.bookings[i]) != header_key()(
        h,
    ) by {
        if db.bookings[i].id.0 == b.id.0 {
            assert(db.bookings[i].id == b.id);
            assert(has_header(db.bookings, b.id));
        }
    }
    crate::sorted::lemma_insert_sorted(db.bookings, header_key(), h);
    crate::sorted::lemma_pos_of_bounds(db.bookings, header_key(), b.id.0);
    let p = insert_pos(db.bookings, b.id);
    db.bookings.insert_ensures(p, h);
    assert(d1.bookings == db.bookings.insert(insert_pos(db.bookings, b.id), h));
    assert(d1.bookings_ok());

    // the inserted header is present, and is the one found for its id
    let hw = p;
    assert(d1.bookings[hw] == h);
    assert(has_header(d1.bookings, b.id));
    let hc = choose|i: int| 0 <= i < d1.bookings.len() && d1.bookings[i].id == b.id;
    assert(header_key()(d1.bookings[hc]) == header_key()(d1.bookings[hw]));
    assert(hc == hw);
    assert(header_with(d1.bookings, b.id) == h);

    // participants: upserted content with unique ids
    lemma_upsert_rows_effect(db.participants, b.participants);
    assert(d1.participants_ok());

    // memberships: surviving rows plus the fresh join rows
    lemma_without_booking_rows(db.memberships, b.id);
    lemma_without_booking_distinct(db.memberships, b.id);
    let left = without_booking(db.memberships, b.id);
    let right = joined(b.id, b.participants);
    assert(d1.memberships == left + right);
    assert forall|k: int| 0 <= k < right.len() implies #[trigger] right[k] == (MembershipRow {
        booking: b.id,
        participant: b.participants[k].id,
    }) by {}
    assert forall|i: int, j: int|
        0 <= i < j < d1.memberships.len() implies d1.memberships[i] != d1.memberships[j] by {
        if i < left.len() && j < left.len() {
        } else if i < left.len() && j >= left.len() {
            assert(d1.memberships[i] == left[i]);
            assert(d1.memberships[j] == right[j - left.len()]);
            assert(left[i].booking != b.id);
        } else {
            assert(d1.memberships[i] == right[i - left.len()]);
            assert(d1.memberships[j] == right[j - left.len()]);
            assert(b.participants[i - left.len()].id != b.participants[j - left.len()].id);
        }
    }
    assert forall|i: int|
        0 <= i < d1.memberships.len() implies d1.has_booking(
        (#[trigger] d1.memberships[i]).booking,
    ) && d1.has_participant(d1.memberships[i].participant) by {
        if i < left.len() {
            let row = left[i];
            assert(left.contains(row));
            assert(db.memberships.contains(row));
            let w = choose|w: int| 0 <= w < db.memberships.len() && db.memberships[w] == row;
            assert(db.has_booking(db.memberships[w].booking));
            assert(db.has_participant(db.memberships[w].participant));
            let bw = choose|v: int|
                0 <= v < db.bookings.len() && db.bookings[v].id == row.booking;
            if bw < p {
                assert(d1.bookings[bw] == db.bookings[bw]);
                assert(d1.bookings[bw].id == row.booking);
            } else {
                assert(d1.bookings[bw + 1] == db.bookings[bw]);
                assert(d1.bookings[bw + 1].id == row.booking);
            }
            assert(has_header(d1.bookings, row.booking));
            assert(has_row(d1.participants, row.participant));
        } else {
            let row = right[i - left.len()];
            assert(row.booking == b.id);
            assert(d1.bookings[hw].id == b.id);
            assert(row.participant == b.participants[i - left.len()].id);
            assert(has_row(d1.participants, row.participant));
        }
    }
    assert(d1.memberships_ok());
    assert(d1.waivers_ok());
    assert(d1.customers_ok());
    assert(d1.trips_ok());
    assert(d1.rentals_ok());
}

/// A booking delete leaves the state well formed.
pub proof fn lemma_deleted_booking_wf(db: Db, id: BookingId)
    requires
        db.wf(),
    ensures
        db.deleted_booking(id).wf(),
        !db.deleted_booking(id).has_booking(id),
{
    let d1 = db.deleted_booking(id);
    lemma_without_header_rows(db.bookings, id);
    assert(d1.bookings_ok());
    if has_header(d1.bookings, id) {
        let i = choose|i: int| 0 <= i < d1.bookings.len() && d1.bookings[i].id == id;
        assert(d1.bookings[i].id != id);
    }
    lemma_without_booking_rows(db.memberships, id);
    lemma_without_booking_distinct(db.memberships, id);
    assert forall|i: int|
        0 <= i < d1.memberships.len() implies d1.has_booking(
        (#[trigger] d1.memberships[i]).booking,
    ) && d1.has_participant(d1.memberships[i].participant) by {
        let row = d1.memberships[i];
        assert(d1.memberships.contains(row));
        assert(db.memberships.contains(row));
        let w = choose|w: int| 0 <= w < db.memberships.len() && db.memberships[w] == row;
        assert(db.has_booking(db.memberships[w].booking));
        assert(db.has_participant(db.memberships[w].participant));
        assert(row.booking != id);
        lemma_without_header_keeps(db.bookings, id, row.booking);
    }
    assert(d1.memberships_ok());
}

/// Deleting an absent booking changes nothing (under the foreign keys, an
/// absent booking also has no join rows).
pub proof fn lemma_deleted_booking_absent(db: Db, id: BookingId)
    requires
        db.wf(),
        !db.has_booking(id),
    ensures
        db.deleted_booking(id) == db,
{
    assert forall|k: int|
        0 <= k < db.memberships.len() implies (#[trigger] db.memberships[k]).booking != id by {
        assert(db.has_booking(db.memberships[k].booking));
    }
    lemma_without_booking_absent(db.memberships, id);
    lemma_without_header_absent(db.bookings, id);
    assert(db.deleted_booking(id) =~= db);
}

} // verus!
