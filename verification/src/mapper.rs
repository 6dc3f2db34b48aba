//! Row flattening: denormalized join rows to booking aggregates.
//!
//! A relational read of bookings returns one row per booking/participant
//! pair.  The mapper groups such rows by booking id — keeping the order
//! of first appearance for the bookings and the row order for each
//! booking's participants — and builds one aggregate per group.  Adapters
//! over a row source hand their rows to [`rows_to_bookings`] or, for a
//! single-booking read, [`booking_from_rows`].

use vstd::prelude::*;

use crate::booking::{Booking, BookingId, BookingV, Participant, ParticipantId, ParticipantV};
use crate::customer::CustomerId;
use crate::db::lemma_take_step;
use crate::trip::TripId;
use crate::waiver::WaiverId;

verus! {

/// One denormalized row of the booking read: header ids plus one
/// participant's columns, with the left-joined waiver id, absent when the
/// participant has no waiver row.
#[derive(Clone, Debug, PartialEq, Eq)]
pub struct BookingRow {
    pub booking_id: BookingId,
    pub customer_id: CustomerId,
    pub trip_id: TripId,
    pub participant_id: ParticipantId,
    pub name: String,
    pub dob: i64,
    pub notes: String,
    pub waiver_id: Option<WaiverId>,
}

/// Mathematical image of a [`BookingRow`].
#[verifier::ext_equal]
pub struct BookingRowV {
    pub booking_id: BookingId,
    pub customer_id: CustomerId,
    pub trip_id: TripId,
    pub participant_id: ParticipantId,
    pub name: Seq<char>,
    pub dob: i64,
    pub notes: Seq<char>,
    pub waiver_id: Option<WaiverId>,
}

impl View for BookingRow {
    type V = BookingRowV;

    open spec fn view(&self) -> BookingRowV {
        BookingRowV {
            booking_id: self.booking_id,
            customer_id: self.customer_id,
            trip_id: self.trip_id,
            participant_id: self.participant_id,
            name: self.name@,
            dob: self.dob,
            notes: self.notes@,
            waiver_id: self.waiver_id,
        }
    }
}

/// The view of a row sequence.
pub open spec fn seq_row_view(v: Seq<BookingRow>) -> Seq<BookingRowV> {
    v.map_values(|r: BookingRow| r@)
}

/// The participant a row carries; an absent waiver id maps to an absent
/// reference.
pub open spec fn row_participant(r: BookingRowV) -> ParticipantV {
    ParticipantV { id: r.participant_id, name: r.name, dob: r.dob, notes: r.notes, waiver: r.waiver_id }
}

/// The distinct booking ids of the rows, in order of first appearance.
pub open spec fn seen_ids(rows: Seq<BookingRowV>) -> Seq<BookingId>
    decreases rows.len(),
{
    if rows.len() == 0 {
        Seq::empty()
    } else {
        let pre = seen_ids(rows.drop_last());
        if pre.contains(rows.last().booking_id) {
            pre
        } else {
            pre.push(rows.last().booking_id)
        }
    }
}

/// The rows of one booking, in row order.
pub open spec fn rows_for(rows: Seq<BookingRowV>, id: BookingId) -> Seq<BookingRowV>
    decreases rows.len(),
{
    if rows.len() == 0 {
        Seq::empty()
    } else {
        let rest = rows_for(rows.drop_last(), id);
        if rows.last().booking_id == id {
            rest.push(rows.last())
        } else {
            rest
        }
    }
}

/// The aggregate of one group: the header references from the group's
/// first row, one participant per row in order.
pub open spec fn group_of(rows: Seq<BookingRowV>, id: BookingId) -> BookingV {
    let rs = rows_for(rows, id);
    BookingV {
        id,
        customer: rs.first().customer_id,
        trip: rs.first().trip_id,
        participants: rs.map_values(|r: BookingRowV| row_participant(r)),
    }
}

/// The whole mapping: one aggregate per distinct booking id, in order of
/// first appearance.
pub open spec fn grouped(rows: Seq<BookingRowV>) -> Seq<BookingV> {
    seen_ids(rows).map_values(|id: BookingId| group_of(rows, id))
}

/// How the group functions evolve when one row is appended.
proof fn lemma_group_push(rows: Seq<BookingRowV>, x: BookingRowV, id: BookingId)
    ensures
        seen_ids(rows).contains(x.booking_id) ==> seen_ids(rows.push(x)) == seen_ids(rows),
        !seen_ids(rows).contains(x.booking_id) ==> seen_ids(rows.push(x)) == seen_ids(rows).push(
            x.booking_id,
        ),
        x.booking_id == id ==> rows_for(rows.push(x), id) == rows_for(rows, id).push(x),
        x.booking_id != id ==> rows_for(rows.push(x), id) == rows_for(rows, id),
{
    assert(rows.push(x).drop_last() =~= rows);
}

/// The seen ids are distinct, and each has at least one row; an id with a
/// row is seen.
proof fn lemma_seen_ids_props(rows: Seq<BookingRowV>)
    ensures
        forall|a: int, b: int|
            0 <= a < b < seen_ids(rows).len() ==> seen_ids(rows)[a] != seen_ids(rows)[b],
        forall|id: BookingId|
            #[trigger] seen_ids(rows).contains(id) <==> rows_for(rows, id).len() > 0,
    decreases rows.len(),
{
    if rows.len() == 0 {
        assert forall|id: BookingId|
            #[trigger] seen_ids(rows).contains(id) <==> rows_for(rows, id).len() > 0 by {
            if seen_ids(rows).contains(id) {
                let k = choose|k: int| 0 <= k < seen_ids(rows).len() && seen_ids(rows)[k] == id;
            }
        }
    } else {
        lemma_seen_ids_props(rows.drop_last());
        lemma_group_push(rows.drop_last(), rows.last(), rows.last().booking_id);
        assert(rows.drop_last().push(rows.last()) =~= rows);
        let pre = seen_ids(rows.drop_last());
        let s = seen_ids(rows);
        if pre.contains(rows.last().booking_id) {
            assert(s == pre);
        } else {
            assert(s == pre.push(rows.last().booking_id));
            assert forall|a: int, b: int| 0 <= a < b < s.len() implies s[a] != s[b] by {
                if b == s.len() - 1 {
                    assert(pre[a] == s[a]);
                    if s[a] == rows.last().booking_id {
                        assert(pre.contains(rows.last().booking_id));
                        assert(false);
                    }
                }
            }
        }
        assert forall|id: BookingId|
            #[trigger] s.contains(id) <==> rows_for(rows, id).len() > 0 by {
            assert(rows_for(rows.drop_last(), id).len() > 0 <==> pre.contains(id));
            if rows.last().booking_id == id {
                assert(rows_for(rows, id) == rows_for(rows.drop_last(), id).push(rows.last()));
                assert(rows_for(rows, id).len() > 0);
                if pre.contains(id) {
                    let k = choose|k: int| 0 <= k < pre.len() && pre[k] == id;
                    assert(s.contains(id)) by {
                        if s == pre {
                            assert(s[k] == id);
                        } else {
                            assert(s[k] == id);
                        }
                    }
                } else {
                    assert(s == pre.push(id));
                    assert(s[s.len() - 1] == id);
                    assert(s.contains(id));
                }
            } else {
                assert(rows_for(rows, id) == rows_for(rows.drop_last(), id));
                if s.contains(id) {
                    let k = choose|k: int| 0 <= k < s.len() && s[k] == id;
                    if s == pre {
                        assert(pre.contains(id));
                    } else {
                        if k < pre.len() {
                            assert(pre[k] == id);
                            assert(pre.contains(id));
                        } else {
                            assert(s[k] == rows.last().booking_id);
                            assert(false);
                        }
                    }
                }
                if pre.contains(id) {
                    let k = choose|k: int| 0 <= k < pre.len() && pre[k] == id;
                    assert(s[k] == id);
                    assert(s.contains(id));
                }
            }
        }
    }
}

/// Groups denormalized rows into booking aggregates: one booking per
/// distinct id in order of first appearance, carrying its rows'
/// participants in row order, with the header references taken from the
/// group's first row.
pub fn rows_to_bookings(rows: &Vec<BookingRow>) -> (r: Vec<Booking>)
    ensures
        crate::booking::seq_booking_view(r@) == grouped(seq_row_view(rows@)),
{
    let ghost rv = seq_row_view(rows@);
    let n = rows.len();
    let mut out: Vec<Booking> = Vec::new();
    let mut i: usize = 0;
    while i < n
        invariant
            rv == seq_row_view(rows@),
            n == rows@.len(),
            i <= n,
            crate::booking::seq_booking_view(out@) == grouped(rv.take(i as int)),
        decreases n - i,
    {
        proof {
            lemma_take_step(rv, i as int);
            lemma_seen_ids_props(rv.take(i as int));
        }
        let row = &rows[i];
        let bid = row.booking_id;
        let p = Participant {
            id: row.participant_id,
            name: row.name.clone(),
            dob: row.dob,
            notes: row.notes.clone(),
            waiver: row.waiver_id,
        };
        proof {
            assert(rv[i as int] == rows@[i as int]@);
            assert(p@ =~= row_participant(rv[i as int]));
        }
        let on = out.len();
        let mut found: Option<usize> = None;
        let mut j: usize = 0;
        while j < on
            invariant
                rv == seq_row_view(rows@),
                n == rows@.len(),
                i < n,
                on == out@.len(),
                j <= on,
                crate::booking::seq_booking_view(out@) == grouped(rv.take(i as int)),
                p@ == row_participant(rv[i as int]),
                bid == rv[i as int].booking_id,
                match found {
                    None => forall|t: int|
                        0 <= t < j ==> (#[trigger] out@[t]).id != rv[i as int].booking_id,
                    Some(fi) => fi < on && out@[fi as int].id == rv[i as int].booking_id,
                },
            decreases on - j,
        {
            if found.is_none() && out[j].id == bid {
                found = Some(j);
            }
            j += 1;
        }
        let ghost pre = seen_ids(rv.take(i as int));
        let ghost x = rv[i as int];
        proof {
            assert(crate::booking::seq_booking_view(out@).len() == out@.len());
            assert(grouped(rv.take(i as int)).len() == pre.len());
            assert(out@.len() == pre.len());
            assert forall|k: int| 0 <= k < pre.len() implies (#[trigger] out@[k]).id == pre[k] by {
                assert(crate::booking::seq_booking_view(out@)[k] == out@[k]@);
                assert(grouped(rv.take(i as int))[k] == group_of(rv.take(i as int), pre[k]));
            }
        }
        match found {
            Some(fi) => {
                proof {
                    assert(pre[fi as int] == x.booking_id);
                    assert(pre.contains(x.booking_id));
                    lemma_group_push(rv.take(i as int), x, x.booking_id);
                    assert(seen_ids(rv.take(i as int + 1)) == pre);
                    assert(rows_for(rv.take(i as int), x.booking_id).len() > 0);
                    assert(crate::booking::seq_booking_view(out@)[fi as int] == out@[fi as int]@);
                    assert(out@[fi as int]@ == group_of(rv.take(i as int), x.booking_id));
                }
                let ghost bk0 = out@[fi as int];
                let ghost outpre = out@;
                let mut bk = out.remove(fi);
                bk.participants.push(p);
                out.insert(fi, bk);
                proof {
                    let s1 = rv.take(i as int + 1);
                    let s0 = rv.take(i as int);
                    assert forall|k: int|
                        0 <= k < pre.len() && k != fi implies group_of(s1, #[trigger] pre[k])
                        == group_of(s0, pre[k]) by {
                        lemma_group_push(s0, x, pre[k]);
                        assert(pre[k] != x.booking_id);
                        assert(rows_for(s1, pre[k]) == rows_for(s0, pre[k]));
                    }
                    assert(rows_for(s1, x.booking_id) == rows_for(s0, x.booking_id).push(x));
                    assert(rows_for(s1, x.booking_id).first() == rows_for(
                        s0,
                        x.booking_id,
                    ).first());
                    assert(group_of(s1, x.booking_id).participants =~= group_of(
                        s0,
                        x.booking_id,
                    ).participants.push(row_participant(x)));
                    assert(bk0@ == group_of(s0, x.booking_id));
                    assert(bk@.participants == bk0@.participants.push(p@));
                    assert(bk@ =~= group_of(s1, x.booking_id));
                    assert(out@ =~= outpre.update(fi as int, bk));
                    assert forall|k: int|
                        0 <= k < pre.len() implies crate::booking::seq_booking_view(out@)[k]
                        == grouped(s1)[k] by {
                        assert(seen_ids(s1)[k] == pre[k]);
                        assert(crate::booking::seq_booking_view(out@)[k] == out@[k]@);
                        if k == fi {
                            assert(out@[k] == bk);
                        } else {
                            assert(out@[k] == outpre[k]);
                            assert(crate::booking::seq_booking_view(outpre)[k] == outpre[k]@);
                            assert(outpre[k]@ == group_of(s0, pre[k]));
                        }
                    }
                    assert(crate::booking::seq_booking_view(out@) =~= grouped(s1));
                }
            },
            None => {
                proof {
                    assert forall|t: int|
                        0 <= t < pre.len() implies #[trigger] pre[t] != x.booking_id by {
                        assert(out@[t].id == pre[t]);
                    }
                    if pre.contains(x.booking_id) {
                        let t = choose|t: int| 0 <= t < pre.len() && pre[t] == x.booking_id;
                        assert(false);
                    }
                    lemma_group_push(rv.take(i as int), x, x.booking_id);
                    assert(seen_ids(rv.take(i as int + 1)) == pre.push(x.booking_id));
                    assert(rows_for(rv.take(i as int), x.booking_id).len() == 0);
                }
                let ghost outpre0 = out@;
                let mut ps: Vec<Participant> = Vec::new();
                ps.push(p);
                let bk = Booking {
                    id: row.booking_id,
                    customer: row.customer_id,
                    trip: row.trip_id,
                    participants: ps,
                };
                out.push(bk);
                proof {
                    let s1 = rv.take(i as int + 1);
                    let s0 = rv.take(i as int);
                    assert forall|k: int|
                        0 <= k < pre.len() implies group_of(s1, #[trigger] pre[k]) == group_of(
                        s0,
                        pre[k],
                    ) by {
                        lemma_group_push(s0, x, pre[k]);
                        assert(rows_for(s1, pre[k]) == rows_for(s0, pre[k]));
                    }
                    assert(rows_for(s1, x.booking_id) =~= Seq::<BookingRowV>::empty().push(x));
                    assert(rows_for(s1, x.booking_id).first() == x);
                    assert(bk@.participants =~= rows_for(s1, x.booking_id).map_values(
                        |r: BookingRowV| row_participant(r),
                    ));
                    assert(bk@ =~= group_of(s1, x.booking_id));
                    assert forall|k: int|
                        0 <= k < pre.len() + 1 implies crate::booking::seq_booking_view(out@)[k]
                        == grouped(s1)[k] by {
                        assert(seen_ids(s1)[k] == pre.push(x.booking_id)[k]);
                        assert(crate::booking::seq_booking_view(out@)[k] == out@[k]@);
                        if k == pre.len() {
                            assert(out@[k] == bk);
                        } else {
                            assert(out@[k] == outpre0[k]);
                            assert(crate::booking::seq_booking_view(outpre0)[k] == outpre0[k]@);
                            assert(outpre0[k]@ == group_of(s0, pre[k]));
                            assert(seen_ids(s1)[k] == pre[k]);
                        }
                    }
                    assert(crate::booking::seq_booking_view(out@) =~= grouped(s1));
                }
            },
        }
        i += 1;
    }
    proof {
        assert(rv.take(n as int) =~= rv);
    }
    out
}

/// The single-booking read: header references from the first row, one
/// participant per row in row order (the caller's query constrains every
/// row to one booking id).
pub open spec fn single_booking(rows: Seq<BookingRowV>) -> BookingV {
    BookingV {
        id: rows.first().booking_id,
        customer: rows.first().customer_id,
        trip: rows.first().trip_id,
        participants: rows.map_values(|r: BookingRowV| row_participant(r)),
    }
}

/// Builds the one booking a single-id read returned, or nothing from an
/// empty row set ("not found" is a value, not an error).
pub fn booking_from_rows(rows: &Vec<BookingRow>) -> (r: Option<Booking>)
    ensures
        rows@.len() == 0 ==> r is None,
        rows@.len() > 0 ==> (r matches Some(b) && b@ == single_booking(seq_row_view(rows@))),
{
    let n = rows.len();
    if n == 0 {
        return None;
    }
    let first = &rows[0];
    let mut ps: Vec<Participant> = Vec::new();
    let mut i: usize = 0;
    while i < n
        invariant
            n == rows@.len(),
            i <= n,
            ps@.map_values(|p: Participant| p@) == seq_row_view(rows@).take(i as int).map_values(
                |r: BookingRowV| row_participant(r),
            ),
        decreases n - i,
    {
        let row = &rows[i];
        let p = Participant {
            id: row.participant_id,
            name: row.name.clone(),
            dob: row.dob,
            notes: row.notes.clone(),
            waiver: row.waiver_id,
        };
        ps.push(p);
        proof {
            lemma_take_step(seq_row_view(rows@), i as int);
            assert(p@ =~= row_participant(seq_row_view(rows@)[i as int]));
            assert(ps@.map_values(|q: Participant| q@) =~= seq_row_view(rows@).take(
                i as int,
            ).map_values(|r: BookingRowV| row_participant(r)).push(
                row_participant(seq_row_view(rows@)[i as int]),
            ));
            assert(seq_row_view(rows@).take(i as int).map_values(
                |r: BookingRowV| row_participant(r),
            ).push(row_participant(seq_row_view(rows@)[i as int])) =~= seq_row_view(rows@).take(
                i as int + 1,
            ).map_values(|r: BookingRowV| row_participant(r)));
        }
        i += 1;
    }
    proof {
        assert(seq_row_view(rows@).take(n as int) =~= seq_row_view(rows@));
    }
    let out = Booking {
        id: first.booking_id,
        customer: first.customer_id,
        trip: first.trip_id,
        participants: ps,
    };
    proof {
        assert(seq_row_view(rows@).first() == rows@[0]@);
        assert(out@ =~= single_booking(seq_row_view(rows@)));
    }
    Some(out)
}

/// Splits a participant sequence into one column vector per field, for a
/// bulk insert that binds one array per column.
pub fn participants_to_tuples(participants: &Vec<Participant>) -> (r: (
    Vec<u128>,
    Vec<String>,
    Vec<i64>,
    Vec<String>,
))
    ensures
        r.0@ == participants@.map_values(|p: Participant| p.id.0),
        r.1@.map_values(|s: String| s@) == participants@.map_values(|p: Participant| p.name@),
        r.2@ == participants@.map_values(|p: Participant| p.dob),
        r.3@.map_values(|s: String| s@) == participants@.map_values(|p: Participant| p.notes@),
{
    let n = participants.len();
    let mut ids: Vec<u128> = Vec::new();
    let mut names: Vec<String> = Vec::new();
    let mut dobs: Vec<i64> = Vec::new();
    let mut notes: Vec<String> = Vec::new();
    let mut i: usize = 0;
    while i < n
        invariant
            n == participants@.len(),
            i <= n,
            ids@ == participants@.take(i as int).map_values(|p: Participant| p.id.0),
            names@.map_values(|s: String| s@) == participants@.take(i as int).map_values(
                |p: Participant| p.name@,
            ),
            dobs@ == participants@.take(i as int).map_values(|p: Participant| p.dob),
            notes@.map_values(|s: String| s@) == participants@.take(i as int).map_values(
                |p: Participant| p.notes@,
            ),
        decreases n - i,
    {
        let p = &participants[i];
        ids.push(p.id.0);
        names.push(p.name.clone());
        dobs.push(p.dob);
        notes.push(p.notes.clone());
        proof {
            lemma_take_step(participants@, i as int);
            assert(ids@ =~= participants@.take(i as int + 1).map_values(
                |p: Participant| p.id.0,
            ));
            assert(names@.map_values(|s: String| s@) =~= participants@.take(
                i as int,
            ).map_values(|p: Participant| p.name@).push(participants@[i as int].name@));
            assert(participants@.take(i as int).map_values(|p: Participant| p.name@).push(
                participants@[i as int].name@,
            ) =~= participants@.take(i as int + 1).map_values(|p: Participant| p.name@));
            assert(dobs@ =~= participants@.take(i as int + 1).map_values(
                |p: Participant| p.dob,
            ));
            assert(notes@.map_values(|s: String| s@) =~= participants@.take(
                i as int,
            ).map_values(|p: Participant| p.notes@).push(participants@[i as int].notes@));
            assert(participants@.take(i as int).map_values(|p: Participant| p.notes@).push(
                participants@[i as int].notes@,
            ) =~= participants@.take(i as int + 1).map_values(|p: Participant| p.notes@));
        }
        i += 1;
    }
    proof {
        assert(participants@.take(n as int) =~= participants@);
    }
    (ids, names, dobs, notes)
}

/// One row of the customer table.
#[derive(Clone, Debug, PartialEq, Eq)]
pub struct CustomerRow {
    pub customer_id: crate::customer::CustomerId,
    pub name: String,
    pub email: String,
    pub phone: String,
}

/// Builds the customer entity a customer row carries.
pub fn customer_from_row(row: CustomerRow) -> (c: crate::customer::Customer)
    ensures
        c@.id == row.customer_id,
        c@.name == row.name@,
        c@.email == row.email@,
        c@.phone == row.phone@,
{
    crate::customer::Customer {
        id: row.customer_id,
        name: crate::customer::CustomerName(row.name),
        email: crate::customer::EmailAddress(row.email),
        phone: crate::customer::PhoneNumber(row.phone),
    }
}

/// One row of the trip read, joined with its trip kind.
#[derive(Clone, Debug, PartialEq, Eq)]
pub struct TripRow {
    pub trip_id: TripId,
    pub trip_kind_id: crate::trip::TripKindId,
    pub name: String,
    pub description: String,
    pub guided: bool,
    pub meal_provided: bool,
    pub location_id: crate::trip::LocationId,
    pub start_time: i64,
    pub end_time: i64,
}

/// Builds the trip aggregate a joined trip row carries.
pub fn trip_from_row(row: TripRow) -> (t: crate::trip::Trip)
    ensures
        t@.id == row.trip_id,
        t@.kind.id == row.trip_kind_id,
        t@.kind.name == row.name@,
        t@.kind.description == row.description@,
        t@.kind.guided == row.guided,
        t@.kind.meal_provided == row.meal_provided,
        t@.location == row.location_id,
        t@.start_time == row.start_time,
        t@.end_time == row.end_time,
{
    crate::trip::Trip {
        id: row.trip_id,
        kind: crate::trip::TripKind {
            id: row.trip_kind_id,
            name: row.name,
            description: row.description,
            guided: row.guided,
            meal_provided: row.meal_provided,
        },
        location: row.location_id,
        start_time: row.start_time,
        end_time: row.end_time,
    }
}

} // verus!
