//! The contract-level laws of the repository.
//!
//! Each proof function here states a property of the model semantics that
//! the store's operation contracts are written in, so it holds of any
//! implementation proved against them.

use vstd::prelude::*;

use crate::booking::{BookingFilters, BookingId, BookingV, ParticipantId};
use crate::customer::CustomerId;
use crate::db::{
    has_row, header_matches, joined, lemma_deleted_booking_absent, lemma_deleted_booking_wf,
    lemma_member_pids_absent, lemma_member_pids_concat, lemma_member_pids_joined,
    lemma_saved_booking_wf, lemma_upsert_rows_effect, lemma_without_booking_rows, member_pids,
    row_of, row_with, without_booking, Db,
};
use crate::trip::TripId;

verus! {

/// Round trip: saving a booking with at least one participant and then
/// looking its id up returns the very booking, participant order included.
/// The saved booking must be saveable (fresh id, distinct participant
/// ids), and each participant's waiver reference must agree with the
/// waiver table — the write path never touches waivers, so a reference
/// the table does not back would come back corrected.
pub proof fn lemma_save_then_find_round_trip(db: Db, b: BookingV)
    requires
        db.wf(),
        db.can_save_booking(b),
        b.participants.len() > 0,
        forall|k: int|
            0 <= k < b.participants.len() ==> db.waiver_of((#[trigger] b.participants[k]).id)
                == b.participants[k].waiver,
    ensures
        db.saved_booking(b).lookup_booking(b.id) == Some(b),
{
    let d1 = db.saved_booking(b);
    lemma_saved_booking_wf(db, b);
    lemma_without_booking_rows(db.memberships, b.id);
    let left = without_booking(db.memberships, b.id);
    let right = joined(b.id, b.participants);
    lemma_member_pids_absent(left, b.id, None);
    lemma_member_pids_concat(left, right, b.id, None);
    lemma_member_pids_joined(b.id, b.participants);
    let pids = member_pids(d1.memberships, b.id, None);
    assert(pids =~= b.participants.map_values(|p: crate::booking::ParticipantV| p.id));
    assert(pids.len() == b.participants.len());
    lemma_upsert_rows_effect(db.participants, b.participants);
    assert forall|k: int|
        0 <= k < pids.len() implies d1.participant_value(#[trigger] pids[k])
        == b.participants[k] by {
        assert(pids[k] == b.participants[k].id);
        assert(row_with(d1.participants, b.participants[k].id) == row_of(b.participants[k]));
        crate::db::lemma_waiver_of_same(db, d1, b.participants[k].id);
        assert(d1.participant_value(pids[k]) =~= b.participants[k]);
    }
    let h = d1.header_of(b.id);
    assert(h == (crate::db::BookingHeader { id: b.id, customer: b.customer, trip: b.trip }));
    assert(d1.assembled_booking(h, None).participants =~= b.participants);
    assert(d1.assembled_booking(h, None) =~= b);
    assert(d1.lookup_booking(b.id) == Some(b));
}

/// Idempotent delete: deleting a booking twice is the same as deleting it
/// once, and deleting an id that is not there changes nothing (and so
/// succeeds, as the delete contract always does).
pub proof fn lemma_delete_booking_idempotent(db: Db, id: BookingId)
    requires
        db.wf(),
    ensures
        db.deleted_booking(id).deleted_booking(id) == db.deleted_booking(id),
        !db.has_booking(id) ==> db.deleted_booking(id) == db,
{
    lemma_deleted_booking_wf(db, id);
    lemma_deleted_booking_absent(db.deleted_booking(id), id);
    if !db.has_booking(id) {
        lemma_deleted_booking_absent(db, id);
    }
}

/// Every booking a query returns comes from a header that passes the
/// filters and keeps a member under the participant filter — and every
/// such header is returned.
pub proof fn lemma_selected_bookings_ids(db: Db, hs: Seq<crate::db::BookingHeader>, f: BookingFilters)
    ensures
        forall|k: int|
            0 <= k < db.selected_bookings(hs, f).len() ==> exists|i: int|
                0 <= i < hs.len() && (#[trigger] db.selected_bookings(hs, f)[k]).id == hs[i].id
                    && header_matches(hs[i], f) && member_pids(
                    db.memberships,
                    hs[i].id,
                    f.participant,
                ).len() > 0,
        forall|i: int|
            0 <= i < hs.len() && header_matches(#[trigger] hs[i], f) && member_pids(
                db.memberships,
                hs[i].id,
                f.participant,
            ).len() > 0 ==> exists|k: int|
                0 <= k < db.selected_bookings(hs, f).len() && db.selected_bookings(hs, f)[k].id
                    == hs[i].id,
    decreases hs.len(),
{
    if hs.len() == 0 {
    } else {
        lemma_selected_bookings_ids(db, hs.drop_last(), f);
        let r = db.selected_bookings(hs, f);
        let rest = db.selected_bookings(hs.drop_last(), f);
        assert forall|k: int|
            0 <= k < r.len() implies exists|i: int|
            0 <= i < hs.len() && (#[trigger] r[k]).id == hs[i].id && header_matches(hs[i], f)
                && member_pids(db.memberships, hs[i].id, f.participant).len() > 0 by {
            if k < rest.len() {
                assert(r[k] == rest[k]);
                let i = choose|i: int|
                    0 <= i < hs.drop_last().len() && rest[k].id == hs.drop_last()[i].id
                        && header_matches(hs.drop_last()[i], f) && member_pids(
                        db.memberships,
                        hs.drop_last()[i].id,
                        f.participant,
                    ).len() > 0;
                assert(hs.drop_last()[i] == hs[i]);
            } else {
                assert(r[k] == db.assembled_booking(hs.last(), f.participant));
                assert(r[k].id == hs[hs.len() - 1].id);
            }
        }
        assert forall|i: int|
            0 <= i < hs.len() && header_matches(#[trigger] hs[i], f) && member_pids(
                db.memberships,
                hs[i].id,
                f.participant,
            ).len() > 0 implies exists|k: int|
            0 <= k < r.len() && r[k].id == hs[i].id by {
            if i < hs.len() - 1 {
                assert(hs.drop_last()[i] == hs[i]);
                let k = choose|k: int| 0 <= k < rest.len() && rest[k].id == hs.drop_last()[i].id;
                assert(r[k] == rest[k]);
                assert(r[k].id == hs[i].id);
            } else {
                assert(r[r.len() - 1].id == hs[i].id);
            }
        }
    }
}

/// A header that passes the filters and keeps a member is returned by the
/// query.
pub proof fn lemma_query_returns(db: Db, f: BookingFilters, i: int)
    requires
        db.wf(),
        !f.spec_is_empty(),
        0 <= i < db.bookings.len(),
        header_matches(db.bookings[i], f),
        member_pids(db.memberships, db.bookings[i].id, f.participant).len() > 0,
    ensures
        exists|k: int|
            0 <= k < db.query_bookings(f).len() && (#[trigger] db.query_bookings(f)[k]).id
                == db.bookings[i].id,
{
    lemma_selected_bookings_ids(db, db.bookings, f);
    let k = choose|k: int|
        0 <= k < db.selected_bookings(db.bookings, f).len() && db.selected_bookings(
            db.bookings,
            f,
        )[k].id == db.bookings[i].id;
    assert(db.query_bookings(f)[k].id == db.bookings[i].id);
}

/// A booking whose header fails the filters is not returned by the query.
pub proof fn lemma_query_omits(db: Db, f: BookingFilters, i: int)
    requires
        db.wf(),
        !f.spec_is_empty(),
        0 <= i < db.bookings.len(),
        !header_matches(db.bookings[i], f),
    ensures
        forall|k: int|
            0 <= k < db.query_bookings(f).len() ==> (#[trigger] db.query_bookings(f)[k]).id
                != db.bookings[i].id,
{
    lemma_selected_bookings_ids(db, db.bookings, f);
    let q = db.selected_bookings(db.bookings, f);
    assert forall|k: int| 0 <= k < q.len() implies (#[trigger] q[k]).id != db.bookings[i].id by {
        let w = choose|w: int|
            0 <= w < db.bookings.len() && q[k].id == db.bookings[w].id && header_matches(
                db.bookings[w],
                f,
            ) && member_pids(db.memberships, db.bookings[w].id, f.participant).len() > 0;
        if q[k].id == db.bookings[i].id {
            if w != i {
                assert(crate::db::header_key()(db.bookings[w]) != crate::db::header_key()(
                    db.bookings[i],
                ));
                assert(false);
            }
            assert(false);
        }
    }
}

/// Filter conjunction: with two bookings under one customer but different
/// trips, the customer filter alone returns both; adding the trip filter
/// narrows the result to the booking of that trip.
pub proof fn lemma_filter_conjunction(
    db: Db,
    c: CustomerId,
    t: TripId,
    i1: int,
    i2: int,
    f1: BookingFilters,
    f2: BookingFilters,
)
    requires
        db.wf(),
        0 <= i1 < db.bookings.len(),
        0 <= i2 < db.bookings.len(),
        db.bookings[i1].customer == c,
        db.bookings[i1].trip == t,
        db.bookings[i2].customer == c,
        db.bookings[i2].trip != t,
        member_pids(db.memberships, db.bookings[i1].id, None).len() > 0,
        member_pids(db.memberships, db.bookings[i2].id, None).len() > 0,
        f1 == (BookingFilters { customer: Some(c), trip: None, participant: None }),
        f2 == (BookingFilters { customer: Some(c), trip: Some(t), participant: None }),
    ensures
        exists|k: int|
            0 <= k < db.query_bookings(f1).len() && (#[trigger] db.query_bookings(f1)[k]).id
                == db.bookings[i1].id,
        exists|k: int|
            0 <= k < db.query_bookings(f1).len() && (#[trigger] db.query_bookings(f1)[k]).id
                == db.bookings[i2].id,
        exists|k: int|
            0 <= k < db.query_bookings(f2).len() && (#[trigger] db.query_bookings(f2)[k]).id
                == db.bookings[i1].id,
        forall|k: int|
            0 <= k < db.query_bookings(f2).len() ==> (#[trigger] db.query_bookings(f2)[k]).id
                != db.bookings[i2].id,
{
    lemma_query_returns(db, f1, i1);
    lemma_query_returns(db, f1, i2);
    lemma_query_returns(db, f2, i1);
    lemma_query_omits(db, f2, i2);
}

/// Upsert of participant content: after a committed save, every supplied
/// participant's row carries exactly the supplied content — store-wide,
/// whether or not the id existed before and whatever bookings share it.
pub proof fn lemma_save_booking_upserts_content(db: Db, b: BookingV, k: int)
    requires
        db.wf(),
        db.can_save_booking(b),
        0 <= k < b.participants.len(),
    ensures
        has_row(db.saved_booking(b).participants, b.participants[k].id),
        row_with(db.saved_booking(b).participants, b.participants[k].id) == row_of(
            b.participants[k],
        ),
{
    lemma_upsert_rows_effect(db.participants, b.participants);
}

/// Null waiver mapping: a participant with no waiver row maps to an
/// absent waiver reference, never to an error or a synthetic id.
pub proof fn lemma_missing_waiver_is_absent(db: Db, pid: ParticipantId)
    requires
        forall|i: int| 0 <= i < db.waivers.len() ==> (#[trigger] db.waivers[i]).participant != pid,
    ensures
        db.waiver_of(pid) is None,
        db.participant_value(pid).waiver is None,
{
    if exists|i: int| 0 <= i < db.waivers.len() && db.waivers[i].participant == pid {
        let i = choose|i: int| 0 <= i < db.waivers.len() && db.waivers[i].participant == pid;
        assert(false);
    }
}

} // verus!
