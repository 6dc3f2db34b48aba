//! The filter-query builder.
//!
//! A filtered read is a fixed select-and-join skeleton plus a predicate
//! that is the conjunction of exactly the filter fields present.  The
//! builder compiles a filter value into a structured predicate list —
//! one entry per present field, each carrying its bound value — which an
//! adapter renders as parameterized query text, never by pasting values
//! into the text.  The lemmas tie the list back to the model's matching
//! semantics: a row satisfies every predicate exactly when it passes the
//! filters.

use vstd::prelude::*;

use crate::booking::{BookingFilters, ParticipantId};
use crate::db::{header_matches, passes_filter, trip_matches, BookingHeader};
use crate::trip::{TripFilters, TripV};

verus! {

/// One predicate of a booking query: a column constrained to a bound id.
#[derive(Clone, Copy, Debug, PartialEq, Eq, Structural)]
pub enum BookingPredicate {
    /// The booking's customer column equals the bound id.
    CustomerIs(u128),
    /// The booking's trip column equals the bound id.
    TripIs(u128),
    /// The join row's participant column equals the bound id.
    ParticipantIs(u128),
}

/// The predicate list a booking filter compiles to: one entry per present
/// field, customer first, then trip, then participant.
pub open spec fn spec_booking_predicates(f: BookingFilters) -> Seq<BookingPredicate> {
    (match f.customer {
        Some(c) => seq![BookingPredicate::CustomerIs(c.0)],
        None => Seq::empty(),
    }) + (match f.trip {
        Some(t) => seq![BookingPredicate::TripIs(t.0)],
        None => Seq::empty(),
    }) + (match f.participant {
        Some(p) => seq![BookingPredicate::ParticipantIs(p.0)],
        None => Seq::empty(),
    })
}

/// Compiles a booking filter to its predicate list.
pub fn booking_predicates(f: &BookingFilters) -> (r: Vec<BookingPredicate>)
    ensures
        r@ == spec_booking_predicates(*f),
{
    let mut out: Vec<BookingPredicate> = Vec::new();
    if let Some(c) = f.customer {
        out.push(BookingPredicate::CustomerIs(c.0));
    }
    if let Some(t) = f.trip {
        out.push(BookingPredicate::TripIs(t.0));
    }
    if let Some(p) = f.participant {
        out.push(BookingPredicate::ParticipantIs(p.0));
    }
    proof {
        assert(out@ =~= spec_booking_predicates(*f));
    }
    out
}

/// Whether one row of the booking join — a header together with one
/// joined participant id — satisfies one predicate.
pub open spec fn booking_row_satisfies(
    h: BookingHeader,
    pid: ParticipantId,
    p: BookingPredicate,
) -> bool {
    match p {
        BookingPredicate::CustomerIs(c) => h.customer.0 == c,
        BookingPredicate::TripIs(t) => h.trip.0 == t,
        BookingPredicate::ParticipantIs(x) => pid.0 == x,
    }
}

/// The predicate list means the filters: a join row satisfies every
/// compiled predicate exactly when its header passes the customer and
/// trip filters and its participant passes the participant filter.
pub proof fn lemma_booking_predicates_mean_filters(
    f: BookingFilters,
    h: BookingHeader,
    pid: ParticipantId,
)
    ensures
        (forall|k: int|
            0 <= k < spec_booking_predicates(f).len() ==> booking_row_satisfies(
                h,
                pid,
                #[trigger] spec_booking_predicates(f)[k],
            )) <==> (header_matches(h, f) && passes_filter(pid, f.participant)),
{
    let ps = spec_booking_predicates(f);
    if forall|k: int|
        0 <= k < ps.len() ==> booking_row_satisfies(h, pid, #[trigger] ps[k]) {
        if f.customer is Some {
            assert(booking_row_satisfies(h, pid, ps[0]));
        }
        if f.trip is Some {
            let k = if f.customer is Some { 1int } else { 0int };
            assert(booking_row_satisfies(h, pid, ps[k]));
        }
        if f.participant is Some {
            let k = ps.len() - 1;
            assert(booking_row_satisfies(h, pid, ps[k]));
        }
    }
    if header_matches(h, f) && passes_filter(pid, f.participant) {
        assert forall|k: int|
            0 <= k < ps.len() implies booking_row_satisfies(h, pid, #[trigger] ps[k]) by {}
    }
}

/// One predicate of a trip query.
#[derive(Clone, Copy, Debug, PartialEq, Eq, Structural)]
pub enum TripPredicate {
    /// The trip's kind column equals the bound id.
    KindIs(u128),
    /// The trip's location column equals the bound id.
    LocationIs(u128),
    /// The trip's start instant lies in the bound closed range.
    StartsBetween(i64, i64),
}

/// The predicate list a trip filter compiles to: one entry per present
/// field, kind first, then location, then the date range.
pub open spec fn spec_trip_predicates(f: TripFilters) -> Seq<TripPredicate> {
    (match f.kind {
        Some(k) => seq![TripPredicate::KindIs(k.0)],
        None => Seq::empty(),
    }) + (match f.location {
        Some(l) => seq![TripPredicate::LocationIs(l.0)],
        None => Seq::empty(),
    }) + (match f.date_range {
        Some(r) => seq![TripPredicate::StartsBetween(r.0, r.1)],
        None => Seq::empty(),
    })
}

/// Compiles a trip filter to its predicate list.
pub fn trip_predicates(f: &TripFilters) -> (r: Vec<TripPredicate>)
    ensures
        r@ == spec_trip_predicates(*f),
{
    let mut out: Vec<TripPredicate> = Vec::new();
    if let Some(k) = f.kind {
        out.push(TripPredicate::KindIs(k.0));
    }
    if let Some(l) = f.location {
        out.push(TripPredicate::LocationIs(l.0));
    }
    if let Some(range) = f.date_range {
        out.push(TripPredicate::StartsBetween(range.0, range.1));
    }
    proof {
        assert(out@ =~= spec_trip_predicates(*f));
    }
    out
}

/// Whether one trip satisfies one predicate.
pub open spec fn trip_satisfies(t: TripV, p: TripPredicate) -> bool {
    match p {
        TripPredicate::KindIs(k) => t.kind.id.0 == k,
        TripPredicate::LocationIs(l) => t.location.0 == l,
        TripPredicate::StartsBetween(a, b) => a <= t.start_time <= b,
    }
}

/// The predicate list means the filters: a trip satisfies every compiled
/// predicate exactly when it passes the filters.
pub proof fn lemma_trip_predicates_mean_filters(f: TripFilters, t: TripV)
    ensures
        (forall|k: int|
            0 <= k < spec_trip_predicates(f).len() ==> trip_satisfies(
                t,
                #[trigger] spec_trip_predicates(f)[k],
            )) <==> trip_matches(t, f),
{
    let ps = spec_trip_predicates(f);
    if forall|k: int| 0 <= k < ps.len() ==> trip_satisfies(t, #[trigger] ps[k]) {
        if f.kind is Some {
            assert(trip_satisfies(t, ps[0]));
        }
        if f.location is Some {
            let k = if f.kind is Some { 1int } else { 0int };
            assert(trip_satisfies(t, ps[k]));
        }
        if f.date_range is Some {
            let k = ps.len() - 1;
            assert(trip_satisfies(t, ps[k]));
        }
    }
    if trip_matches(t, f) {
        assert forall|k: int|
            0 <= k < ps.len() implies trip_satisfies(t, #[trigger] ps[k]) by {}
    }
}

/// Relies on `String::push_str`: appends the given text to the end.
#[verifier::external_body]
fn append_str(s: &mut String, t: &str)
    ensures
        final(s)@ == old(s)@ + t@,
{
    s.push_str(t);
}

/// Relies on `String::push`: appends the given character to the end.
#[verifier::external_body]
fn append_char(s: &mut String, c: char)
    ensures
        final(s)@ == old(s)@ + seq![c],
{
    s.push(c);
}

/// The digit character of a placeholder number (a query binds at most
/// four values, so one digit is enough).
pub open spec fn placeholder_digit(n: int) -> char {
    if n == 1 {
        '1'
    } else if n == 2 {
        '2'
    } else if n == 3 {
        '3'
    } else {
        '4'
    }
}

/// The text of one booking predicate, binding placeholder `n`: only fixed
/// column text plus a placeholder — a bound value never reaches the text.
pub open spec fn booking_clause_text(p: BookingPredicate, n: int) -> Seq<char> {
    (match p {
        BookingPredicate::CustomerIs(_) => " AND customer_id = $"@,
        BookingPredicate::TripIs(_) => " AND trip_id = $"@,
        BookingPredicate::ParticipantIs(_) => " AND participant_id = $"@,
    }) + seq![placeholder_digit(n)]
}

/// The conjunction text of a booking predicate list, first placeholder `n`.
pub open spec fn booking_clauses_text(ps: Seq<BookingPredicate>, n: int) -> Seq<char>
    decreases ps.len(),
{
    if ps.len() == 0 {
        Seq::empty()
    } else {
        booking_clause_text(ps.first(), n) + booking_clauses_text(ps.drop_first(), n + 1)
    }
}

/// Scanning one predicate further appends its clause at the next
/// placeholder.
proof fn lemma_booking_clauses_snoc(ps: Seq<BookingPredicate>, k: int, n: int)
    requires
        0 <= k < ps.len(),
    ensures
        booking_clauses_text(ps.take(k + 1), n) == booking_clauses_text(ps.take(k), n)
            + booking_clause_text(ps[k], n + k),
    decreases k,
{
    if k == 0 {
        assert(ps.take(1).first() == ps[0]);
        assert(ps.take(1).drop_first() =~= Seq::<BookingPredicate>::empty());
        assert(ps.take(0) =~= Seq::<BookingPredicate>::empty());
        assert(booking_clauses_text(ps.take(1), n) == booking_clause_text(ps[0], n)
            + booking_clauses_text(Seq::empty(), n + 1));
        assert(booking_clause_text(ps[0], n) + Seq::<char>::empty() =~= booking_clause_text(
            ps[0],
            n,
        ));
        assert(booking_clauses_text(ps.take(0), n) + booking_clause_text(ps[0], n)
            =~= booking_clause_text(ps[0], n));
    } else {
        let psd = ps.drop_first();
        assert(ps.take(k + 1).first() == ps[0]);
        assert(ps.take(k).first() == ps[0]);
        assert(ps.take(k + 1).drop_first() =~= psd.take(k));
        assert(ps.take(k).drop_first() =~= psd.take(k - 1));
        lemma_booking_clauses_snoc(psd, k - 1, n + 1);
        assert(psd[k - 1] == ps[k]);
        assert(booking_clause_text(ps[0], n) + (booking_clauses_text(psd.take(k - 1), n + 1)
            + booking_clause_text(ps[k], n + k)) =~= (booking_clause_text(ps[0], n)
            + booking_clauses_text(psd.take(k - 1), n + 1)) + booking_clause_text(ps[k], n + k));
    }
}

/// Compiles a booking filter to the text of its WHERE conjunction, one
/// `$n` placeholder per present field in list order, values to be bound
/// separately — injection-safe by construction.
pub fn booking_where_clause(f: &BookingFilters) -> (r: String)
    ensures
        r@ == booking_clauses_text(spec_booking_predicates(*f), 1),
{
    let preds = booking_predicates(f);
    let n = preds.len();
    let mut out = String::new();
    let mut k: usize = 0;
    while k < n
        invariant
            preds@ == spec_booking_predicates(*f),
            n == preds@.len(),
            n <= 3,
            k <= n,
            out@ == booking_clauses_text(preds@.take(k as int), 1),
        decreases n - k,
    {
        match preds[k] {
            BookingPredicate::CustomerIs(_) => append_str(&mut out, " AND customer_id = $"),
            BookingPredicate::TripIs(_) => append_str(&mut out, " AND trip_id = $"),
            BookingPredicate::ParticipantIs(_) => append_str(&mut out, " AND participant_id = $"),
        }
        append_char(&mut out, digit_for(k + 1));
        proof {
            lemma_booking_clauses_snoc(preds@, k as int, 1);
            assert(out@ =~= booking_clauses_text(preds@.take(k as int + 1), 1));
        }
        k += 1;
    }
    proof {
        assert(preds@.take(n as int) =~= preds@);
    }
    out
}

/// The digit character of a placeholder number, as executable code.
fn digit_for(n: usize) -> (c: char)
    ensures
        c == placeholder_digit(n as int),
{
    if n == 1 {
        '1'
    } else if n == 2 {
        '2'
    } else if n == 3 {
        '3'
    } else {
        '4'
    }
}

/// How many values one trip predicate binds: a range binds both ends.
pub open spec fn trip_arity(p: TripPredicate) -> int {
    match p {
        TripPredicate::StartsBetween(_, _) => 2,
        _ => 1,
    }
}

/// The text of one trip predicate, first placeholder `n`.
pub open spec fn trip_clause_text(p: TripPredicate, n: int) -> Seq<char> {
    match p {
        TripPredicate::KindIs(_) => " AND trip_kind_id = $"@ + seq![placeholder_digit(n)],
        TripPredicate::LocationIs(_) => " AND location_id = $"@ + seq![placeholder_digit(n)],
        TripPredicate::StartsBetween(_, _) => " AND start_time BETWEEN $"@ + seq![
            placeholder_digit(n),
        ] + " AND $"@ + seq![placeholder_digit(n + 1)],
    }
}

/// The conjunction text of a trip predicate list, first placeholder `n`.
pub open spec fn trip_clauses_text(ps: Seq<TripPredicate>, n: int) -> Seq<char>
    decreases ps.len(),
{
    if ps.len() == 0 {
        Seq::empty()
    } else {
        trip_clause_text(ps.first(), n) + trip_clauses_text(
            ps.drop_first(),
            n + trip_arity(ps.first()),
        )
    }
}

/// How many values the first `k` trip predicates bind.
pub open spec fn trip_binds_before(ps: Seq<TripPredicate>, k: int) -> int
    decreases k,
{
    if k <= 0 {
        0
    } else {
        trip_binds_before(ps, k - 1) + trip_arity(ps[k - 1])
    }
}

/// Splitting the bind count at the first predicate.
proof fn lemma_trip_binds_split(ps: Seq<TripPredicate>, k: int)
    requires
        1 <= k <= ps.len(),
    ensures
        trip_binds_before(ps, k) == trip_arity(ps[0]) + trip_binds_before(ps.drop_first(), k - 1),
    decreases k,
{
    if k == 1 {
        assert(trip_binds_before(ps, 1) == trip_binds_before(ps, 0) + trip_arity(ps[0]));
        assert(trip_binds_before(ps, 0) == 0);
        assert(trip_binds_before(ps.drop_first(), 0) == 0);
    } else {
        lemma_trip_binds_split(ps, k - 1);
        assert(ps.drop_first()[k - 2] == ps[k - 1]);
        assert(trip_binds_before(ps, k) == trip_binds_before(ps, k - 1) + trip_arity(ps[k - 1]));
        assert(trip_binds_before(ps.drop_first(), k - 1) == trip_binds_before(
            ps.drop_first(),
            k - 2,
        ) + trip_arity(ps.drop_first()[k - 2]));
    }
}

/// Scanning one trip predicate further appends its clause at the next
/// free placeholder.
proof fn lemma_trip_clauses_snoc(ps: Seq<TripPredicate>, k: int, n: int)
    requires
        0 <= k < ps.len(),
    ensures
        trip_clauses_text(ps.take(k + 1), n) == trip_clauses_text(ps.take(k), n)
            + trip_clause_text(ps[k], n + trip_binds_before(ps, k)),
    decreases k,
{
    if k == 0 {
        assert(ps.take(1).first() == ps[0]);
        assert(ps.take(1).drop_first() =~= Seq::<TripPredicate>::empty());
        assert(ps.take(0) =~= Seq::<TripPredicate>::empty());
        assert(trip_clauses_text(ps.take(1), n) == trip_clause_text(ps[0], n)
            + trip_clauses_text(Seq::empty(), n + trip_arity(ps[0])));
        assert(trip_clause_text(ps[0], n) + Seq::<char>::empty() =~= trip_clause_text(ps[0], n));
        assert(trip_clauses_text(ps.take(0), n) + trip_clause_text(ps[0], n) =~= trip_clause_text(
            ps[0],
            n,
        ));
    } else {
        let psd = ps.drop_first();
        assert(ps.take(k + 1).first() == ps[0]);
        assert(ps.take(k).first() == ps[0]);
        assert(ps.take(k + 1).drop_first() =~= psd.take(k));
        assert(ps.take(k).drop_first() =~= psd.take(k - 1));
        lemma_trip_clauses_snoc(psd, k - 1, n + trip_arity(ps[0]));
        assert(psd[k - 1] == ps[k]);
        lemma_trip_binds_split(ps, k);
        assert(trip_clause_text(ps[0], n) + (trip_clauses_text(
            psd.take(k - 1),
            n + trip_arity(ps[0]),
        ) + trip_clause_text(ps[k], n + trip_binds_before(ps, k))) =~= (trip_clause_text(ps[0], n)
            + trip_clauses_text(psd.take(k - 1), n + trip_arity(ps[0]))) + trip_clause_text(
            ps[k],
            n + trip_binds_before(ps, k),
        ));
    }
}

/// Compiles a trip filter to the text of its WHERE conjunction, `$n`
/// placeholders numbered in bind order (the date range binds two), values
/// to be bound separately — injection-safe by construction.
pub fn trip_where_clause(f: &TripFilters) -> (r: String)
    ensures
        r@ == trip_clauses_text(spec_trip_predicates(*f), 1),
{
    let preds = trip_predicates(f);
    let n = preds.len();
    let mut out = String::new();
    let mut next: usize = 1;
    let mut k: usize = 0;
    while k < n
        invariant
            preds@ == spec_trip_predicates(*f),
            n == preds@.len(),
            n <= 3,
            k <= n,
            next == 1 + trip_binds_before(preds@, k as int),
            next <= 1 + 2 * k,
            out@ == trip_clauses_text(preds@.take(k as int), 1),
        decreases n - k,
    {
        proof {
            lemma_trip_clauses_snoc(preds@, k as int, 1);
        }
        match preds[k] {
            TripPredicate::KindIs(_) => {
                append_str(&mut out, " AND trip_kind_id = $");
                append_char(&mut out, digit_for(next));
                next += 1;
            },
            TripPredicate::LocationIs(_) => {
                append_str(&mut out, " AND location_id = $");
                append_char(&mut out, digit_for(next));
                next += 1;
            },
            TripPredicate::StartsBetween(_, _) => {
                append_str(&mut out, " AND start_time BETWEEN $");
                append_char(&mut out, digit_for(next));
                append_str(&mut out, " AND $");
                append_char(&mut out, digit_for(next + 1));
                next += 2;
            },
        }
        proof {
            assert(out@ =~= trip_clauses_text(preds@.take(k as int + 1), 1));
        }
        k += 1;
    }
    proof {
        assert(preds@.take(n as int) =~= preds@);
    }
    out
}

} // verus!
