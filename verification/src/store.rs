//! An in-memory implementation of the repository contract.
//!
//! The store realises the same operations the relational adapter offers,
//! against the model [`Db`], and every operation is proved to effect
//! exactly the state change the model defines.  It is the natural
//! substitute for the relational adapter in tests, and the reference
//! semantics the adapter is written against.

use vstd::prelude::*;

use crate::booking::{Booking, BookingError, BookingFilters, BookingId, Participant, ParticipantId};
use crate::customer::{
    opt_customer_view, Customer, CustomerError, CustomerId, CustomerName, EmailAddress,
    PhoneNumber,
};
use crate::db::{
    has_row, lemma_take_step, lemma_without_customer_push, lemma_without_customer_rows,
    BookingHeader, Db, MembershipRow, ParticipantRow, RentalRow, WaiverRow,
};
use crate::equipment::{BookingRentals, EquipmentError};
use crate::trip::{Trip, TripError, TripFilters, TripId};
use crate::waiver::WaiverId;

verus! {

/// The in-memory store: one vector per table of the schema.
pub struct MemoryStore {
    bookings: Vec<BookingHeader>,
    participants: Vec<ParticipantRow>,
    memberships: Vec<MembershipRow>,
    waivers: Vec<WaiverRow>,
    customers: Vec<Customer>,
    trips: Vec<Trip>,
    rentals: Vec<RentalRow>,
}

impl MemoryStore {
    /// The relational state this store holds, as the model sees it.
    pub closed spec fn db(&self) -> Db {
        Db {
            bookings: self.bookings@,
            participants: self.participants@.map_values(|r: ParticipantRow| r@),
            memberships: self.memberships@,
            waivers: self.waivers@,
            customers: self.customers@.map_values(|c: Customer| c@),
            trips: self.trips@.map_values(|t: Trip| t@),
            rentals: self.rentals@,
        }
    }

    /// The store's invariant: its state is a well-formed [`Db`].
    pub open spec fn wf(&self) -> bool {
        self.db().wf()
    }

    /// An empty store.
    pub fn new() -> (s: MemoryStore)
        ensures
            s.wf(),
            s.db() == Db::empty(),
    {
        let s = MemoryStore {
            bookings: Vec::new(),
            participants: Vec::new(),
            memberships: Vec::new(),
            waivers: Vec::new(),
            customers: Vec::new(),
            trips: Vec::new(),
            rentals: Vec::new(),
        };
        proof {
            assert(s.db() =~= Db::empty());
        }
        s
    }

    /// Gets a customer by id if it exists; absence is a value, not an
    /// error.
    pub fn find_customer(&self, id: CustomerId) -> (r: Result<Option<Customer>, CustomerError>)
        requires
            self.wf(),
        ensures
            r matches Ok(o) && opt_customer_view(o) == self.db().lookup_customer(id),
    {
        let n = self.customers.len();
        let mut i: usize = 0;
        while i < n
            invariant
                self.wf(),
                n == self.customers@.len(),
                i <= n,
                forall|j: int| 0 <= j < i ==> self.db().customers[j].id != id,
            decreases n - i,
        {
            if self.customers[i].id == id {
                let c = &self.customers[i];
                let out = Customer {
                    id: c.id,
                    name: CustomerName(c.name.0.clone()),
                    email: EmailAddress(c.email.0.clone()),
                    phone: PhoneNumber(c.phone.0.clone()),
                };
                proof {
                    assert(self.db().customers[i as int].id == id);
                    assert(self.db().has_customer(id));
                    let w = choose|w: int|
                        0 <= w < self.db().customers.len() && self.db().customers[w].id == id;
                    assert(w == i as int);
                    assert(out@ == self.db().customer_of(id));
                }
                return Ok(Some(out));
            }
            i += 1;
        }
        proof {
            if self.db().has_customer(id) {
                let w = choose|w: int|
                    0 <= w < self.db().customers.len() && self.db().customers[w].id == id;
                assert(false);
            }
        }
        Ok(None)
    }

    /// Inserts a new customer.  The id must be free and the email address
    /// unused; a taken id is a conflict, a taken email address is reported
    /// with the address.  On failure nothing changes.
    pub fn save_customer(&mut self, customer: &Customer) -> (r: Result<(), CustomerError>)
        requires
            old(self).wf(),
        ensures
            final(self).wf(),
            old(self).db().can_save_customer(customer@) ==> r == Ok::<(), CustomerError>(())
                && final(self).db() == old(self).db().saved_customer(customer@),
            old(self).db().has_customer(customer@.id) ==> r == Err::<(), CustomerError>(
                CustomerError::Conflict,
            ) && final(self).db() == old(self).db(),
            !old(self).db().has_customer(customer@.id) && old(self).db().email_taken(
                customer@.email,
                customer@.id,
            ) ==> (r matches Err(e) && e matches CustomerError::EmailTaken(t) && t@
                == customer@.email) && final(self).db() == old(self).db(),
    {
        let n = self.customers.len();
        let mut i: usize = 0;
        while i < n
            invariant
                old(self).wf(),
                *self == *old(self),
                n == self.customers@.len(),
                i <= n,
                forall|j: int| 0 <= j < i ==> self.db().customers[j].id != customer@.id,
            decreases n - i,
        {
            if self.customers[i].id == customer.id {
                proof {
                    assert(self.db().customers[i as int].id == customer@.id);
                }
                return Err(CustomerError::Conflict);
            }
            i += 1;
        }
        proof {
            if self.db().has_customer(customer@.id) {
                let w = choose|w: int|
                    0 <= w < self.db().customers.len() && self.db().customers[w].id
                        == customer@.id;
                assert(false);
            }
        }
        let mut i: usize = 0;
        while i < n
            invariant
                old(self).wf(),
                *self == *old(self),
                !old(self).db().has_customer(customer@.id),
                n == self.customers@.len(),
                i <= n,
                forall|j: int| 0 <= j < i ==> self.db().customers[j].email != customer@.email,
            decreases n - i,
        {
            if self.customers[i].email.0 == customer.email.0 {
                proof {
                    assert(self.db().customers[i as int].email == customer@.email);
                    assert(self.db().customers[i as int].id != customer@.id);
                }
                return Err(CustomerError::EmailTaken(customer.email.0.clone()));
            }
            i += 1;
        }
        proof {
            if self.db().email_taken(customer@.email, customer@.id) {
                let w = choose|w: int|
                    0 <= w < self.db().customers.len() && self.db().customers[w].email
                        == customer@.email && self.db().customers[w].id != customer@.id;
                assert(false);
            }
        }
        let copy = Customer {
            id: customer.id,
            name: CustomerName(customer.name.0.clone()),
            email: EmailAddress(customer.email.0.clone()),
            phone: PhoneNumber(customer.phone.0.clone()),
        };
        proof {
            assert(copy@ == customer@);
        }
        self.customers.push(copy);
        proof {
            assert(self.db().customers =~= old(self).db().customers.push(customer@));
            assert(self.db() =~= old(self).db().saved_customer(customer@));
            let d1 = self.db();
            let d0 = old(self).db();
            assert forall|a: int, b: int|
                0 <= a < b < d1.customers.len() implies d1.customers[a].id != d1.customers[b].id
                && d1.customers[a].email != d1.customers[b].email by {
                if b == d1.customers.len() - 1 {
                    assert(d1.customers[a] == d0.customers[a]);
                } else {
                    assert(d1.customers[a] == d0.customers[a]);
                    assert(d1.customers[b] == d0.customers[b]);
                }
            }
            assert(d1.customers_ok());
            crate::db::lemma_wf_customers_changed(d0, d1);
        }
        Ok(())
    }

    /// Deletes a customer by id; deleting an absent id succeeds with no
    /// effect.  Bookings are not cascaded.
    pub fn delete_customer(&mut self, id: CustomerId) -> (r: Result<(), CustomerError>)
        requires
            old(self).wf(),
        ensures
            final(self).wf(),
            r == Ok::<(), CustomerError>(()),
            final(self).db() == old(self).db().deleted_customer(id),
    {
        let ghost d0 = self.db();
        let n = self.customers.len();
        let mut kept: Vec<Customer> = Vec::new();
        let mut i: usize = 0;
        while i < n
            invariant
                old(self).wf(),
                *self == *old(self),
                d0 == self.db(),
                n == self.customers@.len(),
                i <= n,
                kept@.map_values(|c: Customer| c@) == Db::without_customer(
                    d0.customers.take(i as int),
                    id,
                ),
            decreases n - i,
        {
            proof {
                lemma_take_step(d0.customers, i as int);
                lemma_without_customer_push(
                    d0.customers.take(i as int),
                    d0.customers[i as int],
                    id,
                );
            }
            let c = &self.customers[i];
            if c.id == id {
            } else {
                let copy = Customer {
                    id: c.id,
                    name: CustomerName(c.name.0.clone()),
                    email: EmailAddress(c.email.0.clone()),
                    phone: PhoneNumber(c.phone.0.clone()),
                };
                kept.push(copy);
                proof {
                    assert(copy@ == d0.customers[i as int]);
                    assert(kept@.map_values(|c: Customer| c@) =~= Db::without_customer(
                        d0.customers.take(i as int),
                        id,
                    ).push(d0.customers[i as int]));
                }
            }
            i += 1;
        }
        proof {
            assert(d0.customers.take(n as int) =~= d0.customers);
        }
        self.customers = kept;
        proof {
            assert(self.db() =~= d0.deleted_customer(id));
            lemma_without_customer_rows(d0.customers, id);
            assert(self.db().customers_ok());
            crate::db::lemma_wf_customers_changed(d0, self.db());
        }
        Ok(())
    }
    /// Reconstructs the participant aggregate for one id: row content plus
    /// the optional waiver reference (a participant with no waiver row gets
    /// an absent reference, never an error).
    fn make_participant(&self, pid: ParticipantId) -> (p: Participant)
        requires
            self.wf(),
            has_row(self.db().participants, pid),
        ensures
            p@ == self.db().participant_value(pid),
    {
        let n = self.participants.len();
        let mut i: usize = 0;
        while i < n
            invariant
                self.wf(),
                has_row(self.db().participants, pid),
                n == self.participants@.len(),
                i <= n,
                forall|j: int| 0 <= j < i ==> self.db().participants[j].id != pid,
            decreases n - i,
        {
            if self.participants[i].id == pid {
                let row = &self.participants[i];
                let mut waiver: Option<WaiverId> = None;
                let m = self.waivers.len();
                let mut j: usize = 0;
                while j < m
                    invariant
                        self.wf(),
                        m == self.waivers@.len(),
                        j <= m,
                        match waiver {
                            None => forall|t: int|
                                0 <= t < j ==> self.db().waivers[t].participant != pid,
                            Some(w) => exists|t: int|
                                0 <= t < j && self.db().waivers[t].participant == pid
                                    && self.db().waivers[t].waiver == w,
                        },
                    decreases m - j,
                {
                    if waiver.is_none() && self.waivers[j].participant == pid {
                        waiver = Some(self.waivers[j].waiver);
                        proof {
                            assert(self.db().waivers[j as int].participant == pid);
                        }
                    }
                    j += 1;
                }
                proof {
                    match waiver {
                        None => {
                            if exists|t: int|
                                0 <= t < self.db().waivers.len()
                                    && self.db().waivers[t].participant == pid {
                                let t = choose|t: int|
                                    0 <= t < self.db().waivers.len()
                                        && self.db().waivers[t].participant == pid;
                                assert(false);
                            }
                            assert(self.db().waiver_of(pid) is None);
                        },
                        Some(w) => {
                            let t = choose|t: int|
                                0 <= t < m && self.db().waivers[t].participant == pid
                                    && self.db().waivers[t].waiver == w;
                            assert(self.db().waivers[t].participant == pid);
                            let c = choose|c: int|
                                0 <= c < self.db().waivers.len()
                                    && self.db().waivers[c].participant == pid;
                            assert(c == t);
                            assert(self.db().waiver_of(pid) == Some(w));
                        },
                    }
                }
                let p = Participant {
                    id: pid,
                    name: row.name.clone(),
                    dob: row.dob,
                    notes: row.notes.clone(),
                    waiver,
                };
                proof {
                    assert(self.db().participants[i as int].id == pid);
                    let c = choose|c: int|
                        0 <= c < self.db().participants.len() && self.db().participants[c].id
                            == pid;
                    assert(c == i as int);
                    assert(crate::db::row_with(self.db().participants, pid)
                        == self.db().participants[i as int]);
                    assert(p@ =~= self.db().participant_value(pid));
                }
                return p;
            }
            i += 1;
        }
        proof {
            let w = choose|w: int|
                0 <= w < self.db().participants.len() && self.db().participants[w].id == pid;
            assert(false);
        }
        vstd::pervasive::unreached()
    }

    /// The booking header with this id.
    fn header_by_id(&self, id: BookingId) -> (h: BookingHeader)
        requires
            self.wf(),
            self.db().has_booking(id),
        ensures
            h == crate::db::header_with(self.db().bookings, id),
            h.id == id,
    {
        let n = self.bookings.len();
        let mut i: usize = 0;
        while i < n
            invariant
                self.wf(),
                self.db().has_booking(id),
                n == self.bookings@.len(),
                i <= n,
                forall|j: int| 0 <= j < i ==> self.db().bookings[j].id != id,
            decreases n - i,
        {
            if self.bookings[i].id == id {
                proof {
                    let c = choose|c: int|
                        0 <= c < self.db().bookings.len() && self.db().bookings[c].id == id;
                    if c != i as int {
                        assert(crate::db::header_key()(self.db().bookings[c])
                            != crate::db::header_key()(self.db().bookings[i as int]));
                        assert(false);
                    }
                }
                return self.bookings[i];
            }
            i += 1;
        }
        proof {
            let w = choose|w: int|
                0 <= w < self.db().bookings.len() && self.db().bookings[w].id == id;
            assert(false);
        }
        vstd::pervasive::unreached()
    }

    /// Collects the participants joined to booking `b`, in join-table
    /// order, keeping those that pass the optional participant filter.
    fn collect_members(&self, b: BookingId, pf: Option<ParticipantId>) -> (ps: Vec<Participant>)
        requires
            self.wf(),
        ensures
            ps@.map_values(|p: Participant| p@) == crate::db::member_pids(
                self.db().memberships,
                b,
                pf,
            ).map_values(|pid: ParticipantId| self.db().participant_value(pid)),
    {
        let n = self.memberships.len();
        let mut out: Vec<Participant> = Vec::new();
        let mut i: usize = 0;
        while i < n
            invariant
                self.wf(),
                n == self.memberships@.len(),
                i <= n,
                out@.map_values(|p: Participant| p@) == crate::db::member_pids(
                    self.db().memberships.take(i as int),
                    b,
                    pf,
                ).map_values(|pid: ParticipantId| self.db().participant_value(pid)),
            decreases n - i,
        {
            proof {
                lemma_take_step(self.db().memberships, i as int);
                crate::db::lemma_member_pids_push(
                    self.db().memberships.take(i as int),
                    self.db().memberships[i as int],
                    b,
                    pf,
                );
            }
            let m = self.memberships[i];
            let keep = m.booking == b && (match pf {
                Some(p) => m.participant == p,
                None => true,
            });
            if keep {
                proof {
                    assert(self.db().memberships[i as int] == m);
                    assert(self.db().has_participant(m.participant));
                }
                let p = self.make_participant(m.participant);
                out.push(p);
                proof {
                    assert(out@.map_values(|q: Participant| q@) =~= crate::db::member_pids(
                        self.db().memberships.take(i as int),
                        b,
                        pf,
                    ).map_values(|pid: ParticipantId| self.db().participant_value(pid)).push(
                        self.db().participant_value(m.participant),
                    ));
                    assert(crate::db::member_pids(
                        self.db().memberships.take(i as int + 1),
                        b,
                        pf,
                    ).map_values(|pid: ParticipantId| self.db().participant_value(pid))
                        =~= crate::db::member_pids(
                        self.db().memberships.take(i as int),
                        b,
                        pf,
                    ).map_values(|pid: ParticipantId| self.db().participant_value(pid)).push(
                        self.db().participant_value(m.participant),
                    ));
                }
            }
            i += 1;
        }
        proof {
            assert(self.db().memberships.take(n as int) =~= self.db().memberships);
        }
        out
    }

    /// Gets a booking by id if it exists: its header references and its
    /// participant sequence in join-table order.  A booking is read
    /// through an inner join, so one without members yields nothing.
    pub fn find_booking(&self, id: BookingId) -> (r: Result<Option<Booking>, BookingError>)
        requires
            self.wf(),
        ensures
            r matches Ok(o) && crate::booking::opt_booking_view(o) == self.db().lookup_booking(
                id,
            ),
    {
        let members = self.collect_members(id, None);
        let ghost pids = crate::db::member_pids(self.db().memberships, id, None);
        if members.len() == 0 {
            proof {
                assert(members@.map_values(|p: Participant| p@).len() == 0);
                assert(pids.map_values(
                    |pid: ParticipantId| self.db().participant_value(pid),
                ).len() == 0);
                assert(pids.len() == 0);
            }
            return Ok(None);
        }
        proof {
            assert(members@.map_values(|p: Participant| p@).len() == members@.len());
            assert(pids.len() > 0);
            crate::db::lemma_member_pids_sourced(self.db().memberships, id, None);
            assert(exists|w: int|
                0 <= w < self.db().memberships.len() && self.db().memberships[w].booking == id
                    && self.db().memberships[w].participant == pids[0]);
            let w = choose|w: int|
                0 <= w < self.db().memberships.len() && self.db().memberships[w].booking == id
                    && self.db().memberships[w].participant == pids[0];
            assert(self.db().has_booking(self.db().memberships[w].booking));
        }
        let h = self.header_by_id(id);
        let out = Booking { id, customer: h.customer, trip: h.trip, participants: members };
        proof {
            assert(out@ =~= self.db().assembled_booking(self.db().header_of(id), None));
        }
        Ok(Some(out))
    }

    /// Gets the bookings matching the conjunction of the present filters,
    /// in ascending id order.  The participant filter narrows both which
    /// bookings are returned and which join rows each carries.  With every
    /// filter absent the result is empty.
    pub fn find_bookings(&self, filters: &BookingFilters) -> (r: Result<Vec<Booking>, BookingError>)
        requires
            self.wf(),
        ensures
            r matches Ok(bs) && crate::booking::seq_booking_view(bs@) == self.db().query_bookings(
                *filters,
            ),
    {
        if filters.is_empty() {
            let out: Vec<Booking> = Vec::new();
            proof {
                assert(crate::booking::seq_booking_view(out@) =~= Seq::<
                    crate::booking::BookingV,
                >::empty());
            }
            return Ok(out);
        }
        let n = self.bookings.len();
        let mut out: Vec<Booking> = Vec::new();
        let mut i: usize = 0;
        while i < n
            invariant
                self.wf(),
                !filters.spec_is_empty(),
                n == self.bookings@.len(),
                i <= n,
                crate::booking::seq_booking_view(out@) == self.db().selected_bookings(
                    self.db().bookings.take(i as int),
                    *filters,
                ),
            decreases n - i,
        {
            proof {
                lemma_take_step(self.db().bookings, i as int);
                crate::db::lemma_selected_bookings_push(
                    self.db(),
                    self.db().bookings.take(i as int),
                    self.db().bookings[i as int],
                    *filters,
                );
            }
            let h = self.bookings[i];
            let m1 = match filters.customer {
                Some(c) => h.customer == c,
                None => true,
            };
            let m2 = match filters.trip {
                Some(t) => h.trip == t,
                None => true,
            };
            if m1 && m2 {
                let members = self.collect_members(h.id, filters.participant);
                let ghost pids = crate::db::member_pids(
                    self.db().memberships,
                    h.id,
                    filters.participant,
                );
                if members.len() > 0 {
                    proof {
                        assert(members@.map_values(|p: Participant| p@).len() == members@.len());
                        assert(pids.len() > 0);
                        assert(crate::db::header_matches(
                            self.db().bookings[i as int],
                            *filters,
                        ));
                    }
                    let bk = Booking {
                        id: h.id,
                        customer: h.customer,
                        trip: h.trip,
                        participants: members,
                    };
                    out.push(bk);
                    proof {
                        assert(bk@ =~= self.db().assembled_booking(
                            self.db().bookings[i as int],
                            filters.participant,
                        ));
                        assert(crate::booking::seq_booking_view(out@)
                            =~= self.db().selected_bookings(
                            self.db().bookings.take(i as int),
                            *filters,
                        ).push(
                            self.db().assembled_booking(
                                self.db().bookings[i as int],
                                filters.participant,
                            ),
                        ));
                    }
                } else {
                    proof {
                        assert(members@.map_values(|p: Participant| p@).len() == 0);
                        assert(pids.len() == 0);
                    }
                }
            } else {
                proof {
                    assert(!crate::db::header_matches(self.db().bookings[i as int], *filters));
                }
            }
            i += 1;
        }
        proof {
            assert(self.db().bookings.take(n as int) =~= self.db().bookings);
        }
        Ok(out)
    }

    /// One step of the participant upsert: overwrite the row carrying this
    /// participant's id, or append one.  Touches no other table.
    fn upsert_participant_row(&mut self, p: &Participant)
        requires
            old(self).db().participants_ok(),
        ensures
            final(self).db().participants == crate::db::upsert_one(
                old(self).db().participants,
                crate::db::row_of(p@),
            ),
            final(self).db().bookings == old(self).db().bookings,
            final(self).db().memberships == old(self).db().memberships,
            final(self).db().waivers == old(self).db().waivers,
            final(self).db().customers == old(self).db().customers,
            final(self).db().trips == old(self).db().trips,
            final(self).db().rentals == old(self).db().rentals,
    {
        let ghost cur = self.db().participants;
        let row = ParticipantRow {
            id: p.id,
            name: p.name.clone(),
            dob: p.dob,
            notes: p.notes.clone(),
        };
        proof {
            assert(row@ =~= crate::db::row_of(p@));
        }
        let n = self.participants.len();
        let mut j: usize = 0;
        while j < n
            invariant
                old(self).db().participants_ok(),
                *self == *old(self),
                cur == self.db().participants,
                n == self.participants@.len(),
                j <= n,
                row@ == crate::db::row_of(p@),
                forall|t: int| 0 <= t < j ==> self.db().participants[t].id != p@.id,
            decreases n - j,
        {
            if self.participants[j].id == p.id {
                proof {
                    assert(cur[j as int].id == p@.id);
                    assert(crate::db::has_row(cur, p@.id));
                }
                self.participants.remove(j);
                self.participants.insert(j, row);
                proof {
                    assert(self.db().participants =~= cur.update(j as int, row@));
                    let c = choose|c: int| 0 <= c < cur.len() && cur[c].id == row@.id;
                    assert(cur[c].id == p@.id);
                    assert(c == j as int);
                    assert(crate::db::upsert_one(cur, crate::db::row_of(p@)) == cur.update(
                        j as int,
                        row@,
                    ));
                }
                return;
            }
            j += 1;
        }
        proof {
            if exists|c: int| 0 <= c < cur.len() && cur[c].id == row@.id {
                let c = choose|c: int| 0 <= c < cur.len() && cur[c].id == row@.id;
                assert(false);
            }
        }
        self.participants.push(row);
        proof {
            assert(self.db().participants =~= cur.push(row@));
            assert(crate::db::upsert_one(cur, crate::db::row_of(p@)) == cur.push(row@));
        }
    }

    /// Saves a booking and its participants, atomically: insert the header
    /// (an existing id is a conflict — headers are never updated), upsert
    /// every participant's content by id, clear the booking's join rows,
    /// and re-attach the supplied participants in their order.  A
    /// participant sequence repeating an id would violate the join table's
    /// key and is a conflict.  On any failure nothing changes.
    pub fn save_booking(&mut self, booking: &Booking) -> (r: Result<(), BookingError>)
        requires
            old(self).wf(),
        ensures
            final(self).wf(),
            old(self).db().can_save_booking(booking@) ==> r == Ok::<(), BookingError>(())
                && final(self).db() == old(self).db().saved_booking(booking@),
            !old(self).db().can_save_booking(booking@) ==> r == Err::<(), BookingError>(
                BookingError::Conflict,
            ) && final(self).db() == old(self).db(),
    {
        let ghost d0 = self.db();
        let ghost bv = booking@;
        // step 1 would fail on a taken id: find the header's slot first
        let n = self.bookings.len();
        let mut pos: usize = 0;
        while pos < n && self.bookings[pos].id.0 < booking.id.0
            invariant
                old(self).wf(),
                *self == *old(self),
                d0 == self.db(),
                bv == booking@,
                n == self.bookings@.len(),
                pos <= n,
                forall|j: int| 0 <= j < pos ==> (#[trigger] d0.bookings[j]).id.0 < bv.id.0,
            decreases n - pos,
        {
            pos += 1;
        }
        if pos < n && self.bookings[pos].id.0 == booking.id.0 {
            proof {
                assert(d0.bookings[pos as int].id == bv.id);
                assert(d0.has_booking(bv.id));
            }
            return Err(BookingError::Conflict);
        }
        proof {
            assert forall|j: int|
                0 <= j < d0.bookings.len() implies crate::db::header_key()(
                #[trigger] d0.bookings[j],
            ) != bv.id.0 by {
                if j < pos {
                } else if j == pos {
                } else {
                    assert(crate::db::header_key()(d0.bookings[pos as int])
                        < crate::db::header_key()(d0.bookings[j]));
                }
            }
            if d0.has_booking(bv.id) {
                let w = choose|w: int| 0 <= w < d0.bookings.len() && d0.bookings[w].id == bv.id;
                assert(crate::db::header_key()(d0.bookings[w]) == bv.id.0);
                assert(false);
            }
            crate::sorted::lemma_pos_of_is_scan(
                d0.bookings,
                crate::db::header_key(),
                bv.id.0,
                pos as int,
            );
        }
        // a participant sequence that repeats an id would fail step 4
        let m = booking.participants.len();
        let mut i: usize = 0;
        while i < m
            invariant
                old(self).wf(),
                *self == *old(self),
                d0 == self.db(),
                bv == booking@,
                m == booking.participants@.len(),
                i <= m,
                forall|x: int, y: int|
                    0 <= x < y < m && x < i ==> bv.participants[x].id != bv.participants[y].id,
            decreases m - i,
        {
            let mut j: usize = i + 1;
            while j < m
                invariant
                    old(self).wf(),
                    *self == *old(self),
                    d0 == self.db(),
                    bv == booking@,
                    m == booking.participants@.len(),
                    i < j <= m,
                    forall|x: int, y: int|
                        0 <= x < y < m && x < i ==> bv.participants[x].id != bv.participants[y].id,
                    forall|y: int|
                        i < y < j ==> bv.participants[i as int].id != bv.participants[y].id,
                decreases m - j,
            {
                if booking.participants[i].id == booking.participants[j].id {
                    proof {
                        assert(bv.participants[i as int].id == bv.participants[j as int].id);
                        assert(!crate::db::distinct_pids(bv.participants));
                    }
                    return Err(BookingError::Conflict);
                }
                j += 1;
            }
            i += 1;
        }
        proof {
            assert(crate::db::distinct_pids(bv.participants));
            assert(d0.can_save_booking(bv));
        }
        // step 1: insert the header at its slot in the id-sorted table
        let h = BookingHeader { id: booking.id, customer: booking.customer, trip: booking.trip };
        self.bookings.insert(pos, h);
        proof {
            assert(self.db().bookings == d0.bookings.insert(
                crate::db::insert_pos(d0.bookings, bv.id),
                h,
            ));
        }
        // step 2: upsert every participant's content, first to last
        let mut k: usize = 0;
        while k < m
            invariant
                d0.wf(),
                crate::db::distinct_pids(bv.participants),
                m == booking.participants@.len(),
                bv == booking@,
                k <= m,
                self.db().bookings == d0.bookings.insert(
                    crate::db::insert_pos(d0.bookings, bv.id),
                    (BookingHeader { id: bv.id, customer: bv.customer, trip: bv.trip }),
                ),
                self.db().participants == crate::db::upsert_rows(
                    d0.participants,
                    bv.participants.take(k as int),
                ),
                self.db().memberships == d0.memberships,
                self.db().waivers == d0.waivers,
                self.db().customers == d0.customers,
                self.db().trips == d0.trips,
                self.db().rentals == d0.rentals,
            decreases m - k,
        {
            proof {
                assert forall|x: int, y: int|
                    0 <= x < y < bv.participants.take(k as int).len() implies bv.participants.take(
                    k as int,
                )[x].id != bv.participants.take(k as int)[y].id by {
                    assert(bv.participants.take(k as int)[x] == bv.participants[x]);
                    assert(bv.participants.take(k as int)[y] == bv.participants[y]);
                }
                crate::db::lemma_upsert_rows_effect(
                    d0.participants,
                    bv.participants.take(k as int),
                );
                assert(self.db().participants_ok());
            }
            let p = &booking.participants[k];
            self.upsert_participant_row(p);
            proof {
                lemma_take_step(bv.participants, k as int);
                assert(bv.participants.take(k as int + 1).drop_last() =~= bv.participants.take(
                    k as int,
                ));
                assert(bv.participants.take(k as int + 1).last() == bv.participants[k as int]);
                assert(p@ == bv.participants[k as int]);
                assert(crate::db::upsert_rows(d0.participants, bv.participants.take(k as int + 1))
                    == crate::db::upsert_one(
                    crate::db::upsert_rows(d0.participants, bv.participants.take(k as int)),
                    crate::db::row_of(bv.participants[k as int]),
                ));
            }
            k += 1;
        }
        proof {
            assert(bv.participants.take(m as int) =~= bv.participants);
        }
        // step 3: clear the booking's join rows
        let ghost ms0 = d0.memberships;
        let mn = self.memberships.len();
        let mut kept: Vec<MembershipRow> = Vec::new();
        let mut i: usize = 0;
        while i < mn
            invariant
                bv == booking@,
                mn == self.memberships@.len(),
                self.memberships@ == ms0,
                i <= mn,
                kept@ == crate::db::without_booking(ms0.take(i as int), bv.id),
                self.db().bookings == d0.bookings.insert(
                    crate::db::insert_pos(d0.bookings, bv.id),
                    (BookingHeader { id: bv.id, customer: bv.customer, trip: bv.trip }),
                ),
                self.db().participants == crate::db::upsert_rows(d0.participants, bv.participants),
                self.db().waivers == d0.waivers,
                self.db().customers == d0.customers,
                self.db().trips == d0.trips,
                self.db().rentals == d0.rentals,
            decreases mn - i,
        {
            proof {
                lemma_take_step(ms0, i as int);
                crate::db::lemma_without_booking_push(ms0.take(i as int), ms0[i as int], bv.id);
            }
            let row = self.memberships[i];
            if row.booking == booking.id {
            } else {
                kept.push(row);
            }
            i += 1;
        }
        proof {
            assert(ms0.take(mn as int) =~= ms0);
        }
        self.memberships = kept;
        // step 4: re-attach the supplied participants in their order
        let mut k: usize = 0;
        while k < m
            invariant
                m == booking.participants@.len(),
                bv == booking@,
                k <= m,
                self.memberships@ == crate::db::without_booking(ms0, bv.id) + crate::db::joined(
                    bv.id,
                    bv.participants.take(k as int),
                ),
                self.db().bookings == d0.bookings.insert(
                    crate::db::insert_pos(d0.bookings, bv.id),
                    (BookingHeader { id: bv.id, customer: bv.customer, trip: bv.trip }),
                ),
                self.db().participants == crate::db::upsert_rows(d0.participants, bv.participants),
                self.db().waivers == d0.waivers,
                self.db().customers == d0.customers,
                self.db().trips == d0.trips,
                self.db().rentals == d0.rentals,
            decreases m - k,
        {
            let pid = booking.participants[k].id;
            self.memberships.push(MembershipRow { booking: booking.id, participant: pid });
            proof {
                lemma_take_step(bv.participants, k as int);
                assert(self.memberships@ =~= crate::db::without_booking(ms0, bv.id)
                    + crate::db::joined(bv.id, bv.participants.take(k as int + 1)));
            }
            k += 1;
        }
        proof {
            assert(bv.participants.take(m as int) =~= bv.participants);
            assert(self.db() =~= d0.saved_booking(bv));
            crate::db::lemma_saved_booking_wf(d0, bv);
        }
        Ok(())
    }

    /// Deletes a booking, atomically: remove its join rows, then its
    /// header.  Participant rows are kept — they persist as their own
    /// entity.  Deleting an absent id succeeds with no effect.
    pub fn delete_booking(&mut self, id: BookingId) -> (r: Result<(), BookingError>)
        requires
            old(self).wf(),
        ensures
            final(self).wf(),
            r == Ok::<(), BookingError>(()),
            final(self).db() == old(self).db().deleted_booking(id),
    {
        let ghost d0 = self.db();
        let mn = self.memberships.len();
        let mut kept_ms: Vec<MembershipRow> = Vec::new();
        let mut i: usize = 0;
        while i < mn
            invariant
                old(self).wf(),
                *self == *old(self),
                d0 == self.db(),
                mn == self.memberships@.len(),
                i <= mn,
                kept_ms@ == crate::db::without_booking(d0.memberships.take(i as int), id),
            decreases mn - i,
        {
            proof {
                lemma_take_step(d0.memberships, i as int);
                crate::db::lemma_without_booking_push(
                    d0.memberships.take(i as int),
                    d0.memberships[i as int],
                    id,
                );
            }
            let row = self.memberships[i];
            if row.booking == id {
            } else {
                kept_ms.push(row);
            }
            i += 1;
        }
        proof {
            assert(d0.memberships.take(mn as int) =~= d0.memberships);
        }
        let bn = self.bookings.len();
        let mut kept_h: Vec<BookingHeader> = Vec::new();
        let mut j: usize = 0;
        while j < bn
            invariant
                old(self).wf(),
                *self == *old(self),
                d0 == self.db(),
                bn == self.bookings@.len(),
                j <= bn,
                kept_h@ == crate::db::without_header(d0.bookings.take(j as int), id),
            decreases bn - j,
        {
            proof {
                lemma_take_step(d0.bookings, j as int);
                crate::db::lemma_without_header_push(
                    d0.bookings.take(j as int),
                    d0.bookings[j as int],
                    id,
                );
            }
            let hrow = self.bookings[j];
            if hrow.id == id {
            } else {
                kept_h.push(hrow);
            }
            j += 1;
        }
        proof {
            assert(d0.bookings.take(bn as int) =~= d0.bookings);
        }
        self.memberships = kept_ms;
        self.bookings = kept_h;
        proof {
            assert(self.db() =~= d0.deleted_booking(id));
            crate::db::lemma_deleted_booking_wf(d0, id);
        }
        Ok(())
    }

    /// Gets a trip by id if it exists.
    pub fn find_trip(&self, id: TripId) -> (r: Result<Option<Trip>, TripError>)
        requires
            self.wf(),
        ensures
            r matches Ok(o) && crate::trip::opt_trip_view(o) == self.db().lookup_trip(id),
    {
        let n = self.trips.len();
        let mut i: usize = 0;
        while i < n
            invariant
                self.wf(),
                n == self.trips@.len(),
                i <= n,
                forall|j: int| 0 <= j < i ==> self.db().trips[j].id != id,
            decreases n - i,
        {
            if self.trips[i].id == id {
                let t = &self.trips[i];
                let out = Trip {
                    id: t.id,
                    kind: crate::trip::TripKind {
                        id: t.kind.id,
                        name: t.kind.name.clone(),
                        description: t.kind.description.clone(),
                        guided: t.kind.guided,
                        meal_provided: t.kind.meal_provided,
                    },
                    location: t.location,
                    start_time: t.start_time,
                    end_time: t.end_time,
                };
                proof {
                    assert(self.db().trips[i as int].id == id);
                    assert(self.db().has_trip(id));
                    let w = choose|w: int|
                        0 <= w < self.db().trips.len() && self.db().trips[w].id == id;
                    if w != i as int {
                        assert(crate::db::trip_key()(self.db().trips[w]) != crate::db::trip_key()(
                            self.db().trips[i as int],
                        ));
                        assert(false);
                    }
                    assert(out@ =~= self.db().trip_of(id));
                }
                return Ok(Some(out));
            }
            i += 1;
        }
        proof {
            if self.db().has_trip(id) {
                let w = choose|w: int|
                    0 <= w < self.db().trips.len() && self.db().trips[w].id == id;
                assert(false);
            }
        }
        Ok(None)
    }

    /// Gets the trips matching the conjunction of the present filters, in
    /// ascending id order.  With every filter absent the result is empty.
    pub fn find_trips(&self, trip_filters: &TripFilters) -> (r: Result<Vec<Trip>, TripError>)
        requires
            self.wf(),
        ensures
            r matches Ok(ts) && crate::trip::seq_trip_view(ts@) == self.db().query_trips(
                *trip_filters,
            ),
    {
        if trip_filters.is_empty() {
            let out: Vec<Trip> = Vec::new();
            proof {
                assert(crate::trip::seq_trip_view(out@) =~= Seq::<crate::trip::TripV>::empty());
            }
            return Ok(out);
        }
        let ghost d0 = self.db();
        let n = self.trips.len();
        let mut out: Vec<Trip> = Vec::new();
        let mut i: usize = 0;
        while i < n
            invariant
                self.wf(),
                d0 == self.db(),
                n == self.trips@.len(),
                i <= n,
                crate::trip::seq_trip_view(out@) == Db::selected_trips(
                    d0.trips.take(i as int),
                    *trip_filters,
                ),
            decreases n - i,
        {
            proof {
                lemma_take_step(d0.trips, i as int);
                crate::db::lemma_selected_trips_push(
                    d0.trips.take(i as int),
                    d0.trips[i as int],
                    *trip_filters,
                );
            }
            let t = &self.trips[i];
            let m1 = match trip_filters.kind {
                Some(k) => t.kind.id == k,
                None => true,
            };
            let m2 = match trip_filters.location {
                Some(l) => t.location == l,
                None => true,
            };
            let m3 = match trip_filters.date_range {
                Some(range) => range.0 <= t.start_time && t.start_time <= range.1,
                None => true,
            };
            if m1 && m2 && m3 {
                let copy = Trip {
                    id: t.id,
                    kind: crate::trip::TripKind {
                        id: t.kind.id,
                        name: t.kind.name.clone(),
                        description: t.kind.description.clone(),
                        guided: t.kind.guided,
                        meal_provided: t.kind.meal_provided,
                    },
                    location: t.location,
                    start_time: t.start_time,
                    end_time: t.end_time,
                };
                proof {
                    assert(copy@ =~= d0.trips[i as int]);
                    assert(crate::db::trip_matches(d0.trips[i as int], *trip_filters));
                }
                out.push(copy);
                proof {
                    assert(crate::trip::seq_trip_view(out@) =~= Db::selected_trips(
                        d0.trips.take(i as int),
                        *trip_filters,
                    ).push(d0.trips[i as int]));
                }
            } else {
                proof {
                    assert(!crate::db::trip_matches(d0.trips[i as int], *trip_filters));
                }
            }
            i += 1;
        }
        proof {
            assert(d0.trips.take(n as int) =~= d0.trips);
        }
        Ok(out)
    }

    /// Seeds one trip.  Trips have no write path through the repository
    /// contract; the store accepts them directly so reads have something
    /// to find.  Returns false, changing nothing, when the id is taken.
    pub fn insert_trip(&mut self, trip: &Trip) -> (r: bool)
        requires
            old(self).wf(),
        ensures
            final(self).wf(),
            !old(self).db().has_trip(trip@.id) ==> r && final(self).db()
                == old(self).db().inserted_trip(trip@),
            old(self).db().has_trip(trip@.id) ==> !r && final(self).db() == old(self).db(),
    {
        let ghost d0 = self.db();
        let n = self.trips.len();
        let mut pos: usize = 0;
        while pos < n && self.trips[pos].id.0 < trip.id.0
            invariant
                old(self).wf(),
                *self == *old(self),
                d0 == self.db(),
                n == self.trips@.len(),
                pos <= n,
                forall|j: int| 0 <= j < pos ==> self.db().trips[j].id.0 < trip@.id.0,
            decreases n - pos,
        {
            pos += 1;
        }
        if pos < n && self.trips[pos].id.0 == trip.id.0 {
            proof {
                assert(self.db().trips[pos as int].id == trip@.id);
            }
            return false;
        }
        proof {
            assert forall|j: int|
                0 <= j < d0.trips.len() implies crate::db::trip_key()(#[trigger] d0.trips[j])
                != trip@.id.0 by {
                if j < pos {
                } else if j == pos {
                } else {
                    assert(crate::db::trip_key()(d0.trips[pos as int]) < crate::db::trip_key()(
                        d0.trips[j],
                    ));
                }
            }
            if d0.has_trip(trip@.id) {
                let w = choose|w: int| 0 <= w < d0.trips.len() && d0.trips[w].id == trip@.id;
                assert(crate::db::trip_key()(d0.trips[w]) == trip@.id.0);
                assert(false);
            }
            crate::sorted::lemma_pos_of_is_scan(d0.trips, crate::db::trip_key(), trip@.id.0, pos as int);
            crate::sorted::lemma_insert_sorted(d0.trips, crate::db::trip_key(), trip@);
        }
        let copy = Trip {
            id: trip.id,
            kind: crate::trip::TripKind {
                id: trip.kind.id,
                name: trip.kind.name.clone(),
                description: trip.kind.description.clone(),
                guided: trip.kind.guided,
                meal_provided: trip.kind.meal_provided,
            },
            location: trip.location,
            start_time: trip.start_time,
            end_time: trip.end_time,
        };
        proof {
            assert(copy@ =~= trip@);
        }
        self.trips.insert(pos, copy);
        proof {
            old(self).trips@.insert_ensures(pos as int, copy);
            d0.trips.insert_ensures(pos as int, trip@);
            assert(self.db().trips =~= d0.trips.insert(pos as int, trip@));
            assert(self.db() =~= d0.inserted_trip(trip@));
            assert(self.db().trips_ok());
            crate::db::lemma_wf_trips_changed(d0, self.db());
        }
        true
    }

    /// Records the waiver a participant signed, overwriting any earlier
    /// record for that participant.  Waivers have no write path through
    /// the repository contract; the store accepts them directly so reads
    /// can hand back waiver references.
    pub fn record_waiver(&mut self, participant: ParticipantId, waiver: WaiverId)
        requires
            old(self).wf(),
        ensures
            final(self).wf(),
            final(self).db() == old(self).db().recorded_waiver(participant, waiver),
    {
        let ghost d0 = self.db();
        let row = WaiverRow { participant, waiver };
        let n = self.waivers.len();
        let mut kept: Vec<WaiverRow> = Vec::new();
        let mut i: usize = 0;
        while i < n
            invariant
                old(self).wf(),
                *self == *old(self),
                d0 == self.db(),
                n == self.waivers@.len(),
                i <= n,
                kept@ == Db::without_waiver(d0.waivers.take(i as int), participant),
            decreases n - i,
        {
            proof {
                lemma_take_step(d0.waivers, i as int);
                crate::db::lemma_without_waiver_push(
                    d0.waivers.take(i as int),
                    d0.waivers[i as int],
                    participant,
                );
            }
            let w = self.waivers[i];
            if w.participant == participant {
            } else {
                kept.push(w);
            }
            i += 1;
        }
        proof {
            assert(d0.waivers.take(n as int) =~= d0.waivers);
        }
        kept.push(row);
        self.waivers = kept;
        proof {
            assert(self.db() =~= d0.recorded_waiver(participant, waiver));
            crate::db::lemma_without_waiver_rows(d0.waivers, participant);
            let d1 = self.db();
            let left = Db::without_waiver(d0.waivers, participant);
            assert forall|a: int, b: int|
                0 <= a < b < d1.waivers.len() implies d1.waivers[a].participant
                != d1.waivers[b].participant by {
                if b == d1.waivers.len() - 1 {
                    assert(d1.waivers[a] == left[a]);
                    assert(left[a].participant != participant);
                } else {
                    assert(d1.waivers[a] == left[a]);
                    assert(d1.waivers[b] == left[b]);
                }
            }
            assert(d1.waivers_ok());
            crate::db::lemma_wf_waivers_changed(d0, d1);
        }
    }

    /// Gets the equipment rented for a booking: its mapping in table
    /// order, empty when the booking has none.
    pub fn find_booking_rentals(&self, booking_id: BookingId) -> (r: Result<
        BookingRentals,
        EquipmentError,
    >)
        requires
            self.wf(),
        ensures
            r matches Ok(br) && br.booking_id == booking_id && br@.rentals
                == self.db().lookup_rentals(booking_id) && br.keys_distinct(),
    {
        let ghost d0 = self.db();
        let n = self.rentals.len();
        let mut pairs: Vec<(crate::equipment::EquipmentId, i32)> = Vec::new();
        let mut i: usize = 0;
        while i < n
            invariant
                self.wf(),
                d0 == self.db(),
                n == self.rentals@.len(),
                i <= n,
                pairs@ == crate::db::rentals_for(d0.rentals.take(i as int), booking_id).map_values(
                    |r: RentalRow| (r.equipment, r.quantity),
                ),
            decreases n - i,
        {
            proof {
                lemma_take_step(d0.rentals, i as int);
                crate::db::lemma_rentals_push(
                    d0.rentals.take(i as int),
                    d0.rentals[i as int],
                    booking_id,
                );
            }
            let row = self.rentals[i];
            if row.booking == booking_id {
                pairs.push((row.equipment, row.quantity));
                proof {
                    assert(pairs@ =~= crate::db::rentals_for(
                        d0.rentals.take(i as int),
                        booking_id,
                    ).map_values(|r: RentalRow| (r.equipment, r.quantity)).push(
                        (row.equipment, row.quantity),
                    ));
                    assert(pairs@ =~= crate::db::rentals_for(
                        d0.rentals.take(i as int + 1),
                        booking_id,
                    ).map_values(|r: RentalRow| (r.equipment, r.quantity)));
                }
            }
            i += 1;
        }
        proof {
            assert(d0.rentals.take(n as int) =~= d0.rentals);
        }
        let out = BookingRentals { booking_id, rentals: pairs };
        proof {
            crate::db::lemma_rentals_for_rows(d0.rentals, booking_id);
            let rows = crate::db::rentals_for(d0.rentals, booking_id);
            assert forall|a: int, b: int|
                0 <= a < b < out.rentals@.len() implies out.rentals@[a].0 != out.rentals@[b].0 by {
                assert(out.rentals@[a].0 == rows[a].equipment);
                assert(out.rentals@[b].0 == rows[b].equipment);
            }
        }
        Ok(out)
    }

    /// Replaces a booking's rentals with the given mapping.  A mapping
    /// that repeats an equipment id is rejected; on failure nothing
    /// changes.
    pub fn save_booking_rentals(&mut self, booking_rentals: &BookingRentals) -> (r: Result<
        (),
        EquipmentError,
    >)
        requires
            old(self).wf(),
        ensures
            final(self).wf(),
            booking_rentals.keys_distinct() ==> r == Ok::<(), EquipmentError>(())
                && final(self).db() == old(self).db().saved_rentals(
                booking_rentals@.booking_id,
                booking_rentals@.rentals,
            ),
            !booking_rentals.keys_distinct() ==> r == Err::<(), EquipmentError>(
                EquipmentError::Conflict,
            ) && final(self).db() == old(self).db(),
    {
        let b = booking_rentals.booking_id;
        let m = booking_rentals.rentals.len();
        let mut i: usize = 0;
        while i < m
            invariant
                old(self).wf(),
                *self == *old(self),
                m == booking_rentals.rentals@.len(),
                i <= m,
                forall|x: int, y: int|
                    0 <= x < y < m && x < i ==> booking_rentals.rentals@[x].0
                        != booking_rentals.rentals@[y].0,
            decreases m - i,
        {
            let mut j: usize = i + 1;
            while j < m
                invariant
                    old(self).wf(),
                    *self == *old(self),
                    m == booking_rentals.rentals@.len(),
                    i < j <= m,
                    forall|x: int, y: int|
                        0 <= x < y < m && x < i ==> booking_rentals.rentals@[x].0
                            != booking_rentals.rentals@[y].0,
                    forall|y: int|
                        i < y < j ==> booking_rentals.rentals@[i as int].0
                            != booking_rentals.rentals@[y].0,
                decreases m - j,
            {
                if booking_rentals.rentals[i].0 == booking_rentals.rentals[j].0 {
                    return Err(EquipmentError::Conflict);
                }
                j += 1;
            }
            i += 1;
        }
        let ghost d0 = self.db();
        let ghost pairs = booking_rentals.rentals@;
        let n = self.rentals.len();
        let mut kept: Vec<RentalRow> = Vec::new();
        let mut i: usize = 0;
        while i < n
            invariant
                old(self).wf(),
                *self == *old(self),
                d0 == self.db(),
                n == self.rentals@.len(),
                i <= n,
                kept@ == crate::db::without_rentals(d0.rentals.take(i as int), b),
            decreases n - i,
        {
            proof {
                lemma_take_step(d0.rentals, i as int);
                crate::db::lemma_rentals_push(d0.rentals.take(i as int), d0.rentals[i as int], b);
            }
            let row = self.rentals[i];
            if row.booking == b {
            } else {
                kept.push(row);
            }
            i += 1;
        }
        proof {
            assert(d0.rentals.take(n as int) =~= d0.rentals);
        }
        self.rentals = kept;
        let mut k: usize = 0;
        while k < m
            invariant
                m == booking_rentals.rentals@.len(),
                pairs == booking_rentals.rentals@,
                k <= m,
                self.bookings@ == old(self).bookings@,
                self.participants@ == old(self).participants@,
                self.memberships@ == old(self).memberships@,
                self.waivers@ == old(self).waivers@,
                self.customers@ == old(self).customers@,
                self.trips@ == old(self).trips@,
                self.rentals@ == crate::db::without_rentals(d0.rentals, b) + pairs.take(
                    k as int,
                ).map_values(
                    |p: (crate::equipment::EquipmentId, i32)| RentalRow {
                        booking: b,
                        equipment: p.0,
                        quantity: p.1,
                    },
                ),
            decreases m - k,
        {
            let pair = booking_rentals.rentals[k];
            self.rentals.push(RentalRow { booking: b, equipment: pair.0, quantity: pair.1 });
            proof {
                lemma_take_step(pairs, k as int);
                assert(self.rentals@ =~= crate::db::without_rentals(d0.rentals, b) + pairs.take(
                    k as int + 1,
                ).map_values(
                    |p: (crate::equipment::EquipmentId, i32)| RentalRow {
                        booking: b,
                        equipment: p.0,
                        quantity: p.1,
                    },
                ));
            }
            k += 1;
        }
        proof {
            assert(pairs.take(m as int) =~= pairs);
            assert(self.db() =~= d0.saved_rentals(b, pairs));
            crate::db::lemma_saved_rentals_wf(d0, b, pairs);
        }
        Ok(())
    }
}


impl crate::ports::BookingRepository for MemoryStore {
    open spec fn state(&self) -> Db {
        self.db()
    }

    open spec fn inv(&self) -> bool {
        self.wf()
    }

    fn find_booking(&self, id: BookingId) -> Result<Option<Booking>, BookingError> {
        MemoryStore::find_booking(self, id)
    }

    fn find_bookings(&self, filters: &BookingFilters) -> Result<Vec<Booking>, BookingError> {
        MemoryStore::find_bookings(self, filters)
    }

    fn save_booking(&mut self, booking: &Booking) -> Result<(), BookingError> {
        MemoryStore::save_booking(self, booking)
    }

    fn delete_booking(&mut self, id: BookingId) -> Result<(), BookingError> {
        MemoryStore::delete_booking(self, id)
    }

    fn find_customer(&self, id: CustomerId) -> Result<Option<Customer>, CustomerError> {
        MemoryStore::find_customer(self, id)
    }

    fn save_customer(&mut self, customer: &Customer) -> Result<(), CustomerError> {
        MemoryStore::save_customer(self, customer)
    }

    fn delete_customer(&mut self, id: CustomerId) -> Result<(), CustomerError> {
        MemoryStore::delete_customer(self, id)
    }

    fn find_trip(&self, id: TripId) -> Result<Option<Trip>, TripError> {
        MemoryStore::find_trip(self, id)
    }

    fn find_trips(&self, trip_filters: &TripFilters) -> Result<Vec<Trip>, TripError> {
        MemoryStore::find_trips(self, trip_filters)
    }

    fn find_booking_rentals(&self, booking_id: BookingId) -> Result<
        BookingRentals,
        EquipmentError,
    > {
        MemoryStore::find_booking_rentals(self, booking_id)
    }

    fn save_booking_rentals(&mut self, booking_rentals: &BookingRentals) -> Result<
        (),
        EquipmentError,
    > {
        MemoryStore::save_booking_rentals(self, booking_rentals)
    }
}

} // verus!
