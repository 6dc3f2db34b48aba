//! The thin application service over the repository contract.

use vstd::prelude::*;

use crate::booking::{Booking, BookingError, BookingId};
use crate::db::Db;
use crate::ports::{BookingRepository, BookingService};

verus! {

/// Handles use-case interactions with the booking domain by forwarding
/// to the repository it owns.
pub struct Service<R: BookingRepository> {
    repo: R,
}

impl<R: BookingRepository> Service<R> {
    /// The repository behind the service.
    pub closed spec fn spec_repo(&self) -> R {
        self.repo
    }

    /// Wraps a repository.
    pub fn new(repo: R) -> (s: Service<R>)
        ensures
            s.spec_repo() == repo,
    {
        Service { repo }
    }
}

impl<R: BookingRepository> BookingService for Service<R> {
    open spec fn state(&self) -> Db {
        self.spec_repo().state()
    }

    open spec fn inv(&self) -> bool {
        self.spec_repo().inv()
    }

    fn find_booking(&self, id: BookingId) -> (r: Result<Option<Booking>, BookingError>) {
        self.repo.find_booking(id)
    }
}

} // verus!
