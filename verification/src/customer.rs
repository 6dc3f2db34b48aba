//! Customers and their validated contact details.

use vstd::prelude::*;
use vstd::utf8::encode_utf8;

verus! {

/// Identifier of a customer: an opaque 128-bit value, compared by value.
#[derive(Clone, Copy, Debug, PartialEq, Eq, Structural, PartialOrd, Ord, Hash)]
pub struct CustomerId(pub u128);

/// What `str::trim` returns for a given string: the characters without
/// leading and trailing whitespace.  Named here so contracts can speak of
/// it; only the trusted wrapper below states anything about it.
pub uninterp spec fn trimmed_of(s: Seq<char>) -> Seq<char>;

/// Relies on `str::trim`: removes leading and trailing whitespace, a
/// function of the characters alone.
#[verifier::external_body]
fn trim_string(s: &String) -> (r: String)
    ensures
        r@ == trimmed_of(s@),
{
    s.trim().to_string()
}

/// Relies on `uuid::Uuid::now_v7`: a fresh time-ordered 128-bit identifier.
/// The value depends on the clock and on randomness, so nothing is stated
/// of it.
#[verifier::external_body]
pub(crate) fn fresh_id() -> u128 {
    uuid::Uuid::now_v7().as_u128()
}

/// A contact field is acceptable when its trimmed form is longer than two
/// bytes in its UTF-8 encoding (the byte length `str::len` reports).
pub open spec fn acceptable_text(s: Seq<char>) -> bool {
    (encode_utf8(s).len() as usize) > 2
}

/// A customer's validated, trimmed display name.
#[derive(Clone, Debug, PartialEq, Eq, PartialOrd, Ord, Hash)]
pub struct CustomerName(pub String);

impl CustomerName {
    /// Trims the raw text and accepts it only when enough is left.
    pub fn try_from(s: &String) -> (r: Result<CustomerName, CustomerError>)
        ensures
            r is Ok <==> acceptable_text(trimmed_of(s@)),
            r matches Ok(n) ==> n.0@ == trimmed_of(s@),
            r matches Err(e) ==> e matches CustomerError::InvalidName(t) && t@ == trimmed_of(s@),
    {
        let t = trim_string(s);
        if t.as_str().len() <= 2 {
            Err(CustomerError::InvalidName(t))
        } else {
            Ok(CustomerName(t))
        }
    }
}

/// A customer's validated, trimmed email address.
#[derive(Clone, Debug, PartialEq, Eq, PartialOrd, Ord, Hash)]
pub struct EmailAddress(pub String);

impl EmailAddress {
    /// Trims the raw text and accepts it only when enough is left.
    pub fn try_from(s: &String) -> (r: Result<EmailAddress, CustomerError>)
        ensures
            r is Ok <==> acceptable_text(trimmed_of(s@)),
            r matches Ok(a) ==> a.0@ == trimmed_of(s@),
            r matches Err(e) ==> e matches CustomerError::InvalidEmail(t) && t@ == trimmed_of(s@),
    {
        let t = trim_string(s);
        if t.as_str().len() <= 2 {
            Err(CustomerError::InvalidEmail(t))
        } else {
            Ok(EmailAddress(t))
        }
    }
}

/// A customer's validated, trimmed phone number.
#[derive(Clone, Debug, PartialEq, Eq, PartialOrd, Ord, Hash)]
pub struct PhoneNumber(pub String);

impl PhoneNumber {
    /// Trims the raw text and accepts it only when enough is left.
    pub fn try_from(s: &String) -> (r: Result<PhoneNumber, CustomerError>)
        ensures
            r is Ok <==> acceptable_text(trimmed_of(s@)),
            r matches Ok(p) ==> p.0@ == trimmed_of(s@),
            r matches Err(e) ==> e matches CustomerError::InvalidPhone(t) && t@ == trimmed_of(s@),
    {
        let t = trim_string(s);
        if t.as_str().len() <= 2 {
            Err(CustomerError::InvalidPhone(t))
        } else {
            Ok(PhoneNumber(t))
        }
    }
}

/// A person who makes a booking and is the primary contact and payer for
/// their group of participants.
#[derive(Clone, Debug, PartialEq, Eq, PartialOrd, Ord, Hash)]
pub struct Customer {
    pub id: CustomerId,
    pub name: CustomerName,
    pub email: EmailAddress,
    pub phone: PhoneNumber,
}

/// Mathematical image of a [`Customer`].
#[verifier::ext_equal]
pub struct CustomerV {
    pub id: CustomerId,
    pub name: Seq<char>,
    pub email: Seq<char>,
    pub phone: Seq<char>,
}

impl View for Customer {
    type V = CustomerV;

    open spec fn view(&self) -> CustomerV {
        CustomerV { id: self.id, name: self.name.0@, email: self.email.0@, phone: self.phone.0@ }
    }
}

/// The view of an optional customer, for stating read results.
pub open spec fn opt_customer_view(o: Option<Customer>) -> Option<CustomerV> {
    match o {
        Some(c) => Some(c@),
        None => None,
    }
}

/// The raw, not yet validated material for a new customer.
#[derive(Clone, Debug, PartialEq, Eq)]
pub struct CreateCustomerRequest {
    pub name: String,
    pub email: String,
    pub phone: String,
}

impl Customer {
    /// Validates a creation request field by field, in order, and assigns a
    /// fresh identifier on success.  The first field that fails validation
    /// decides the error.
    pub fn try_from(request: CreateCustomerRequest) -> (r: Result<Customer, CustomerError>)
        ensures
            r is Ok <==> {
                &&& acceptable_text(trimmed_of(request.name@))
                &&& acceptable_text(trimmed_of(request.email@))
                &&& acceptable_text(trimmed_of(request.phone@))
            },
            r matches Ok(c) ==> {
                &&& c.name.0@ == trimmed_of(request.name@)
                &&& c.email.0@ == trimmed_of(request.email@)
                &&& c.phone.0@ == trimmed_of(request.phone@)
            },
            !acceptable_text(trimmed_of(request.name@)) ==> (r matches Err(e)
                && e matches CustomerError::InvalidName(t) && t@ == trimmed_of(request.name@)),
            acceptable_text(trimmed_of(request.name@))
                && !acceptable_text(trimmed_of(request.email@)) ==> (r matches Err(e)
                && e matches CustomerError::InvalidEmail(t) && t@ == trimmed_of(request.email@)),
            acceptable_text(trimmed_of(request.name@))
                && acceptable_text(trimmed_of(request.email@))
                && !acceptable_text(trimmed_of(request.phone@)) ==> (r matches Err(e)
                && e matches CustomerError::InvalidPhone(t) && t@ == trimmed_of(request.phone@)),
    {
        let name = match CustomerName::try_from(&request.name) {
            Ok(n) => n,
            Err(e) => {
                return Err(e);
            },
        };
        let email = match EmailAddress::try_from(&request.email) {
            Ok(a) => a,
            Err(e) => {
                return Err(e);
            },
        };
        let phone = match PhoneNumber::try_from(&request.phone) {
            Ok(p) => p,
            Err(e) => {
                return Err(e);
            },
        };
        Ok(Customer { id: CustomerId(fresh_id()), name, email, phone })
    }
}

/// A request to change some of a customer's contact details.
#[derive(Clone, Debug, PartialEq, Eq)]
pub struct EditCustomerRequest {
    pub id: CustomerId,
    pub name: Option<String>,
    pub email: Option<String>,
    pub phone: Option<String>,
}

/// Failures of customer validation and persistence.
///
/// "Not found" is never an error: reads return an absent value instead.
#[derive(Clone, Debug, PartialEq, Eq)]
pub enum CustomerError {
    /// The given name is rejected; carries the trimmed text.
    InvalidName(String),
    /// The given email address is rejected; carries the trimmed text.
    InvalidEmail(String),
    /// Another customer already uses this email address.
    EmailTaken(String),
    /// The given phone number is rejected; carries the trimmed text.
    InvalidPhone(String),
    /// The customer id is already taken.
    Conflict,
    /// The backing store failed; carries a description of the cause.
    Unknown(String),
}

} // verus!
