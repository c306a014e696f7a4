//! The DNS record types shared with a provider, the closed set of record
//! types, and the capability surface a DNS provider implementation offers.

use vstd::prelude::*;

verus! {

/// The closed set of DNS record types the reconciler manages.
#[derive(Clone, Copy, Debug, PartialEq, Eq, Hash, Structural)]
pub enum DnsType {
    A,
    AAAA,
    CNAME,
}

/// The canonical text form of a record type, as it appears in tags and on
/// the provider's wire format.
pub open spec fn dns_type_str(t: DnsType) -> Seq<char> {
    match t {
        DnsType::A => "A"@,
        DnsType::AAAA => "AAAA"@,
        DnsType::CNAME => "CNAME"@,
    }
}

/// Which record type, if any, a piece of text denotes.
pub open spec fn dns_type_of_str(s: Seq<char>) -> Option<DnsType> {
    if s == "A"@ {
        Some(DnsType::A)
    } else if s == "AAAA"@ {
        Some(DnsType::AAAA)
    } else if s == "CNAME"@ {
        Some(DnsType::CNAME)
    } else {
        None
    }
}

impl DnsType {
    /// Parse the text form of a record type; anything outside the closed
    /// set is rejected.
    pub fn from_str(s: &str) -> (r: Option<DnsType>)
        ensures
            r == dns_type_of_str(s@),
    {
        if crate::strutil::str_eq(s, "A") {
            Some(DnsType::A)
        } else if crate::strutil::str_eq(s, "AAAA") {
            Some(DnsType::AAAA)
        } else if crate::strutil::str_eq(s, "CNAME") {
            Some(DnsType::CNAME)
        } else {
            None
        }
    }

    /// The canonical text form of this record type.
    pub fn as_str(&self) -> (r: &'static str)
        ensures
            r@ == dns_type_str(*self),
    {
        match self {
            DnsType::A => "A",
            DnsType::AAAA => "AAAA",
            DnsType::CNAME => "CNAME",
        }
    }
}

/// How a provider call failed, following the error taxonomy: transient
/// failures (network, backend unavailable) are retried by the next pass,
/// fatal ones (authentication, validation) abort the process.
#[derive(Debug)]
pub enum ProviderError {
    /// The backend could not be reached or answered with a server error;
    /// the next watch-triggered pass retries.
    Transient(String),
    /// The request itself was rejected; no automatic remedy is safe.
    Fatal(String),
}

impl ProviderError {
    /// Whether the next pass may retry after this failure.
    pub fn is_transient(&self) -> (r: bool)
        ensures
            r == (self is Transient),
    {
        match self {
            ProviderError::Transient(_) => true,
            ProviderError::Fatal(_) => false,
        }
    }

    /// The message carried by the failure.
    pub fn message(&self) -> (r: &str)
        ensures
            self is Transient ==> r@ == self->Transient_0@,
            self is Fatal ==> r@ == self->Fatal_0@,
    {
        match self {
            ProviderError::Transient(m) => m.as_str(),
            ProviderError::Fatal(m) => m.as_str(),
        }
    }
}

/// The capability surface of an authoritative DNS store: create a record
/// and report the id the store assigned, or delete a record by id. The
/// reconciliation pass needs nothing else; updates are modeled as
/// delete-and-create. Implementations decide success, so nothing is
/// promised of the outcome: the pass states what holds for every answer.
pub trait DnsProviderTrait {
    /// Create a record; on success, the provider-assigned id.
    fn create_dns_record(&self, dns_record: &crate::consul::DnsRecord) -> Result<
        String,
        ProviderError,
    >;

    /// Delete the record under a provider-assigned id. A record already
    /// gone counts as success, so a replayed pass stays idempotent.
    fn delete_dns_record(&self, record_id: &str) -> Result<(), ProviderError>;
}

/// A record as an authoritative DNS store reports it, with the id and
/// zone the store assigned.
#[derive(Debug)]
pub struct DnsRecord {
    pub id: String,
    pub zone_id: String,
    pub type_: DnsType,
    pub name: String,
    pub value: String,
    pub ttl: Option<i32>,
}

} // verus!
