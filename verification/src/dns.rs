//! Wire-shaped DNS record payloads: the record as a provider's REST API
//! lists it, and the payload that asks for a new record. Here the record
//! type is plain text, exactly as it stands on the wire.

use vstd::prelude::*;

verus! {

/// A record as a provider's listing endpoint returns it.
#[derive(Debug)]
pub struct DnsRecord {
    pub id: String,
    pub zone_id: String,
    pub type_: String,
    pub name: String,
    pub value: String,
    pub ttl: Option<i32>,
}

/// The payload that asks a provider to create one record; the provider
/// answers with the assigned id.
#[derive(Debug)]
pub struct DnsRecordCreate {
    pub zone_id: String,
    pub type_: String,
    pub name: String,
    pub value: String,
    pub ttl: Option<i32>,
}

} // verus!
