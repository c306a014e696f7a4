//! The Hetzner-shaped side of the provider surface: the listing wrapper
//! its API nests records in, and the mapping from a desired record to the
//! creation payload its API expects.

use vstd::prelude::*;

use crate::dns::DnsRecordCreate;
use crate::dns_trait::dns_type_str;

verus! {

/// The wrapper object a listing response nests its records in.
#[derive(Debug)]
pub struct RecordsWrapper {
    pub records: Vec<crate::dns_trait::DnsRecord>,
}

/// Build the creation payload for a desired record in a zone: the
/// hostname becomes the record name, the record type goes on the wire in
/// its canonical text form, and value and time-to-live carry over.
pub fn to_dns_record_create(zone_id: &str, record: &crate::consul::DnsRecord) -> (r:
    DnsRecordCreate)
    ensures
        r.zone_id@ == zone_id@,
        r.type_@ == dns_type_str(record.type_),
        r.name@ == record.hostname@,
        r.value@ == record.value@,
        r.ttl == record.ttl,
{
    DnsRecordCreate {
        zone_id: zone_id.to_owned(),
        type_: record.type_.as_str().to_owned(),
        name: record.hostname.clone(),
        value: record.value.clone(),
        ttl: record.ttl,
    }
}

} // verus!
