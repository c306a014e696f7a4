//! The discovery-side data model: DNS intents derived from service tags,
//! the raw key/value entries the coordination store hands back, session
//! lease durations, and the tag parser.

use vstd::prelude::*;

use crate::dns_trait::DnsType;
use crate::strutil;

verus! {

/// The well-known key under which the reconciliation state and the
/// writer lock live in the coordination store.
pub const CONSUL_STORE_KEY: &'static str = "dns_records_lock";

/// The mathematical value of a [`DnsRecord`]: every field as plain data.
#[verifier::ext_equal]
pub struct DnsRecordView {
    pub hostname: Seq<char>,
    pub type_: DnsType,
    pub ttl: Option<i32>,
    pub value: Seq<char>,
}

/// A DNS record wanted by a service, derived from its tags. Equality is
/// structural over all four fields.
#[derive(Debug)]
pub struct DnsRecord {
    pub hostname: String,
    pub type_: DnsType,
    pub ttl: Option<i32>,
    pub value: String,
}

impl View for DnsRecord {
    type V = DnsRecordView;

    open spec fn view(&self) -> DnsRecordView {
        DnsRecordView {
            hostname: self.hostname@,
            type_: self.type_,
            ttl: self.ttl,
            value: self.value@,
        }
    }
}

impl DeepView for DnsRecord {
    type V = DnsRecordView;

    open spec fn deep_view(&self) -> DnsRecordView {
        self@
    }
}

impl DnsRecord {
    /// An independent copy with the same value.
    pub fn duplicate(&self) -> (r: DnsRecord)
        ensures
            r@ == self@,
    {
        DnsRecord {
            hostname: self.hostname.clone(),
            type_: self.type_,
            ttl: self.ttl,
            value: self.value.clone(),
        }
    }
}

impl PartialEq for DnsRecord {
    fn eq(&self, other: &DnsRecord) -> (r: bool) {
        self.hostname == other.hostname && self.type_ == other.type_ && self.ttl == other.ttl
            && self.value == other.value
    }
}

impl vstd::std_specs::cmp::PartialEqSpecImpl for DnsRecord {
    open spec fn obeys_eq_spec() -> bool {
        true
    }

    open spec fn eq_spec(&self, other: &DnsRecord) -> bool {
        self@ == other@
    }
}

/// A single key/value entry as the coordination store reports it: the key,
/// an optional encoded value, and the session currently bound to the key.
pub struct KvEntry {
    pub key: String,
    pub value: Option<String>,
    pub session: Option<String>,
}

/// The mathematical value of a [`KvEntry`].
pub struct KvEntryView {
    pub key: Seq<char>,
    pub value: Option<Seq<char>>,
    pub session: Option<Seq<char>>,
}

impl View for KvEntry {
    type V = KvEntryView;

    open spec fn view(&self) -> KvEntryView {
        KvEntryView {
            key: self.key@,
            value: match self.value {
                Some(ref v) => Some(v@),
                None => None,
            },
            session: match self.session {
                Some(ref s) => Some(s@),
                None => None,
            },
        }
    }
}

impl DeepView for KvEntry {
    type V = KvEntryView;

    open spec fn deep_view(&self) -> KvEntryView {
        self@
    }
}

/// What the standard base64 alphabet decodes a piece of text to, if it is
/// valid base64 at all.
pub uninterp spec fn base64_standard_decoded(s: Seq<char>) -> Option<Seq<u8>>;

/// Relies on base64's `Engine::decode` with the standard-alphabet engine:
/// what a piece of text decodes to is a function of that text alone.
#[verifier::external_body]
fn base64_decode(s: &str) -> (r: Option<Vec<u8>>)
    ensures
        match r {
            Some(v) => base64_standard_decoded(s@) == Some(v@),
            None => base64_standard_decoded(s@) is None,
        },
{
    base64::Engine::decode(&base64::prelude::BASE64_STANDARD, s).ok()
}

/// The decoded payloads of a key/value listing: entries without a value
/// and entries whose value is not valid base64 are dropped, the rest keep
/// their order.
pub open spec fn decoded_kv_values(entries: Seq<KvEntryView>) -> Seq<Seq<u8>>
    decreases entries.len(),
{
    if entries.len() == 0 {
        Seq::empty()
    } else {
        let prev = decoded_kv_values(entries.drop_last());
        match entries.last().value {
            None => prev,
            Some(txt) => match base64_standard_decoded(txt) {
                None => prev,
                Some(bytes) => prev.push(bytes),
            },
        }
    }
}

/// Decode the base64 payloads of a key/value listing. An entry that holds
/// no value, or a value that does not decode, is dropped (bad state is
/// skipped per item, never fatal); the rest come back in listing order.
pub fn decode_kv_entries(entries: &Vec<KvEntry>) -> (r: Vec<Vec<u8>>)
    ensures
        r.deep_view() == decoded_kv_values(entries.deep_view()),
{
    let ghost evs: Seq<KvEntryView> = entries.deep_view();
    let n = entries.len();
    let mut out: Vec<Vec<u8>> = Vec::new();
    let mut i: usize = 0;
    proof {
        assert(evs.take(0) =~= Seq::<KvEntryView>::empty());
        assert(out.deep_view() =~= Seq::<Seq<u8>>::empty());
    }
    while i < n
        invariant
            n == entries@.len(),
            evs == entries.deep_view(),
            evs.len() == n,
            i <= n,
            out.deep_view() == decoded_kv_values(evs.take(i as int)),
        decreases n - i,
    {
        proof {
            assert(evs.take(i as int + 1).drop_last() =~= evs.take(i as int));
            assert(evs.take(i as int + 1).last() == evs[i as int]);
            assert(evs[i as int] == entries@[i as int]@);
        }
        match &entries[i].value {
            None => {},
            Some(txt) => {
                match base64_decode(txt.as_str()) {
                    None => {},
                    Some(bytes) => {
                        let ghost before = out.deep_view();
                        let ghost bv: Seq<u8> = bytes@;
                        proof {
                            assert(base64_standard_decoded(evs[i as int].value->0) == Some(bv));
                        }
                        out.push(bytes);
                        proof {
                            assert(decoded_kv_values(evs.take(i as int + 1)) == before.push(bv));
                            assert(out.deep_view() =~~= before.push(bv));
                        }
                    },
                }
            },
        }
        i += 1;
    }
    proof {
        assert(evs.take(n as int) =~= evs);
    }
    out
}

/// Whether a listing of the lock key shows it unheld: some entry for the
/// well-known key carries no session binding.
pub open spec fn lock_free_spec(entries: Seq<KvEntryView>) -> bool {
    exists|i: int|
        0 <= i < entries.len() && entries[i].key == CONSUL_STORE_KEY@ && entries[i].session
            is None
}

/// Decide from a key listing whether the writer lock is free, so a waiting
/// instance may retry acquisition.
pub fn lock_is_free(entries: &Vec<KvEntry>) -> (r: bool)
    ensures
        r == lock_free_spec(entries@.map_values(|e: KvEntry| e@)),
{
    let ghost vs = entries@.map_values(|e: KvEntry| e@);
    let n = entries.len();
    let mut i: usize = 0;
    while i < n
        invariant
            n == entries.len(),
            vs == entries@.map_values(|e: KvEntry| e@),
            i <= n,
            forall|j: int|
                0 <= j < i ==> !(vs[j].key == CONSUL_STORE_KEY@ && vs[j].session is None),
        decreases n - i,
    {
        let entry = &entries[i];
        if entry.session.is_none() && strutil::str_eq(entry.key.as_str(), CONSUL_STORE_KEY) {
            proof {
                assert(vs[i as int].key == CONSUL_STORE_KEY@ && vs[i as int].session is None);
            }
            return true;
        }
        i += 1;
    }
    proof {
        if lock_free_spec(vs) {
            let w = choose|w: int|
                0 <= w < vs.len() && vs[w].key == CONSUL_STORE_KEY@ && vs[w].session is None;
            assert(!(vs[w].key == CONSUL_STORE_KEY@ && vs[w].session is None));
        }
    }
    false
}

/// Whether the store's answer to an acquire request grants the lock: the
/// response body starts with `true`.
pub open spec fn acquire_granted_spec(body: Seq<char>) -> bool {
    "true"@.is_prefix_of(body)
}

/// Read the store's answer to an acquire request.
pub fn acquire_granted(body: &str) -> (r: bool)
    ensures
        r == acquire_granted_spec(body@),
{
    strutil::strip_prefix(body, "true").is_some()
}

/// The fields gathered for one tag-group identifier, each as the raw text
/// of its last occurrence.
pub struct TagGroupView {
    pub hostname: Option<Seq<char>>,
    pub type_: Option<Seq<char>>,
    pub ttl: Option<Seq<char>>,
    pub value: Option<Seq<char>>,
}

/// A group with no field seen yet.
pub open spec fn empty_group() -> TagGroupView {
    TagGroupView { hostname: None, type_: None, ttl: None, value: None }
}

/// Record one field of a group; an unknown field changes nothing, and a
/// repeated field overwrites (last write wins).
pub open spec fn set_field(g: TagGroupView, field: Seq<char>, value: Seq<char>) -> TagGroupView {
    if field == "hostname"@ {
        TagGroupView { hostname: Some(value), type_: g.type_, ttl: g.ttl, value: g.value }
    } else if field == "type"@ {
        TagGroupView { hostname: g.hostname, type_: Some(value), ttl: g.ttl, value: g.value }
    } else if field == "ttl"@ {
        TagGroupView { hostname: g.hostname, type_: g.type_, ttl: Some(value), value: g.value }
    } else if field == "value"@ {
        TagGroupView { hostname: g.hostname, type_: g.type_, ttl: g.ttl, value: Some(value) }
    } else {
        g
    }
}

/// How one raw tag decomposes: strip the `external-dns.` prefix, split the
/// rest into identifier and field at the first `.`, and split field from
/// value at the first `=`. Tags of any other shape are ignored.
pub open spec fn tag_parts(tag: Seq<char>) -> Option<(Seq<char>, Seq<char>, Seq<char>)> {
    match strutil::strip_prefix_spec(tag, "external-dns."@) {
        None => None,
        Some(rest) => match strutil::split_once_spec(rest, '.') {
            None => None,
            Some(id_rest) => match strutil::split_once_spec(id_rest.1, '=') {
                None => None,
                Some(field_value) => Some((id_rest.0, field_value.0, field_value.1)),
            },
        },
    }
}

/// Whether a group identifier occurs in the group list.
pub open spec fn group_key_in(groups: Seq<(Seq<char>, TagGroupView)>, id: Seq<char>) -> bool {
    exists|i: int| 0 <= i < groups.len() && groups[i].0 == id
}

/// No group identifier occurs twice.
pub open spec fn group_ids_unique(groups: Seq<(Seq<char>, TagGroupView)>) -> bool {
    forall|i: int, j: int| 0 <= i < j < groups.len() ==> groups[i].0 != groups[j].0
}

/// Fold one parsed tag into the group list: update the group that already
/// carries the identifier, or append a fresh one.
pub open spec fn upsert_group(
    groups: Seq<(Seq<char>, TagGroupView)>,
    id: Seq<char>,
    field: Seq<char>,
    value: Seq<char>,
) -> Seq<(Seq<char>, TagGroupView)> {
    if group_key_in(groups, id) {
        let j = choose|j: int| 0 <= j < groups.len() && groups[j].0 == id;
        groups.update(j, (id, set_field(groups[j].1, field, value)))
    } else {
        groups.push((id, set_field(empty_group(), field, value)))
    }
}

/// The groups a list of raw tags denotes, in order of first appearance.
pub open spec fn groups_of(tags: Seq<Seq<char>>) -> Seq<(Seq<char>, TagGroupView)>
    decreases tags.len(),
{
    if tags.len() == 0 {
        Seq::empty()
    } else {
        let prev = groups_of(tags.drop_last());
        match tag_parts(tags.last()) {
            None => prev,
            Some(parts) => upsert_group(prev, parts.0, parts.1, parts.2),
        }
    }
}

/// The record a completed group denotes. A group missing `hostname`,
/// `type` or `value`, naming an unknown record type, or carrying an
/// unparseable `ttl` denotes nothing and is dropped.
pub open spec fn record_of_group(g: TagGroupView) -> Option<DnsRecordView> {
    if g.hostname is Some && g.type_ is Some && g.value is Some {
        match crate::dns_trait::dns_type_of_str(g.type_->0) {
            None => None,
            Some(t) => match g.ttl {
                None => Some(
                    DnsRecordView { hostname: g.hostname->0, type_: t, ttl: None, value: g.value->0 },
                ),
                Some(ts) => match strutil::i32_from_str_spec(ts) {
                    None => None,
                    Some(n) => Some(
                        DnsRecordView {
                            hostname: g.hostname->0,
                            type_: t,
                            ttl: Some(n),
                            value: g.value->0,
                        },
                    ),
                },
            },
        }
    } else {
        None
    }
}

/// The records of a group list, keeping group order and dropping
/// incomplete groups.
pub open spec fn records_of_groups(groups: Seq<(Seq<char>, TagGroupView)>) -> Seq<DnsRecordView>
    decreases groups.len(),
{
    if groups.len() == 0 {
        Seq::empty()
    } else {
        let prev = records_of_groups(groups.drop_last());
        match record_of_group(groups.last().1) {
            None => prev,
            Some(r) => prev.push(r),
        }
    }
}

/// What a list of raw service tags denotes: group the tags by identifier,
/// then keep every group that forms a complete record.
pub open spec fn parse_dns_tags_spec(tags: Seq<Seq<char>>) -> Seq<DnsRecordView> {
    records_of_groups(groups_of(tags))
}

/// One tag group while parsing: the identifier and the raw text of each
/// known field seen so far.
struct TagGroup {
    identifier: String,
    hostname: Option<String>,
    type_: Option<String>,
    ttl: Option<String>,
    value: Option<String>,
}

impl View for TagGroup {
    type V = (Seq<char>, TagGroupView);

    closed spec fn view(&self) -> (Seq<char>, TagGroupView) {
        (
            self.identifier@,
            TagGroupView {
                hostname: match self.hostname {
                    Some(ref h) => Some(h@),
                    None => None,
                },
                type_: match self.type_ {
                    Some(ref t) => Some(t@),
                    None => None,
                },
                ttl: match self.ttl {
                    Some(ref t) => Some(t@),
                    None => None,
                },
                value: match self.value {
                    Some(ref v) => Some(v@),
                    None => None,
                },
            },
        )
    }
}

impl TagGroup {
    /// Record one field; unknown field names change nothing.
    fn apply_field(&mut self, field: &str, value: String)
        ensures
            final(self)@.0 == old(self)@.0,
            final(self)@.1 == set_field(old(self)@.1, field@, value@),
    {
        if strutil::str_eq(field, "hostname") {
            self.hostname = Some(value);
        } else if strutil::str_eq(field, "type") {
            self.type_ = Some(value);
        } else if strutil::str_eq(field, "ttl") {
            self.ttl = Some(value);
        } else if strutil::str_eq(field, "value") {
            self.value = Some(value);
        }
    }
}

/// The view of a parser group list.
spec fn groups_view(v: Seq<TagGroup>) -> Seq<(Seq<char>, TagGroupView)> {
    v.map_values(|g: TagGroup| g@)
}

/// The position of an identifier in the group list, if present.
fn find_group(groups: &Vec<TagGroup>, id: &str) -> (r: Option<usize>)
    ensures
        match r {
            Some(j) => j < groups@.len() && groups_view(groups@)[j as int].0 == id@,
            None => !group_key_in(groups_view(groups@), id@),
        },
{
    let n = groups.len();
    let mut i: usize = 0;
    while i < n
        invariant
            n == groups@.len(),
            i <= n,
            forall|j: int| 0 <= j < i ==> groups_view(groups@)[j].0 != id@,
        decreases n - i,
    {
        if strutil::str_eq(groups[i].identifier.as_str(), id) {
            proof {
                assert(groups_view(groups@)[i as int].0 == id@);
            }
            return Some(i);
        }
        i += 1;
    }
    proof {
        if group_key_in(groups_view(groups@), id@) {
            let w = choose|w: int|
                0 <= w < groups_view(groups@).len() && groups_view(groups@)[w].0 == id@;
            assert(groups_view(groups@)[w].0 != id@);
        }
    }
    None
}

/// Parse raw service tags of the shape
/// `external-dns.<identifier>.<field>=<value>` into DNS records.
///
/// Tags sharing an identifier form one group; within a group the last
/// occurrence of a field wins. A group must carry `hostname`, `type` and
/// `value`; `ttl` is optional but must be a 32-bit decimal when present,
/// and `type` must name a known record type — otherwise the whole group is
/// dropped and the remaining groups still parse.
#[verifier::rlimit(60)]
pub fn parse_dns_tags(tags: &Vec<String>) -> (r: Vec<DnsRecord>)
    ensures
        r.deep_view() == parse_dns_tags_spec(tags.deep_view()),
{
    let ghost tvs: Seq<Seq<char>> = tags.deep_view();
    let n = tags.len();
    let mut groups: Vec<TagGroup> = Vec::new();
    let mut i: usize = 0;
    proof {
        assert(groups_view(groups@) =~= Seq::<(Seq<char>, TagGroupView)>::empty());
        assert(tvs.take(0) =~= Seq::<Seq<char>>::empty());
    }
    while i < n
        invariant
            n == tags@.len(),
            tvs == tags.deep_view(),
            tvs.len() == n,
            i <= n,
            groups_view(groups@) == groups_of(tvs.take(i as int)),
            group_ids_unique(groups_view(groups@)),
        decreases n - i,
    {
        let tag = &tags[i];
        proof {
            assert(tvs[i as int] == tag@);
            assert(tvs.take(i as int + 1).drop_last() =~= tvs.take(i as int));
            assert(tvs.take(i as int + 1).last() == tvs[i as int]);
        }
        match strutil::strip_prefix(tag.as_str(), "external-dns.") {
            None => {
                proof {
                    assert(tag_parts(tag@) is None);
                }
            },
            Some(rest) => {
                match strutil::split_once(rest.as_str(), '.') {
                    None => {
                        proof {
                            assert(tag_parts(tag@) is None);
                        }
                    },
                    Some(id_rest) => {
                        let (identifier, rest2) = id_rest;
                        match strutil::split_once(rest2.as_str(), '=') {
                            None => {
                                proof {
                                    assert(tag_parts(tag@) is None);
                                }
                            },
                            Some(field_value) => {
                                let (field, value) = field_value;
                                proof {
                                    assert(tag_parts(tag@) == Some(
                                        (identifier@, field@, value@),
                                    ));
                                }
                                let ghost old_gv = groups_view(groups@);
                                match find_group(&groups, identifier.as_str()) {
                                    Some(j) => {
                                        let mut g = groups.remove(j);
                                        g.apply_field(field.as_str(), value);
                                        groups.insert(j, g);
                                        proof {
                                            let jc = choose|jc: int|
                                                0 <= jc < old_gv.len() && old_gv[jc].0
                                                    == identifier@;
                                            assert(jc == j as int);
                                            assert(groups_view(groups@) =~= old_gv.update(
                                                j as int,
                                                (
                                                    identifier@,
                                                    set_field(old_gv[j as int].1, field@, value@),
                                                ),
                                            ));
                                            assert(groups_view(groups@) == upsert_group(
                                                old_gv,
                                                identifier@,
                                                field@,
                                                value@,
                                            ));
                                        }
                                    },
                                    None => {
                                        let mut g = TagGroup {
                                            identifier,
                                            hostname: None,
                                            type_: None,
                                            ttl: None,
                                            value: None,
                                        };
                                        g.apply_field(field.as_str(), value);
                                        groups.push(g);
                                        proof {
                                            assert(groups_view(groups@) =~= old_gv.push(
                                                (g.identifier@, g@.1),
                                            ));
                                            assert(g@.1 == set_field(
                                                empty_group(),
                                                field@,
                                                value@,
                                            ));
                                            assert(groups_view(groups@) == upsert_group(
                                                old_gv,
                                                g.identifier@,
                                                field@,
                                                value@,
                                            ));
                                        }
                                    },
                                }
                            },
                        }
                    },
                }
            },
        }
        i += 1;
    }
    proof {
        assert(tvs.take(n as int) =~= tvs);
    }
    let ghost gvs = groups_view(groups@);
    let m = groups.len();
    let mut records: Vec<DnsRecord> = Vec::new();
    let mut j: usize = 0;
    proof {
        assert(records.deep_view() =~= Seq::<DnsRecordView>::empty());
        assert(gvs.take(0) =~= Seq::<(Seq<char>, TagGroupView)>::empty());
    }
    while j < m
        invariant
            m == groups@.len(),
            gvs == groups_view(groups@),
            gvs.len() == m,
            j <= m,
            records.deep_view() == records_of_groups(gvs.take(j as int)),
        decreases m - j,
    {
        proof {
            assert(gvs.take(j as int + 1).drop_last() =~= gvs.take(j as int));
            assert(gvs.take(j as int + 1).last() == gvs[j as int]);
            assert(gvs[j as int] == groups@[j as int]@);
        }
        let g = &groups[j];
        let ghost old_rvs = records.deep_view();
        match (&g.hostname, &g.type_, &g.value) {
            (Some(h), Some(t), Some(v)) => {
                match DnsType::from_str(t.as_str()) {
                    Some(type_) => {
                        match &g.ttl {
                            None => {
                                let rec = DnsRecord {
                                    hostname: h.clone(),
                                    type_,
                                    ttl: None,
                                    value: v.clone(),
                                };
                                proof {
                                    assert(record_of_group(gvs[j as int].1) == Some(rec@));
                                }
                                records.push(rec);
                                proof {
                                    assert(records.deep_view() =~= old_rvs.push(
                                        records_of_groups(gvs.take(j as int + 1)).last(),
                                    ));
                                }
                            },
                            Some(ts) => {
                                match strutil::parse_i32(ts.as_str()) {
                                    Some(ttl) => {
                                        let rec = DnsRecord {
                                            hostname: h.clone(),
                                            type_,
                                            ttl: Some(ttl),
                                            value: v.clone(),
                                        };
                                        proof {
                                            assert(record_of_group(gvs[j as int].1) == Some(
                                                rec@,
                                            ));
                                        }
                                        records.push(rec);
                                        proof {
                                            assert(records.deep_view() =~= old_rvs.push(
                                                records_of_groups(gvs.take(j as int + 1)).last(),
                                            ));
                                        }
                                    },
                                    None => {
                                        proof {
                                            assert(record_of_group(gvs[j as int].1) is None);
                                        }
                                    },
                                }
                            },
                        }
                    },
                    None => {
                        proof {
                            assert(record_of_group(gvs[j as int].1) is None);
                        }
                    },
                }
            },
            _ => {
                proof {
                    assert(record_of_group(gvs[j as int].1) is None);
                }
            },
        }
        j += 1;
    }
    proof {
        assert(gvs.take(m as int) =~= gvs);
    }
    records
}

/// Parse the tags of many services and gather every record they declare;
/// records repeat here when services repeat them, and collapse only in the
/// reconciliation diff.
pub fn parse_all_service_tags(services: &Vec<Vec<String>>) -> (r: Vec<DnsRecord>)
    ensures
        r.deep_view() == all_service_records(services.deep_view()),
{
    let ghost svs = services.deep_view();
    let n = services.len();
    let mut records: Vec<DnsRecord> = Vec::new();
    let mut i: usize = 0;
    proof {
        assert(svs.take(0) =~= Seq::<Seq<Seq<char>>>::empty());
        assert(records.deep_view() =~= Seq::<DnsRecordView>::empty());
    }
    while i < n
        invariant
            n == services@.len(),
            svs == services.deep_view(),
            svs.len() == n,
            i <= n,
            records.deep_view() == all_service_records(svs.take(i as int)),
        decreases n - i,
    {
        proof {
            assert(svs.take(i as int + 1).drop_last() =~= svs.take(i as int));
            assert(svs.take(i as int + 1).last() == svs[i as int]);
            assert(svs[i as int] == services@[i as int].deep_view());
        }
        let mut parsed = parse_dns_tags(&services[i]);
        let ghost old_rvs = records.deep_view();
        let ghost pvs = parsed.deep_view();
        let pn = parsed.len();
        let mut k: usize = 0;
        while k < pn
            invariant
                pn == parsed@.len(),
                pvs == parsed.deep_view(),
                pvs.len() == pn,
                k <= pn,
                records.deep_view() == old_rvs + pvs.take(k as int),
            decreases pn - k,
        {
            proof {
                assert(pvs[k as int] == parsed@[k as int]@);
            }
            let rec = parsed[k].duplicate();
            let ghost rvs_before = records.deep_view();
            records.push(rec);
            proof {
                assert(records.deep_view() =~= rvs_before.push(pvs[k as int]));
                assert(rvs_before.push(pvs[k as int]) =~= old_rvs + pvs.take(k as int + 1));
            }
            k += 1;
        }
        proof {
            assert(pvs.take(pn as int) =~= pvs);
        }
        i += 1;
    }
    proof {
        assert(svs.take(n as int) =~= svs);
    }
    records
}

/// The records declared by a list of services, each service's tag list
/// parsed on its own and the results concatenated.
pub open spec fn all_service_records(services: Seq<Seq<Seq<char>>>) -> Seq<DnsRecordView>
    decreases services.len(),
{
    if services.len() == 0 {
        Seq::empty()
    } else {
        all_service_records(services.drop_last()) + parse_dns_tags_spec(services.last())
    }
}

/// A session lease duration, in whole seconds. The coordination backend
/// only accepts leases up to a day.
#[derive(Clone, Copy, Debug, PartialEq, Eq, Structural)]
pub enum SessionDuration {
    Seconds(u32),
}

/// The longest lease the coordination backend accepts, in seconds.
pub const MAX_SESSION_SECS: u64 = 86400;

impl SessionDuration {
    /// Convert a duration in seconds into a lease duration; durations
    /// longer than a day are rejected.
    pub fn try_from_secs(secs: u64) -> (r: Option<SessionDuration>)
        ensures
            r == (if secs <= MAX_SESSION_SECS {
                Some(SessionDuration::Seconds(secs as u32))
            } else {
                None::<SessionDuration>
            }),
    {
        if secs <= MAX_SESSION_SECS {
            Some(SessionDuration::Seconds(secs as u32))
        } else {
            None
        }
    }

    /// The lease duration in seconds.
    pub fn as_secs(&self) -> (r: u32)
        ensures
            *self == SessionDuration::Seconds(r),
    {
        match self {
            SessionDuration::Seconds(s) => *s,
        }
    }

    /// How often a session under this lease must be renewed: half the
    /// lease, so a renewal is always attempted well before expiry.
    pub fn renew_period_secs(&self) -> (r: u32)
        ensures
            self->Seconds_0 / 2 == r,
    {
        match self {
            SessionDuration::Seconds(s) => *s / 2,
        }
    }
}

} // verus!
