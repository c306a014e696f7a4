//! A flat variant of the tag format: every tag carries a full key such as
//! `external-dns.hostname=…`, one service declares at most one record,
//! and a time-to-live that does not parse is simply absent rather than
//! fatal.

use vstd::prelude::*;

use crate::consul::{empty_group, TagGroupView};
use crate::strutil;

verus! {

/// A DNS intent declared by one service's flat tags.
#[derive(Debug)]
pub struct NomadDnsTag {
    pub hostname: String,
    pub type_: String,
    pub ttl: Option<i32>,
    pub value: String,
}

/// The mathematical value of a [`NomadDnsTag`].
pub struct NomadDnsTagView {
    pub hostname: Seq<char>,
    pub type_: Seq<char>,
    pub ttl: Option<i32>,
    pub value: Seq<char>,
}

impl View for NomadDnsTag {
    type V = NomadDnsTagView;

    open spec fn view(&self) -> NomadDnsTagView {
        NomadDnsTagView {
            hostname: self.hostname@,
            type_: self.type_@,
            ttl: self.ttl,
            value: self.value@,
        }
    }
}

/// Record one flat key/value pair; keys other than the four known ones
/// change nothing, and a repeated key overwrites (last write wins).
pub open spec fn flat_set_field(g: TagGroupView, key: Seq<char>, value: Seq<char>) -> TagGroupView {
    if key == "external-dns.hostname"@ {
        TagGroupView { hostname: Some(value), type_: g.type_, ttl: g.ttl, value: g.value }
    } else if key == "external-dns.type"@ {
        TagGroupView { hostname: g.hostname, type_: Some(value), ttl: g.ttl, value: g.value }
    } else if key == "external-dns.ttl"@ {
        TagGroupView { hostname: g.hostname, type_: g.type_, ttl: Some(value), value: g.value }
    } else if key == "external-dns.value"@ {
        TagGroupView { hostname: g.hostname, type_: g.type_, ttl: g.ttl, value: Some(value) }
    } else {
        g
    }
}

/// The key/value pair a flat tag carries: it must start with the
/// `external-dns.` prefix and contain exactly one `=`.
pub open spec fn flat_kv_of_tag(tag: Seq<char>) -> Option<(Seq<char>, Seq<char>)> {
    if "external-dns."@.is_prefix_of(tag) && strutil::count_char(tag, '=') == 1 {
        strutil::split_once_spec(tag, '=')
    } else {
        None
    }
}

/// The fields a list of flat tags accumulates, in order, last write wins.
pub open spec fn flat_fields(tags: Seq<Seq<char>>) -> TagGroupView
    decreases tags.len(),
{
    if tags.len() == 0 {
        empty_group()
    } else {
        let prev = flat_fields(tags.drop_last());
        match flat_kv_of_tag(tags.last()) {
            None => prev,
            Some(kv) => flat_set_field(prev, kv.0, kv.1),
        }
    }
}

/// The intent the accumulated fields denote: hostname, type and value are
/// required; a time-to-live is kept only when it parses.
pub open spec fn flat_tag_of_fields(g: TagGroupView) -> Option<NomadDnsTagView> {
    if g.hostname is Some && g.type_ is Some && g.value is Some {
        Some(
            NomadDnsTagView {
                hostname: g.hostname->0,
                type_: g.type_->0,
                ttl: match g.ttl {
                    None => None,
                    Some(ts) => strutil::i32_from_str_spec(ts),
                },
                value: g.value->0,
            },
        )
    } else {
        None
    }
}

/// What one service's flat tag list denotes.
pub open spec fn parse_dns_tags_spec(tags: Seq<Seq<char>>) -> Option<NomadDnsTagView> {
    flat_tag_of_fields(flat_fields(tags))
}

/// Parse one service's flat tags into a DNS intent. A tag must start with
/// `external-dns.` and contain exactly one `=` to count; later tags
/// overwrite earlier ones; hostname, type and value are required for the
/// service to declare anything at all.
pub fn parse_dns_tags(tags: &Vec<String>) -> (r: Option<NomadDnsTag>)
    ensures
        match r {
            Some(t) => parse_dns_tags_spec(tags.deep_view()) == Some(t@),
            None => parse_dns_tags_spec(tags.deep_view()) is None,
        },
{
    let ghost tvs: Seq<Seq<char>> = tags.deep_view();
    let mut hostname: Option<String> = None;
    let mut type_: Option<String> = None;
    let mut ttl: Option<String> = None;
    let mut value: Option<String> = None;
    let n = tags.len();
    let mut i: usize = 0;
    proof {
        assert(tvs.take(0) =~= Seq::<Seq<char>>::empty());
    }
    while i < n
        invariant
            n == tags@.len(),
            tvs == tags.deep_view(),
            tvs.len() == n,
            i <= n,
            flat_fields(tvs.take(i as int)) == (TagGroupView {
                hostname: match hostname {
                    Some(ref h) => Some(h@),
                    None => None,
                },
                type_: match type_ {
                    Some(ref t) => Some(t@),
                    None => None,
                },
                ttl: match ttl {
                    Some(ref t) => Some(t@),
                    None => None,
                },
                value: match value {
                    Some(ref v) => Some(v@),
                    None => None,
                },
            }),
        decreases n - i,
    {
        let tag = &tags[i];
        proof {
            assert(tvs[i as int] == tag@);
            assert(tvs.take(i as int + 1).drop_last() =~= tvs.take(i as int));
            assert(tvs.take(i as int + 1).last() == tvs[i as int]);
        }
        let prefixed = strutil::strip_prefix(tag.as_str(), "external-dns.").is_some();
        if prefixed && strutil::has_exactly_one(tag.as_str(), '=') {
            match strutil::split_once(tag.as_str(), '=') {
                Some(kv) => {
                    let (key, v) = kv;
                    proof {
                        assert(flat_kv_of_tag(tag@) == Some((key@, v@)));
                    }
                    if strutil::str_eq(key.as_str(), "external-dns.hostname") {
                        hostname = Some(v);
                    } else if strutil::str_eq(key.as_str(), "external-dns.type") {
                        type_ = Some(v);
                    } else if strutil::str_eq(key.as_str(), "external-dns.ttl") {
                        ttl = Some(v);
                    } else if strutil::str_eq(key.as_str(), "external-dns.value") {
                        value = Some(v);
                    }
                },
                None => {
                    proof {
                        assert(strutil::count_char(tag@, '=') == 1);
                        assert(flat_kv_of_tag(tag@) is None);
                    }
                },
            }
        } else {
            proof {
                assert(flat_kv_of_tag(tag@) is None);
            }
        }
        i += 1;
    }
    proof {
        assert(tvs.take(n as int) =~= tvs);
    }
    match (hostname, type_, value) {
        (Some(h), Some(t), Some(v)) => {
            let parsed_ttl: Option<i32> = match &ttl {
                None => None,
                Some(ts) => strutil::parse_i32(ts.as_str()),
            };
            Some(NomadDnsTag { hostname: h, type_: t, ttl: parsed_ttl, value: v })
        },
        _ => None,
    }
}

/// The first record any of the services declares, walking the services in
/// order.
pub open spec fn first_tag_spec(services: Seq<Seq<Seq<char>>>) -> Option<NomadDnsTagView>
    decreases services.len(),
{
    if services.len() == 0 {
        None
    } else {
        match parse_dns_tags_spec(services[0]) {
            Some(t) => Some(t),
            None => first_tag_spec(services.drop_first()),
        }
    }
}

/// The intent of the first service whose flat tags declare one.
pub fn first_dns_tag(services: &Vec<Vec<String>>) -> (r: Option<NomadDnsTag>)
    ensures
        match r {
            Some(t) => first_tag_spec(services.deep_view()) == Some(t@),
            None => first_tag_spec(services.deep_view()) is None,
        },
{
    let ghost svs: Seq<Seq<Seq<char>>> = services.deep_view();
    let n = services.len();
    let mut i: usize = 0;
    proof {
        assert(svs.skip(0) =~= svs);
    }
    while i < n
        invariant
            n == services@.len(),
            svs == services.deep_view(),
            svs.len() == n,
            i <= n,
            first_tag_spec(svs.skip(i as int)) == first_tag_spec(svs),
        decreases n - i,
    {
        proof {
            assert(svs[i as int] == services@[i as int].deep_view());
            assert(svs.skip(i as int)[0] == svs[i as int]);
            assert(svs.skip(i as int).drop_first() =~= svs.skip(i as int + 1));
        }
        match parse_dns_tags(&services[i]) {
            Some(t) => {
                return Some(t);
            },
            None => {},
        }
        i += 1;
    }
    proof {
        assert(svs.skip(n as int) =~= Seq::<Seq<Seq<char>>>::empty());
    }
    None
}

} // verus!
