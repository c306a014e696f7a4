//! The reconciliation state: the set of records we believe exist at the
//! DNS provider, keyed by the provider-assigned record id. The state is a
//! map from id to record, held as an association list with unique keys and
//! specified as a `Map` from key text to record value.

use vstd::prelude::*;

use crate::consul::{DnsRecord, DnsRecordView};

verus! {

/// Why a state mutation was refused.
#[derive(Clone, Copy, Debug, PartialEq, Eq, Structural)]
pub enum StateError {
    /// A record under this provider id is already tracked.
    DuplicateRecordId,
    /// No record under this provider id is tracked.
    UnknownRecordId,
}

struct StateEntry {
    id: String,
    record: DnsRecord,
}

/// The map an association list denotes; later entries win, though a
/// well-formed state never holds a key twice.
pub open spec fn map_of(s: Seq<(Seq<char>, DnsRecordView)>) -> Map<Seq<char>, DnsRecordView>
    decreases s.len(),
{
    if s.len() == 0 {
        Map::empty()
    } else {
        map_of(s.drop_last()).insert(s.last().0, s.last().1)
    }
}

/// No key occurs twice.
pub open spec fn unique_keys(s: Seq<(Seq<char>, DnsRecordView)>) -> bool {
    forall|i: int, j: int| 0 <= i < j < s.len() ==> s[i].0 != s[j].0
}

/// Whether some id in the map carries this record value.
pub open spec fn map_has_record(m: Map<Seq<char>, DnsRecordView>, r: DnsRecordView) -> bool {
    exists|k: Seq<char>| m.dom().contains(k) && m[k] == r
}

/// Whether some position in the association list carries this key.
pub open spec fn key_in(s: Seq<(Seq<char>, DnsRecordView)>, k: Seq<char>) -> bool {
    exists|i: int| 0 <= i < s.len() && s[i].0 == k
}

/// Whether some position in the association list carries this record.
pub open spec fn record_in(s: Seq<(Seq<char>, DnsRecordView)>, r: DnsRecordView) -> bool {
    exists|i: int| 0 <= i < s.len() && s[i].1 == r
}

/// The keys of an association list, as a set.
pub open spec fn keys_set(s: Seq<(Seq<char>, DnsRecordView)>) -> Set<Seq<char>> {
    Set::new(|k: Seq<char>| key_in(s, k))
}

pub proof fn lemma_map_of_dom(s: Seq<(Seq<char>, DnsRecordView)>)
    ensures
        map_of(s).dom() == keys_set(s),
    decreases s.len(),
{
    if s.len() == 0 {
        assert(map_of(s).dom() =~= keys_set(s));
    } else {
        lemma_map_of_dom(s.drop_last());
        assert forall|k: Seq<char>| map_of(s).dom().contains(k) implies keys_set(s).contains(
            k,
        ) by {
            if k == s.last().0 {
                assert(s[s.len() - 1].0 == k);
            } else {
                assert(keys_set(s.drop_last()).contains(k));
                let i = choose|i: int| 0 <= i < s.drop_last().len() && s.drop_last()[i].0 == k;
                assert(s[i].0 == k);
            }
        }
        assert forall|k: Seq<char>| keys_set(s).contains(k) implies map_of(s).dom().contains(
            k,
        ) by {
            let i = choose|i: int| 0 <= i < s.len() && s[i].0 == k;
            if i < s.len() - 1 {
                assert(s.drop_last()[i].0 == k);
                assert(keys_set(s.drop_last()).contains(k));
            }
        }
        assert(map_of(s).dom() =~= keys_set(s));
    }
}

pub proof fn lemma_map_of_index(s: Seq<(Seq<char>, DnsRecordView)>, i: int)
    requires
        unique_keys(s),
        0 <= i < s.len(),
    ensures
        map_of(s).dom().contains(s[i].0),
        map_of(s)[s[i].0] == s[i].1,
    decreases s.len(),
{
    if i == s.len() - 1 {
    } else {
        assert(unique_keys(s.drop_last()));
        assert(s.drop_last()[i] == s[i]);
        lemma_map_of_index(s.drop_last(), i);
        assert(s[i].0 != s.last().0);
    }
}

/// The record values of a well-formed association list are exactly the
/// record values of its map.
pub proof fn lemma_map_of_values(s: Seq<(Seq<char>, DnsRecordView)>)
    requires
        unique_keys(s),
    ensures
        forall|r: DnsRecordView| #![auto] map_has_record(map_of(s), r) == record_in(s, r),
{
    lemma_map_of_dom(s);
    assert forall|r: DnsRecordView| map_has_record(map_of(s), r) implies record_in(s, r) by {
        let k = choose|k: Seq<char>| map_of(s).dom().contains(k) && map_of(s)[k] == r;
        assert(keys_set(s).contains(k));
        let i = choose|i: int| 0 <= i < s.len() && s[i].0 == k;
        lemma_map_of_index(s, i);
        assert(s[i].1 == r);
    }
    assert forall|r: DnsRecordView| record_in(s, r) implies map_has_record(map_of(s), r) by {
        let i = choose|i: int| 0 <= i < s.len() && s[i].1 == r;
        lemma_map_of_index(s, i);
        assert(map_of(s).dom().contains(s[i].0) && map_of(s)[s[i].0] == r);
    }
}

pub proof fn lemma_map_of_remove(s: Seq<(Seq<char>, DnsRecordView)>, j: int)
    requires
        unique_keys(s),
        0 <= j < s.len(),
    ensures
        map_of(s.remove(j)) == map_of(s).remove(s[j].0),
    decreases s.len(),
{
    lemma_map_of_dom(s.drop_last());
    if j == s.len() - 1 {
        assert(!key_in(s.drop_last(), s.last().0)) by {
            if key_in(s.drop_last(), s.last().0) {
                let i = choose|i: int|
                    0 <= i < s.drop_last().len() && s.drop_last()[i].0 == s.last().0;
                assert(s[i].0 == s[s.len() - 1].0);
            }
        }
        assert(!keys_set(s.drop_last()).contains(s.last().0));
        assert(s.remove(j) =~= s.drop_last());
        assert(!map_of(s.drop_last()).dom().contains(s.last().0));
        assert(map_of(s).remove(s.last().0) =~= map_of(s.drop_last()));
    } else {
        assert(unique_keys(s.drop_last()));
        assert(s.drop_last()[j] == s[j]);
        lemma_map_of_remove(s.drop_last(), j);
        assert(s.remove(j).drop_last() =~= s.drop_last().remove(j));
        assert(s.remove(j).last() == s.last());
        assert(map_of(s.remove(j)) == map_of(s.drop_last()).remove(s[j].0).insert(
            s.last().0,
            s.last().1,
        ));
        assert(s[j].0 != s.last().0);
        assert(map_of(s.drop_last()).remove(s[j].0).insert(s.last().0, s.last().1)
            =~= map_of(s.drop_last()).insert(s.last().0, s.last().1).remove(s[j].0));
    }
}

/// The persisted view of the records we believe exist at the provider,
/// keyed by provider record id.
pub struct DnsState {
    entries: Vec<StateEntry>,
}

impl DnsState {
    /// The association list under this state, as plain values.
    pub closed spec fn entries_seq(&self) -> Seq<(Seq<char>, DnsRecordView)> {
        self.entries@.map_values(|e: StateEntry| (e.id@, e.record@))
    }

    /// The map this state denotes.
    pub open spec fn spec_map(&self) -> Map<Seq<char>, DnsRecordView> {
        map_of(self.entries_seq())
    }

    /// Well-formed: no provider id is tracked twice.
    pub open spec fn wf(&self) -> bool {
        unique_keys(self.entries_seq())
    }

    /// Whether some tracked id carries this record value.
    pub open spec fn has_record(&self, r: DnsRecordView) -> bool {
        map_has_record(self.spec_map(), r)
    }

    /// The empty state: nothing is believed to exist at the provider.
    pub fn new() -> (r: DnsState)
        ensures
            r.wf(),
            r.spec_map() == Map::<Seq<char>, DnsRecordView>::empty(),
            r.entries_seq() == Seq::<(Seq<char>, DnsRecordView)>::empty(),
    {
        let r = DnsState { entries: Vec::new() };
        proof {
            assert(r.entries_seq() =~= Seq::<(Seq<char>, DnsRecordView)>::empty());
        }
        r
    }

    /// How many records are tracked.
    pub fn len(&self) -> (r: usize)
        ensures
            r == self.entries_seq().len(),
    {
        self.entries.len()
    }

    /// The provider id of the tracked record at a position.
    pub fn key_at(&self, i: usize) -> (r: &str)
        requires
            i < self.entries_seq().len(),
        ensures
            r@ == self.entries_seq()[i as int].0,
    {
        self.entries[i].id.as_str()
    }

    /// The tracked record at a position.
    pub fn record_at(&self, i: usize) -> (r: &DnsRecord)
        requires
            i < self.entries_seq().len(),
        ensures
            r@ == self.entries_seq()[i as int].1,
    {
        &self.entries[i].record
    }

    /// Whether a provider id is tracked.
    pub fn contains_record_id(&self, record_id: &str) -> (r: bool)
        ensures
            r == self.spec_map().dom().contains(record_id@),
    {
        proof {
            lemma_map_of_dom(self.entries_seq());
        }
        let n = self.entries.len();
        let mut i: usize = 0;
        while i < n
            invariant
                n == self.entries_seq().len(),
                n == self.entries@.len(),
                i <= n,
                forall|j: int| 0 <= j < i ==> self.entries_seq()[j].0 != record_id@,
            decreases n - i,
        {
            if crate::strutil::str_eq(self.entries[i].id.as_str(), record_id) {
                proof {
                    lemma_map_of_dom(self.entries_seq());
                    assert(self.entries_seq()[i as int].0 == record_id@);
                    assert(keys_set(self.entries_seq()).contains(record_id@));
                }
                return true;
            }
            i += 1;
        }
        proof {
            if self.spec_map().dom().contains(record_id@) {
                assert(keys_set(self.entries_seq()).contains(record_id@));
                let w = choose|w: int|
                    0 <= w < self.entries_seq().len() && self.entries_seq()[w].0 == record_id@;
                assert(self.entries_seq()[w].0 != record_id@);
            }
        }
        false
    }

    /// The tracked record under a provider id, if any.
    pub fn get_record(&self, record_id: &str) -> (r: Option<&DnsRecord>)
        requires
            self.wf(),
        ensures
            match r {
                Some(rec) => self.spec_map().dom().contains(record_id@)
                    && self.spec_map()[record_id@] == rec@,
                None => !self.spec_map().dom().contains(record_id@),
            },
    {
        proof {
            lemma_map_of_dom(self.entries_seq());
        }
        let n = self.entries.len();
        let mut i: usize = 0;
        while i < n
            invariant
                self.wf(),
                n == self.entries_seq().len(),
                n == self.entries@.len(),
                i <= n,
                forall|j: int| 0 <= j < i ==> self.entries_seq()[j].0 != record_id@,
            decreases n - i,
        {
            if crate::strutil::str_eq(self.entries[i].id.as_str(), record_id) {
                proof {
                    lemma_map_of_index(self.entries_seq(), i as int);
                }
                return Some(&self.entries[i].record);
            }
            i += 1;
        }
        proof {
            if self.spec_map().dom().contains(record_id@) {
                assert(keys_set(self.entries_seq()).contains(record_id@));
                let w = choose|w: int|
                    0 <= w < self.entries_seq().len() && self.entries_seq()[w].0 == record_id@;
                assert(self.entries_seq()[w].0 != record_id@);
            }
        }
        None
    }

    /// Whether any tracked id carries this record value.
    pub fn contains_record(&self, record: &DnsRecord) -> (r: bool)
        requires
            self.wf(),
        ensures
            r == self.has_record(record@),
    {
        proof {
            lemma_map_of_values(self.entries_seq());
        }
        let n = self.entries.len();
        let mut i: usize = 0;
        while i < n
            invariant
                self.wf(),
                n == self.entries_seq().len(),
                n == self.entries@.len(),
                i <= n,
                forall|j: int| 0 <= j < i ==> self.entries_seq()[j].1 != record@,
            decreases n - i,
        {
            if self.entries[i].record == *record {
                proof {
                    lemma_map_of_values(self.entries_seq());
                    assert(self.entries_seq()[i as int].1 == record@);
                    assert(record_in(self.entries_seq(), record@));
                    assert(map_has_record(self.spec_map(), record@));
                }
                return true;
            }
            i += 1;
        }
        proof {
            if self.has_record(record@) {
                assert(record_in(self.entries_seq(), record@));
                let w = choose|w: int|
                    0 <= w < self.entries_seq().len() && self.entries_seq()[w].1 == record@;
                assert(self.entries_seq()[w].1 != record@);
            }
        }
        false
    }

    /// Track a record under a freshly assigned provider id. Tracking an id
    /// twice is refused and leaves the state unchanged.
    pub fn store_dns_record(&mut self, provider_record_id: String, dns_record: DnsRecord) -> (r:
        Result<(), StateError>)
        requires
            old(self).wf(),
        ensures
            final(self).wf(),
            match r {
                Ok(()) => !old(self).spec_map().dom().contains(provider_record_id@)
                    && final(self).spec_map() == old(self).spec_map().insert(
                    provider_record_id@,
                    dns_record@,
                ) && final(self).entries_seq() == old(self).entries_seq().push(
                    (provider_record_id@, dns_record@),
                ),
                Err(e) => e == StateError::DuplicateRecordId && old(self).spec_map().dom().contains(
                    provider_record_id@,
                ) && *final(self) == *old(self),
            },
    {
        if self.contains_record_id(provider_record_id.as_str()) {
            return Err(StateError::DuplicateRecordId);
        }
        proof {
            lemma_map_of_dom(self.entries_seq());
        }
        self.entries.push(StateEntry { id: provider_record_id, record: dns_record });
        proof {
            assert(self.entries_seq() =~= old(self).entries_seq().push(
                (provider_record_id@, dns_record@),
            ));
            assert(self.entries_seq().drop_last() =~= old(self).entries_seq());
            assert forall|a: int, b: int| 0 <= a < b < self.entries_seq().len() implies self
                .entries_seq()[a].0 != self.entries_seq()[b].0 by {
                if b < self.entries_seq().len() - 1 {
                    assert(old(self).entries_seq()[a].0 != old(self).entries_seq()[b].0);
                } else {
                    assert(old(self).entries_seq()[a].0 == self.entries_seq()[a].0);
                }
            }
        }
        Ok(())
    }

    /// Stop tracking the record under a provider id. An unknown id is
    /// refused and leaves the state unchanged.
    pub fn delete_dns_record(&mut self, record_id: &str) -> (r: Result<(), StateError>)
        requires
            old(self).wf(),
        ensures
            final(self).wf(),
            match r {
                Ok(()) => old(self).spec_map().dom().contains(record_id@)
                    && final(self).spec_map() == old(self).spec_map().remove(record_id@),
                Err(e) => e == StateError::UnknownRecordId && !old(self).spec_map().dom().contains(
                    record_id@,
                ) && *final(self) == *old(self),
            },
    {
        proof {
            lemma_map_of_dom(self.entries_seq());
        }
        let n = self.entries.len();
        let mut i: usize = 0;
        while i < n
            invariant
                *self == *old(self),
                old(self).wf(),
                n == self.entries_seq().len(),
                n == self.entries@.len(),
                i <= n,
                forall|j: int| 0 <= j < i ==> self.entries_seq()[j].0 != record_id@,
            decreases n - i,
        {
            if crate::strutil::str_eq(self.entries[i].id.as_str(), record_id) {
                proof {
                    lemma_map_of_dom(self.entries_seq());
                    lemma_map_of_remove(self.entries_seq(), i as int);
                    assert(self.entries_seq()[i as int].0 == record_id@);
                    assert(keys_set(self.entries_seq()).contains(record_id@));
                }
                self.entries.remove(i);
                proof {
                    assert(self.entries_seq() =~= old(self).entries_seq().remove(i as int));
                    let s = old(self).entries_seq();
                    assert forall|a: int, b: int|
                        0 <= a < b < self.entries_seq().len() implies self.entries_seq()[a].0
                        != self.entries_seq()[b].0 by {
                        let a0 = if a < i as int { a } else { a + 1 };
                        let b0 = if b < i as int { b } else { b + 1 };
                        assert(self.entries_seq()[a] == s[a0]);
                        assert(self.entries_seq()[b] == s[b0]);
                        assert(s[a0].0 != s[b0].0);
                    }
                }
                return Ok(());
            }
            i += 1;
        }
        proof {
            if self.spec_map().dom().contains(record_id@) {
                assert(keys_set(self.entries_seq()).contains(record_id@));
                let w = choose|w: int|
                    0 <= w < self.entries_seq().len() && self.entries_seq()[w].0 == record_id@;
                assert(self.entries_seq()[w].0 != record_id@);
            }
        }
        Err(StateError::UnknownRecordId)
    }

    /// An independent copy with the same tracked records.
    pub fn duplicate(&self) -> (r: DnsState)
        ensures
            r.entries_seq() == self.entries_seq(),
            r.spec_map() == self.spec_map(),
            r.wf() == self.wf(),
    {
        let n = self.entries.len();
        let mut entries: Vec<StateEntry> = Vec::new();
        let mut i: usize = 0;
        while i < n
            invariant
                n == self.entries@.len(),
                i <= n,
                entries@.len() == i,
                forall|j: int|
                    0 <= j < i ==> (entries@[j].id@, entries@[j].record@) == self.entries_seq()[j],
            decreases n - i,
        {
            let e = &self.entries[i];
            entries.push(StateEntry { id: e.id.clone(), record: e.record.duplicate() });
            i += 1;
        }
        let r = DnsState { entries };
        proof {
            assert(r.entries_seq() =~= self.entries_seq());
        }
        r
    }
}

} // verus!
