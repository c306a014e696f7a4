//! One reconciliation pass: diff the desired records against the tracked
//! state, plan the provider calls, and fold the call results back into a
//! new state.
//!
//! A pass is planned from a well-formed [`DnsState`] and the list of
//! desired records (duplicates collapse). The caller performs one provider
//! `create` per planned record and one `delete` per planned id, then hands
//! every outcome back; the pass yields the state to persist only when all
//! of them succeeded, so a partial failure never moves the persisted state.

use vstd::prelude::*;

use crate::consul::{DnsRecord, DnsRecordView};
use crate::state::{keys_set, lemma_map_of_dom, lemma_map_of_index, map_has_record, DnsState};

verus! {

/// Whether a record value occurs in a sequence of records.
pub open spec fn seq_has_record(s: Seq<DnsRecordView>, r: DnsRecordView) -> bool {
    exists|i: int| 0 <= i < s.len() && s[i] == r
}

/// The set of record values in a sequence.
pub open spec fn records_set(s: Seq<DnsRecordView>) -> Set<DnsRecordView> {
    Set::new(|r: DnsRecordView| seq_has_record(s, r))
}

/// Whether a key occurs in a sequence of keys.
pub open spec fn key_in_strs(s: Seq<Seq<char>>, k: Seq<char>) -> bool {
    exists|i: int| 0 <= i < s.len() && s[i] == k
}

/// Whether one of the first `n` provider answers assigned this id.
pub open spec fn some_id_is(ids: Seq<Option<Seq<char>>>, n: int, k: Seq<char>) -> bool {
    exists|i: int| 0 <= i < n && ids[i] == Some(k)
}

/// Whether a key stands in one of the first `e` entries and is not planned
/// for deletion: such keys survive the pass unchanged.
pub open spec fn kept_key(
    entries: Seq<(Seq<char>, DnsRecordView)>,
    dls: Seq<Seq<char>>,
    e: int,
    x: Seq<char>,
) -> bool {
    exists|a: int| 0 <= a < e && (#[trigger] entries[a]).0 == x && !key_in_strs(dls, x)
}

/// Whether a record occurs in a sequence of exec records.
fn vec_has_record(v: &Vec<DnsRecord>, record: &DnsRecord) -> (r: bool)
    ensures
        r == seq_has_record(v.deep_view(), record@),
{
    let ghost vs = v.deep_view();
    let n = v.len();
    let mut i: usize = 0;
    while i < n
        invariant
            n == v@.len(),
            vs == v.deep_view(),
            vs.len() == n,
            i <= n,
            forall|j: int| 0 <= j < i ==> vs[j] != record@,
        decreases n - i,
    {
        if v[i] == *record {
            proof {
                assert(vs[i as int] == record@);
            }
            return true;
        }
        i += 1;
    }
    proof {
        if seq_has_record(vs, record@) {
            let w = choose|w: int| 0 <= w < vs.len() && vs[w] == record@;
            assert(vs[w] != record@);
        }
    }
    false
}

/// Whether every outcome in a list reports success.
fn all_true(v: &Vec<bool>) -> (r: bool)
    ensures
        r == (forall|j: int| 0 <= j < v@.len() ==> v@[j]),
{
    let n = v.len();
    let mut i: usize = 0;
    while i < n
        invariant
            n == v@.len(),
            i <= n,
            forall|j: int| 0 <= j < i ==> v@[j],
        decreases n - i,
    {
        if !v[i] {
            return false;
        }
        i += 1;
    }
    true
}

/// Idempotence across passes: when a successful pass has made the tracked
/// record set equal to the desired set, a second pass planned from that
/// state against an unchanged desired set plans no create and no delete.
pub proof fn lemma_second_pass_is_empty(
    converged: Map<Seq<char>, DnsRecordView>,
    desired: Set<DnsRecordView>,
    second: &ReconcilePass,
)
    requires
        forall|rec: DnsRecordView| #![auto] map_has_record(converged, rec) == desired.contains(rec),
        second.wf(),
        second.current_map() == converged,
        second.desired_set() == desired,
    ensures
        second.creates_seq().len() == 0,
        second.deletes_seq().len() == 0,
{
    if second.creates_seq().len() > 0 {
        let c0 = second.creates_seq()[0];
        assert(second.desired_set().contains(c0) && !map_has_record(second.current_map(), c0));
        assert(map_has_record(converged, c0) == desired.contains(c0));
        assert(false);
    }
    if second.deletes_seq().len() > 0 {
        let k0 = second.deletes_seq()[0];
        assert(second.current_map().dom().contains(k0) && !second.desired_set().contains(
            second.current_map()[k0],
        ));
        assert(map_has_record(converged, converged[k0]));
        assert(false);
    }
}

/// A planned reconciliation pass: the tracked state it starts from, the
/// records that must be created at the provider, and the tracked ids that
/// must be deleted there.
pub struct ReconcilePass {
    current: DnsState,
    creates: Vec<DnsRecord>,
    deletes: Vec<String>,
    desired: Ghost<Set<DnsRecordView>>,
}

impl ReconcilePass {
    /// The map of records tracked when the pass was planned.
    pub closed spec fn current_map(&self) -> Map<Seq<char>, DnsRecordView> {
        self.current.spec_map()
    }

    /// The records the pass will ask the provider to create.
    pub closed spec fn creates_seq(&self) -> Seq<DnsRecordView> {
        self.creates.deep_view()
    }

    /// The tracked ids the pass will ask the provider to delete.
    pub closed spec fn deletes_seq(&self) -> Seq<Seq<char>> {
        self.deletes.deep_view()
    }

    /// The set of desired records the pass was planned against.
    pub closed spec fn desired_set(&self) -> Set<DnsRecordView> {
        self.desired@
    }

    /// Whether the state the pass starts from is well-formed.
    pub closed spec fn current_wf(&self) -> bool {
        self.current.wf()
    }

    /// The plan is exactly the diff between desired records and tracked
    /// state: every desired-but-untracked record is created once, every
    /// tracked-but-undesired id is deleted once, and nothing else.
    pub open spec fn wf(&self) -> bool {
        &&& self.current_wf()
        &&& forall|i: int|
            0 <= i < self.creates_seq().len() ==> self.desired_set().contains(
                #[trigger] self.creates_seq()[i],
            ) && !map_has_record(self.current_map(), self.creates_seq()[i])
        &&& forall|i: int, j: int|
            0 <= i < j < self.creates_seq().len() ==> self.creates_seq()[i]
                != self.creates_seq()[j]
        &&& forall|r: DnsRecordView|
            self.desired_set().contains(r) && !map_has_record(self.current_map(), r)
                ==> seq_has_record(self.creates_seq(), r)
        &&& forall|j: int|
            0 <= j < self.deletes_seq().len() ==> self.current_map().dom().contains(
                #[trigger] self.deletes_seq()[j],
            ) && !self.desired_set().contains(self.current_map()[self.deletes_seq()[j]])
        &&& forall|i: int, j: int|
            0 <= i < j < self.deletes_seq().len() ==> self.deletes_seq()[i]
                != self.deletes_seq()[j]
        &&& forall|k: Seq<char>|
            self.current_map().dom().contains(k) && !self.desired_set().contains(
                self.current_map()[k],
            ) ==> key_in_strs(self.deletes_seq(), k)
    }

    /// Whether every provider outcome handed back for this pass reports
    /// success: each create returned a distinct id unknown to the tracked
    /// state, and each delete succeeded.
    pub open spec fn results_ok(&self, ids: Seq<Option<Seq<char>>>, dels: Seq<bool>) -> bool {
        &&& forall|i: int| 0 <= i < ids.len() ==> (#[trigger] ids[i]) is Some
        &&& forall|i: int, j: int| 0 <= i < j < ids.len() ==> ids[i]->0 != ids[j]->0
        &&& forall|i: int|
            0 <= i < ids.len() ==> !self.current_map().dom().contains((#[trigger] ids[i])->0)
        &&& forall|j: int| 0 <= j < dels.len() ==> (#[trigger] dels[j])
    }

    /// How many records the pass will create.
    pub fn num_creates(&self) -> (r: usize)
        ensures
            r == self.creates_seq().len(),
    {
        self.creates.len()
    }

    /// The record to create at a position of the plan.
    pub fn create_at(&self, i: usize) -> (r: &DnsRecord)
        requires
            i < self.creates_seq().len(),
        ensures
            r@ == self.creates_seq()[i as int],
    {
        &self.creates[i]
    }

    /// How many tracked ids the pass will delete.
    pub fn num_deletes(&self) -> (r: usize)
        ensures
            r == self.deletes_seq().len(),
    {
        self.deletes.len()
    }

    /// The tracked id to delete at a position of the plan.
    pub fn delete_at(&self, i: usize) -> (r: &str)
        requires
            i < self.deletes_seq().len(),
        ensures
            r@ == self.deletes_seq()[i as int],
    {
        self.deletes[i].as_str()
    }

    /// Plan a pass: diff the desired records (duplicates collapse) against
    /// the tracked state. When the desired set already equals the tracked
    /// record set, the plan is empty, so running a pass twice without a
    /// change in desired state issues no provider call the second time.
    pub fn new(current: DnsState, desired: &Vec<DnsRecord>) -> (p: ReconcilePass)
        requires
            current.wf(),
        ensures
            p.wf(),
            p.current_map() == current.spec_map(),
            p.desired_set() == records_set(desired.deep_view()),
            (forall|r: DnsRecordView|
                records_set(desired.deep_view()).contains(r) == map_has_record(
                    current.spec_map(),
                    r,
                )) ==> p.creates_seq().len() == 0 && p.deletes_seq().len() == 0,
            forall|i: int, j: int|
                0 <= i < j < p.creates_seq().len() ==> p.creates_seq()[i] != p.creates_seq()[j],
    {
        let ghost dvs: Seq<DnsRecordView> = desired.deep_view();
        let n = desired.len();
        let mut creates: Vec<DnsRecord> = Vec::new();
        let mut i: usize = 0;
        while i < n
            invariant
                current.wf(),
                n == desired@.len(),
                dvs == desired.deep_view(),
                dvs.len() == n,
                i <= n,
                forall|a: int|
                    0 <= a < creates.deep_view().len() ==> seq_has_record(
                        dvs,
                        #[trigger] creates.deep_view()[a],
                    ) && !map_has_record(current.spec_map(), creates.deep_view()[a]),
                forall|a: int, b: int|
                    0 <= a < b < creates.deep_view().len() ==> creates.deep_view()[a]
                        != creates.deep_view()[b],
                forall|r: DnsRecordView|
                    seq_has_record(dvs.take(i as int), r) && !map_has_record(
                        current.spec_map(),
                        r,
                    ) ==> seq_has_record(creates.deep_view(), r),
            decreases n - i,
        {
            let d = &desired[i];
            proof {
                assert(dvs[i as int] == d@);
            }
            if !current.contains_record(d) && !vec_has_record(&creates, d) {
                let ghost old_cvs = creates.deep_view();
                creates.push(d.duplicate());
                proof {
                    assert(creates.deep_view() =~= old_cvs.push(d@));
                    assert(seq_has_record(dvs, d@));
                    assert(creates.deep_view()[old_cvs.len() as int] == d@);
                    assert forall|r: DnsRecordView|
                        seq_has_record(dvs.take(i as int + 1), r) && !map_has_record(
                            current.spec_map(),
                            r,
                        ) implies seq_has_record(creates.deep_view(), r) by {
                        let w = choose|w: int|
                            0 <= w < dvs.take(i as int + 1).len() && (#[trigger] dvs.take(
                                i as int + 1,
                            )[w]) == r;
                        if w < i as int {
                            assert(dvs.take(i as int)[w] == r);
                            assert(seq_has_record(old_cvs, r));
                            let a = choose|a: int| 0 <= a < old_cvs.len() && old_cvs[a] == r;
                            assert(creates.deep_view()[a] == r);
                        } else {
                            assert(r == d@);
                        }
                    }
                }
            } else {
                proof {
                    assert forall|r: DnsRecordView|
                        seq_has_record(dvs.take(i as int + 1), r) && !map_has_record(
                            current.spec_map(),
                            r,
                        ) implies seq_has_record(creates.deep_view(), r) by {
                        let w = choose|w: int|
                            0 <= w < dvs.take(i as int + 1).len() && (#[trigger] dvs.take(
                                i as int + 1,
                            )[w]) == r;
                        if w < i as int {
                            assert(dvs.take(i as int)[w] == r);
                        } else {
                            assert(r == d@);
                            assert(seq_has_record(creates.deep_view(), r));
                        }
                    }
                }
            }
            i += 1;
        }
        proof {
            assert(dvs.take(n as int) =~= dvs);
        }
        let m = current.len();
        let mut deletes: Vec<String> = Vec::new();
        let mut e: usize = 0;
        while e < m
            invariant
                current.wf(),
                m == current.entries_seq().len(),
                dvs == desired.deep_view(),
                n == desired@.len(),
                e <= m,
                forall|a: int|
                    0 <= a < deletes.deep_view().len() ==> current.spec_map().dom().contains(
                        #[trigger] deletes.deep_view()[a],
                    ) && !seq_has_record(dvs, current.spec_map()[deletes.deep_view()[a]]),
                forall|a: int|
                    0 <= a < deletes.deep_view().len() ==> exists|w: int|
                        0 <= w < e && current.entries_seq()[w].0
                            == #[trigger] deletes.deep_view()[a],
                forall|a: int, b: int|
                    0 <= a < b < deletes.deep_view().len() ==> deletes.deep_view()[a]
                        != deletes.deep_view()[b],
                forall|w: int|
                    0 <= w < e ==> seq_has_record(dvs, (#[trigger] current.entries_seq()[w]).1)
                        || key_in_strs(deletes.deep_view(), current.entries_seq()[w].0),
            decreases m - e,
        {
            let rec = current.record_at(e);
            if !vec_has_record(desired, rec) {
                let ghost old_dls = deletes.deep_view();
                let k = current.key_at(e);
                deletes.push(k.to_owned());
                proof {
                    lemma_map_of_index(current.entries_seq(), e as int);
                    assert(deletes.deep_view() =~= old_dls.push(k@));
                    assert forall|a: int, b: int|
                        0 <= a < b < deletes.deep_view().len() implies deletes.deep_view()[a]
                        != deletes.deep_view()[b] by {
                        if b == old_dls.len() as int {
                            let w = choose|w: int|
                                0 <= w < e && current.entries_seq()[w].0 == old_dls[a];
                            assert(current.entries_seq()[w].0 != current.entries_seq()[e as int].0);
                        }
                    }
                    assert(deletes.deep_view()[old_dls.len() as int] == k@);
                    assert forall|w: int|
                        0 <= w < e + 1 implies seq_has_record(
                        dvs,
                        (#[trigger] current.entries_seq()[w]).1,
                    ) || key_in_strs(deletes.deep_view(), current.entries_seq()[w].0) by {
                        if w < e {
                            if key_in_strs(old_dls, current.entries_seq()[w].0) {
                                let a = choose|a: int|
                                    0 <= a < old_dls.len() && old_dls[a]
                                        == current.entries_seq()[w].0;
                                assert(deletes.deep_view()[a] == current.entries_seq()[w].0);
                            }
                        } else {
                            assert(deletes.deep_view()[old_dls.len() as int]
                                == current.entries_seq()[e as int].0);
                        }
                    }
                }
            }
            e += 1;
        }
        let p = ReconcilePass {
            current,
            creates,
            deletes,
            desired: Ghost(records_set(dvs)),
        };
        proof {
            lemma_map_of_dom(p.current.entries_seq());
            assert forall|k: Seq<char>|
                p.current_map().dom().contains(k) && !p.desired_set().contains(
                    p.current_map()[k],
                ) implies key_in_strs(p.deletes_seq(), k) by {
                assert(keys_set(p.current.entries_seq()).contains(k));
                let w = choose|w: int|
                    0 <= w < p.current.entries_seq().len() && p.current.entries_seq()[w].0 == k;
                lemma_map_of_index(p.current.entries_seq(), w);
                assert(!seq_has_record(dvs, p.current.entries_seq()[w].1));
            }
            if forall|r: DnsRecordView|
                records_set(dvs).contains(r) == map_has_record(p.current.spec_map(), r) {
                if p.creates_seq().len() > 0 {
                    assert(records_set(dvs).contains(p.creates_seq()[0]) == map_has_record(
                        p.current.spec_map(),
                        p.creates_seq()[0],
                    ));
                    assert(false);
                }
                if p.deletes_seq().len() > 0 {
                    let k0 = p.deletes_seq()[0];
                    assert(map_has_record(p.current_map(), p.current_map()[k0]));
                    assert(records_set(dvs).contains(p.current_map()[k0]) == map_has_record(
                        p.current.spec_map(),
                        p.current_map()[k0],
                    ));
                    assert(false);
                }
            }
        }
        p
    }

    /// Find the position of a tracked id in the delete plan.
    fn find_delete(&self, k: &str) -> (r: Option<usize>)
        ensures
            match r {
                Some(j) => j < self.deletes_seq().len() && self.deletes_seq()[j as int] == k@,
                None => !key_in_strs(self.deletes_seq(), k@),
            },
    {
        let n = self.deletes.len();
        let mut i: usize = 0;
        while i < n
            invariant
                n == self.deletes@.len(),
                n == self.deletes_seq().len(),
                i <= n,
                forall|j: int| 0 <= j < i ==> self.deletes_seq()[j] != k@,
            decreases n - i,
        {
            if crate::strutil::str_eq(self.deletes[i].as_str(), k) {
                return Some(i);
            }
            i += 1;
        }
        proof {
            if key_in_strs(self.deletes_seq(), k@) {
                let w = choose|w: int|
                    0 <= w < self.deletes_seq().len() && self.deletes_seq()[w] == k@;
                assert(self.deletes_seq()[w] != k@);
            }
        }
        None
    }

    /// Fold the provider outcomes of this pass into the state to persist.
    ///
    /// `create_ids[i]` is the id the provider assigned to the `i`-th
    /// planned create, or `None` if that create failed; `delete_ok[j]`
    /// reports the `j`-th planned delete. The new state is returned only
    /// when every outcome succeeded; any failure yields `None`, so the
    /// caller keeps the previous persisted state and the next pass
    /// recomputes the same diff. On success the record set of the new
    /// state is exactly the desired set the pass was planned against.
    pub fn apply_results(&self, create_ids: &Vec<Option<String>>, delete_ok: &Vec<bool>) -> (r:
        Option<DnsState>)
        requires
            self.wf(),
            create_ids.deep_view().len() == self.creates_seq().len(),
            delete_ok@.len() == self.deletes_seq().len(),
        ensures
            (r is Some) == self.results_ok(create_ids.deep_view(), delete_ok@),
            match r {
                Some(m) => {
                    &&& m.wf()
                    &&& forall|k: Seq<char>|
                        #![auto]
                        m.spec_map().dom().contains(k) == ((self.current_map().dom().contains(k)
                            && !key_in_strs(self.deletes_seq(), k)) || some_id_is(
                            create_ids.deep_view(),
                            create_ids.deep_view().len() as int,
                            k,
                        ))
                    &&& forall|k: Seq<char>|
                        #![auto]
                        self.current_map().dom().contains(k) && !key_in_strs(
                            self.deletes_seq(),
                            k,
                        ) ==> m.spec_map()[k] == self.current_map()[k]
                    &&& forall|i: int|
                        0 <= i < create_ids.deep_view().len() ==> m.spec_map()[(
                        #[trigger] create_ids.deep_view()[i])->0] == self.creates_seq()[i]
                    &&& forall|rec: DnsRecordView|
                        #![auto]
                        map_has_record(m.spec_map(), rec) == self.desired_set().contains(rec)
                },
                None => true,
            },
    {
        let ghost ids = create_ids.deep_view();
        let ghost dls = self.deletes_seq();
        let ghost entries = self.current.entries_seq();
        if !all_true(delete_ok) {
            return None;
        }
        // Keep every tracked entry that is not planned for deletion.
        let mut updated = DnsState::new();
        let m = self.current.len();
        let mut e: usize = 0;
        while e < m
            invariant
                self.wf(),
                m == self.current.entries_seq().len(),
                entries == self.current.entries_seq(),
                dls == self.deletes_seq(),
                e <= m,
                updated.wf(),
                forall|x: Seq<char>|
                    #![trigger updated.spec_map().dom().contains(x)]
                    updated.spec_map().dom().contains(x) == kept_key(entries, dls, e as int, x),
                forall|x: Seq<char>|
                    #![trigger updated.spec_map().dom().contains(x)]
                    updated.spec_map().dom().contains(x) ==> self.current_map().dom().contains(x)
                        && updated.spec_map()[x] == self.current_map()[x],
            decreases m - e,
        {
            let k = self.current.key_at(e);
            if self.find_delete(k).is_none() {
                let rec = self.current.record_at(e).duplicate();
                proof {
                    lemma_map_of_index(entries, e as int);
                    if updated.spec_map().dom().contains(k@) {
                        let a = choose|a: int|
                            0 <= a < e && (#[trigger] entries[a]).0 == k@ && !key_in_strs(
                                dls,
                                k@,
                            );
                        assert(entries[a].0 != entries[e as int].0);
                        assert(false);
                    }
                }
                let ghost before = updated.spec_map();
                let res = updated.store_dns_record(k.to_owned(), rec);
                match res {
                    Ok(()) => {
                        proof {
                            assert forall|x: Seq<char>|
                                updated.spec_map().dom().contains(x) implies kept_key(
                                entries,
                                dls,
                                e as int + 1,
                                x,
                            ) by {
                                if x == k@ {
                                    assert(entries[e as int].0 == x && !key_in_strs(dls, x));
                                } else {
                                    assert(before.dom().contains(x));
                                    let a = choose|a: int|
                                        0 <= a < e && (#[trigger] entries[a]).0 == x
                                            && !key_in_strs(dls, x);
                                    assert(0 <= a < e + 1 && entries[a].0 == x);
                                }
                            }
                            assert forall|x: Seq<char>|
                                kept_key(entries, dls, e as int + 1, x) implies updated.spec_map()
                                .dom()
                                .contains(x) by {
                                let a = choose|a: int|
                                    0 <= a < e + 1 && (#[trigger] entries[a]).0 == x
                                        && !key_in_strs(dls, x);
                                if a < e {
                                    assert(kept_key(entries, dls, e as int, x));
                                } else {
                                    assert(x == k@);
                                }
                            }
                            assert forall|x: Seq<char>|
                                updated.spec_map().dom().contains(x) implies self.current_map()
                                .dom()
                                .contains(x) && updated.spec_map()[x]
                                == self.current_map()[x] by {
                                if x == k@ {
                                    assert(updated.spec_map()[x] == entries[e as int].1);
                                } else {
                                    assert(before.dom().contains(x));
                                }
                            }
                        }
                    },
                    Err(_) => {
                        proof {
                            assert(false);
                        }
                        return None;
                    },
                }
            } else {
                proof {
                    assert forall|x: Seq<char>|
                        updated.spec_map().dom().contains(x) implies kept_key(
                        entries,
                        dls,
                        e as int + 1,
                        x,
                    ) by {
                        let a = choose|a: int|
                            0 <= a < e && (#[trigger] entries[a]).0 == x && !key_in_strs(dls, x);
                        assert(0 <= a < e + 1 && entries[a].0 == x);
                    }
                    assert forall|x: Seq<char>|
                        kept_key(entries, dls, e as int + 1, x) implies updated.spec_map()
                        .dom()
                        .contains(x) by {
                        let a = choose|a: int|
                            0 <= a < e + 1 && (#[trigger] entries[a]).0 == x && !key_in_strs(
                                dls,
                                x,
                            );
                        if a == e {
                            assert(entries[e as int].0 == k@);
                            assert(key_in_strs(dls, x));
                            assert(false);
                        }
                        assert(kept_key(entries, dls, e as int, x));
                    }
                }
            }
            e += 1;
        }
        // Insert every created record under its provider-assigned id.
        let ghost base = updated.spec_map();
        proof {
            assert(e == m);
            assert forall|x: Seq<char>|
                base.dom().contains(x) implies self.current_map().dom().contains(x) && base[x]
                == self.current_map()[x] by {
                assert(updated.spec_map().dom().contains(x));
            }
            assert forall|x: Seq<char>| #![auto] base.dom().contains(x) == kept_key(
                entries,
                dls,
                entries.len() as int,
                x,
            ) by {
                assert(base.dom().contains(x) == updated.spec_map().dom().contains(x));
            }
        }
        let nc = self.creates.len();
        let mut i: usize = 0;
        while i < nc
            invariant
                self.wf(),
                nc == self.creates_seq().len(),
                entries == self.current.entries_seq(),
                dls == self.deletes_seq(),
                ids == create_ids.deep_view(),
                ids.len() == nc,
                create_ids@.len() == nc,
                i <= nc,
                updated.wf(),
                forall|x: Seq<char>|
                    #![trigger base.dom().contains(x)]
                    base.dom().contains(x) == kept_key(entries, dls, entries.len() as int, x),
                forall|x: Seq<char>|
                    #![trigger base.dom().contains(x)]
                    base.dom().contains(x) ==> self.current_map().dom().contains(x) && base[x]
                        == self.current_map()[x],
                forall|x: Seq<char>|
                    #![trigger updated.spec_map().dom().contains(x)]
                    updated.spec_map().dom().contains(x) == (base.dom().contains(x)
                        || some_id_is(ids, i as int, x)),
                forall|x: Seq<char>|
                    #![trigger base.dom().contains(x)]
                    base.dom().contains(x) ==> updated.spec_map()[x] == base[x],
                forall|a: int|
                    0 <= a < i ==> (#[trigger] ids[a]) is Some && !self.current_map().dom()
                        .contains(ids[a]->0) && updated.spec_map().dom().contains(ids[a]->0)
                        && updated.spec_map()[ids[a]->0] == self.creates_seq()[a],
                forall|a: int, b: int| 0 <= a < b < i ==> ids[a]->0 != ids[b]->0,
            decreases nc - i,
        {
            proof {
                assert(ids[i as int] == create_ids@[i as int].deep_view());
            }
            match &create_ids[i] {
                None => {
                    proof {
                        assert(ids[i as int] is None);
                    }
                    return None;
                },
                Some(id) => {
                    proof {
                        assert(ids[i as int] == Some(id@));
                    }
                    if self.current.contains_record_id(id.as_str()) {
                        return None;
                    }
                    if updated.contains_record_id(id.as_str()) {
                        proof {
                            assert(updated.spec_map().dom().contains(id@));
                            if base.dom().contains(id@) {
                                assert(self.current_map().dom().contains(id@));
                            }
                            assert(some_id_is(ids, i as int, id@));
                            let a = choose|a: int| 0 <= a < i && ids[a] == Some(id@);
                            assert(ids[a]->0 == ids[i as int]->0);
                        }
                        return None;
                    }
                    let rec = self.creates[i].duplicate();
                    let ghost before = updated.spec_map();
                    let res = updated.store_dns_record(id.clone(), rec);
                    match res {
                        Ok(()) => {
                            proof {
                                assert forall|x: Seq<char>|
                                    updated.spec_map().dom().contains(x) implies (base.dom()
                                    .contains(x) || some_id_is(ids, i as int + 1, x)) by {
                                    if x == id@ {
                                        assert(ids[i as int] == Some(x));
                                    } else {
                                        assert(before.dom().contains(x));
                                        if !base.dom().contains(x) {
                                            let a = choose|a: int|
                                                0 <= a < i && ids[a] == Some(x);
                                            assert(0 <= a < i + 1 && ids[a] == Some(x));
                                        }
                                    }
                                }
                                assert forall|x: Seq<char>|
                                    (base.dom().contains(x) || some_id_is(
                                        ids,
                                        i as int + 1,
                                        x,
                                    )) implies updated.spec_map().dom().contains(x) by {
                                    if base.dom().contains(x) {
                                        assert(before.dom().contains(x));
                                    } else {
                                        let a = choose|a: int|
                                            0 <= a < i + 1 && ids[a] == Some(x);
                                        if a < i {
                                            assert(some_id_is(ids, i as int, x));
                                            assert(before.dom().contains(x));
                                        } else {
                                            assert(x == id@);
                                        }
                                    }
                                }
                            }
                        },
                        Err(_) => {
                            proof {
                                assert(false);
                            }
                            return None;
                        },
                    }
                },
            }
            i += 1;
        }
        proof {
            lemma_map_of_dom(entries);
            assert forall|k: Seq<char>|
                updated.spec_map().dom().contains(k) implies ((self.current_map().dom().contains(
                k,
            ) && !key_in_strs(dls, k)) || some_id_is(ids, ids.len() as int, k)) by {
                if base.dom().contains(k) {
                    let a = choose|a: int|
                        0 <= a < entries.len() && (#[trigger] entries[a]).0 == k && !key_in_strs(
                            dls,
                            k,
                        );
                    lemma_map_of_index(entries, a);
                } else {
                    let a = choose|a: int| 0 <= a < nc && ids[a] == Some(k);
                    assert(some_id_is(ids, ids.len() as int, k));
                }
            }
            assert forall|k: Seq<char>|
                ((self.current_map().dom().contains(k) && !key_in_strs(dls, k)) || some_id_is(
                    ids,
                    ids.len() as int,
                    k,
                )) implies updated.spec_map().dom().contains(k) by {
                if self.current_map().dom().contains(k) && !key_in_strs(dls, k) {
                    assert(keys_set(entries).contains(k));
                    let a = choose|a: int| 0 <= a < entries.len() && entries[a].0 == k;
                    assert((#[trigger] entries[a]).0 == k);
                    assert(kept_key(entries, dls, entries.len() as int, k));
                    assert(base.dom().contains(k));
                } else {
                    let a = choose|a: int| 0 <= a < ids.len() && ids[a] == Some(k);
                    assert(0 <= a < i && ids[a] == Some(k));
                    assert(some_id_is(ids, i as int, k));
                }
            }
            assert forall|k: Seq<char>|
                self.current_map().dom().contains(k) && !key_in_strs(dls, k) implies updated
                .spec_map()[k] == self.current_map()[k] by {
                assert(keys_set(entries).contains(k));
                let a = choose|a: int| 0 <= a < entries.len() && entries[a].0 == k;
                assert((#[trigger] entries[a]).0 == k);
                assert(kept_key(entries, dls, entries.len() as int, k));
                assert(base.dom().contains(k));
            }
            // Convergence: the record set of the new state is the desired set.
            assert forall|rec: DnsRecordView|
                map_has_record(updated.spec_map(), rec) implies self.desired_set().contains(
                rec,
            ) by {
                let k = choose|k: Seq<char>|
                    updated.spec_map().dom().contains(k) && updated.spec_map()[k] == rec;
                if base.dom().contains(k) {
                    assert(updated.spec_map()[k] == self.current_map()[k]);
                    assert(!key_in_strs(dls, k)) by {
                        let a = choose|a: int|
                            0 <= a < entries.len() && (#[trigger] entries[a]).0 == k
                                && !key_in_strs(dls, k);
                    }
                    assert(self.desired_set().contains(self.current_map()[k]));
                } else {
                    let a = choose|a: int| 0 <= a < nc && ids[a] == Some(k);
                    assert(updated.spec_map()[ids[a]->0] == self.creates_seq()[a]);
                    assert(rec == self.creates_seq()[a]);
                }
            }
            assert forall|rec: DnsRecordView|
                self.desired_set().contains(rec) implies map_has_record(
                updated.spec_map(),
                rec,
            ) by {
                if map_has_record(self.current_map(), rec) {
                    let k = choose|k: Seq<char>|
                        self.current_map().dom().contains(k) && self.current_map()[k] == rec;
                    assert(!key_in_strs(dls, k)) by {
                        if key_in_strs(dls, k) {
                            let j = choose|j: int| 0 <= j < dls.len() && dls[j] == k;
                            assert(self.deletes_seq()[j] == k);
                            assert(!self.desired_set().contains(self.current_map()[k]));
                        }
                    }
                    assert(updated.spec_map().dom().contains(k));
                    assert(updated.spec_map()[k] == rec);
                } else {
                    assert(seq_has_record(self.creates_seq(), rec));
                    let a = choose|a: int|
                        0 <= a < self.creates_seq().len() && self.creates_seq()[a] == rec;
                    assert(ids[a] is Some);
                    assert(updated.spec_map().dom().contains(ids[a]->0));
                    assert(updated.spec_map()[ids[a]->0] == rec);
                }
            }
        }
        Some(updated)
    }
}

} // verus!
