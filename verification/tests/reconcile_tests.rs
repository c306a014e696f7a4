use consul_external_dns::consul::DnsRecord;
use consul_external_dns::dns_trait::DnsType;
use consul_external_dns::reconcile::ReconcilePass;
use consul_external_dns::state::{DnsState, StateError};

fn record(hostname: &str, type_: DnsType, ttl: Option<i32>, value: &str) -> DnsRecord {
    DnsRecord {
        hostname: hostname.to_string(),
        type_,
        ttl,
        value: value.to_string(),
    }
}

#[test]
fn scenario_create_from_empty_state() {
    // desired = [{a.com, A, 300, 1.1.1.1}], state = {} => one create,
    // resulting state tracks the new id with that record.
    let state = DnsState::new();
    let desired = vec![record("a.com", DnsType::A, Some(300), "1.1.1.1")];
    let pass = ReconcilePass::new(state, &desired);
    assert_eq!(pass.num_creates(), 1);
    assert_eq!(pass.num_deletes(), 0);
    assert_eq!(pass.create_at(0), &desired[0]);

    let new_state = pass
        .apply_results(&vec![Some("newId".to_string())], &vec![])
        .expect("a fully successful pass must yield a state to persist");
    assert_eq!(new_state.len(), 1);
    assert_eq!(
        new_state.get_record("newId").expect("the created id must be tracked"),
        &record("a.com", DnsType::A, Some(300), "1.1.1.1")
    );
}

#[test]
fn scenario_delete_all_when_desired_empty() {
    // desired = [], state = {id1: {a.com, A, 300, 1.1.1.1}} => one delete,
    // resulting state = {}.
    let mut state = DnsState::new();
    state
        .store_dns_record(
            "id1".to_string(),
            record("a.com", DnsType::A, Some(300), "1.1.1.1"),
        )
        .unwrap();
    let desired: Vec<DnsRecord> = vec![];
    let pass = ReconcilePass::new(state, &desired);
    assert_eq!(pass.num_creates(), 0);
    assert_eq!(pass.num_deletes(), 1);
    assert_eq!(pass.delete_at(0), "id1");

    let new_state = pass
        .apply_results(&vec![], &vec![true])
        .expect("a fully successful pass must yield a state to persist");
    assert_eq!(new_state.len(), 0);
    assert!(new_state.get_record("id1").is_none());
}

#[test]
fn second_pass_plans_nothing() {
    // After a successful pass, planning again with the same desired records
    // issues zero creates and zero deletes.
    let desired = vec![
        record("a.com", DnsType::A, Some(300), "1.1.1.1"),
        record("b.com", DnsType::CNAME, None, "a.com"),
    ];
    let pass = ReconcilePass::new(DnsState::new(), &desired);
    let converged = pass
        .apply_results(
            &vec![Some("id-a".to_string()), Some("id-b".to_string())],
            &vec![],
        )
        .expect("first pass succeeds");

    let second = ReconcilePass::new(converged, &desired);
    assert_eq!(second.num_creates(), 0);
    assert_eq!(second.num_deletes(), 0);
}

#[test]
fn convergence_on_diverged_state() {
    // state = {id1: r1, id2: r2}, desired = [r2, r3] => r1 is deleted,
    // r3 is created, and the new record set is exactly {r2, r3}.
    let r1 = record("old.com", DnsType::A, None, "10.0.0.1");
    let r2 = record("keep.com", DnsType::AAAA, Some(60), "::1");
    let r3 = record("new.com", DnsType::CNAME, None, "keep.com");
    let mut state = DnsState::new();
    state.store_dns_record("id1".to_string(), r1.duplicate()).unwrap();
    state.store_dns_record("id2".to_string(), r2.duplicate()).unwrap();

    let desired = vec![r2.duplicate(), r3.duplicate()];
    let pass = ReconcilePass::new(state, &desired);
    assert_eq!(pass.num_creates(), 1);
    assert_eq!(pass.create_at(0), &r3);
    assert_eq!(pass.num_deletes(), 1);
    assert_eq!(pass.delete_at(0), "id1");

    let new_state = pass
        .apply_results(&vec![Some("id3".to_string())], &vec![true])
        .expect("pass succeeds");
    assert_eq!(new_state.len(), 2);
    assert!(new_state.get_record("id1").is_none());
    assert_eq!(new_state.get_record("id2").unwrap(), &r2);
    assert_eq!(new_state.get_record("id3").unwrap(), &r3);
}

#[test]
fn duplicate_desired_records_create_once() {
    // Two services declaring the identical record collapse to one create.
    let r = record("a.com", DnsType::A, Some(300), "1.1.1.1");
    let desired = vec![r.duplicate(), r.duplicate()];
    let pass = ReconcilePass::new(DnsState::new(), &desired);
    assert_eq!(pass.num_creates(), 1);
    assert_eq!(pass.num_deletes(), 0);
}

#[test]
fn records_differing_in_ttl_are_distinct() {
    let desired = vec![
        record("a.com", DnsType::A, Some(300), "1.1.1.1"),
        record("a.com", DnsType::A, None, "1.1.1.1"),
    ];
    let pass = ReconcilePass::new(DnsState::new(), &desired);
    assert_eq!(pass.num_creates(), 2);
}

#[test]
fn failed_create_yields_no_state() {
    // If any create fails, nothing is persisted: the pass yields None.
    let desired = vec![
        record("a.com", DnsType::A, None, "1.1.1.1"),
        record("b.com", DnsType::A, None, "1.1.1.2"),
    ];
    let pass = ReconcilePass::new(DnsState::new(), &desired);
    assert_eq!(pass.num_creates(), 2);
    let outcome = pass.apply_results(&vec![Some("id-a".to_string()), None], &vec![]);
    assert!(outcome.is_none());
}

#[test]
fn failed_delete_yields_no_state() {
    let mut state = DnsState::new();
    state
        .store_dns_record("id1".to_string(), record("a.com", DnsType::A, None, "1.1.1.1"))
        .unwrap();
    let pass = ReconcilePass::new(state, &vec![]);
    assert_eq!(pass.num_deletes(), 1);
    let outcome = pass.apply_results(&vec![], &vec![false]);
    assert!(outcome.is_none());
}

#[test]
fn colliding_create_id_yields_no_state() {
    // A provider id that is already tracked cannot be accepted.
    let mut state = DnsState::new();
    state
        .store_dns_record("id1".to_string(), record("a.com", DnsType::A, None, "1.1.1.1"))
        .unwrap();
    let desired = vec![
        record("a.com", DnsType::A, None, "1.1.1.1"),
        record("b.com", DnsType::A, None, "1.1.1.2"),
    ];
    let pass = ReconcilePass::new(state, &desired);
    assert_eq!(pass.num_creates(), 1);
    let outcome = pass.apply_results(&vec![Some("id1".to_string())], &vec![]);
    assert!(outcome.is_none());
}

#[test]
fn store_dns_record_rejects_duplicate_id() {
    let mut state = DnsState::new();
    let r = record("a.com", DnsType::A, None, "1.1.1.1");
    assert!(state.store_dns_record("id1".to_string(), r.duplicate()).is_ok());
    assert_eq!(
        state.store_dns_record("id1".to_string(), r.duplicate()),
        Err(StateError::DuplicateRecordId)
    );
    assert_eq!(state.len(), 1);
}

#[test]
fn delete_dns_record_rejects_unknown_id() {
    let mut state = DnsState::new();
    assert_eq!(
        state.delete_dns_record("missing"),
        Err(StateError::UnknownRecordId)
    );
    state
        .store_dns_record("id1".to_string(), record("a.com", DnsType::A, None, "1.1.1.1"))
        .unwrap();
    assert!(state.delete_dns_record("id1").is_ok());
    assert_eq!(state.len(), 0);
}
