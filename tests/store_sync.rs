use grid_sdk::batch_store::{Batch, BatchStatus, BatchStore};
use grid_sdk::commit_store::{Commit, CommitStore};
use grid_sdk::coordinator::Coordinator;
use grid_sdk::error::StoreError;
use grid_sdk::protocol::{protocol_version_from_header, ProtocolVersion};
use grid_sdk::role_store::{Operation, Role, StateChange};
use grid_sdk::routes::{get_role, list_roles_for_organization};
use grid_sdk::scope::{scope_of, Scope};

fn sid(s: &str) -> Option<String> {
    Some(s.to_string())
}

fn commit(service: &str, num: u64, id: &str, prev: &str) -> Commit {
    Commit {
        service_id: sid(service),
        commit_num: num,
        commit_id: id.to_string(),
        previous_commit_id: prev.to_string(),
    }
}

fn change(op: Operation, org: &str, name: &str, description: &str) -> StateChange {
    StateChange {
        op,
        role: Role {
            org_id: org.to_string(),
            name: name.to_string(),
            description: description.to_string(),
            last_commit_num: 0,
        },
    }
}

fn batch(id: &str, sig: &str) -> Batch {
    Batch {
        batch_id: id.to_string(),
        header_signature: sig.to_string(),
        submitter: "client".to_string(),
        submitted_at: 100,
        status: BatchStatus::Pending,
    }
}

fn role_names(c: &Coordinator, service: &Option<String>, org: &str) -> Vec<(String, String, u64)> {
    let page = list_roles_for_organization(c.role_store(), &org.to_string(), service, 0, 100);
    page.items
        .iter()
        .map(|r| (r.name.clone(), r.description.clone(), r.last_commit_num))
        .collect()
}

#[test]
fn added_role_is_seen_in_its_scope_only() {
    let mut c = Coordinator::new();
    let r = c.apply_commit(
        commit("s1", 1, "c1", ""),
        vec![change(Operation::Add, "o1", "admin", "administrators")],
    );
    assert_eq!(r, Ok(()));
    let found = get_role(c.role_store(), &"o1".to_string(), &"admin".to_string(), &sid("s1"));
    let role = found.ok().unwrap();
    assert_eq!(role.org_id, "o1");
    assert_eq!(role.name, "admin");
    assert_eq!(role.description, "administrators");
    assert_eq!(role.last_commit_num, 1);
    let other = get_role(c.role_store(), &"o1".to_string(), &"admin".to_string(), &sid("s2"));
    assert_eq!(other.err(), Some(StoreError::NotFound));
    let global = get_role(c.role_store(), &"o1".to_string(), &"admin".to_string(), &None);
    assert_eq!(global.err(), Some(StoreError::NotFound));
}

#[test]
fn rollback_restores_first_commit_value() {
    let mut c = Coordinator::new();
    assert_eq!(
        c.apply_commit(commit("s1", 1, "c1", ""), vec![change(Operation::Add, "o1", "admin", "v1")]),
        Ok(())
    );
    assert_eq!(
        c.apply_commit(
            commit("s1", 2, "c2", "c1"),
            vec![change(Operation::Update, "o1", "admin", "v2")]
        ),
        Ok(())
    );
    let r = get_role(c.role_store(), &"o1".to_string(), &"admin".to_string(), &sid("s1"));
    assert_eq!(r.ok().unwrap().description, "v2");
    assert_eq!(c.rollback_to(&sid("s1"), 1), Ok(()));
    let r = get_role(c.role_store(), &"o1".to_string(), &"admin".to_string(), &sid("s1"));
    let role = r.ok().unwrap();
    assert_eq!(role.description, "v1");
    assert_eq!(role.last_commit_num, 1);
    let head = c.commit_store().current(&sid("s1")).unwrap();
    assert_eq!(head.commit_num, 1);
    assert_eq!(head.commit_id, "c1");
}

#[test]
fn resubmitting_batch_same_signature_succeeds_other_conflicts() {
    let mut store = BatchStore::new();
    assert_eq!(store.submit(batch("b1", "x")), Ok(()));
    assert_eq!(store.submit(batch("b1", "x")), Ok(()));
    assert_eq!(store.get_status(&"b1".to_string()), Ok(BatchStatus::Pending));
    assert_eq!(store.submit(batch("b1", "y")), Err(StoreError::Conflict));
    assert_eq!(store.get_status(&"b2".to_string()), Err(StoreError::NotFound));
}

#[test]
fn submit_twice_keeps_status() {
    let mut store = BatchStore::new();
    assert_eq!(store.submit(batch("b1", "x")), Ok(()));
    assert_eq!(store.update_status(&"b1".to_string(), BatchStatus::Valid), Ok(()));
    let first = store.get_status(&"b1".to_string());
    assert_eq!(store.submit(batch("b1", "x")), Ok(()));
    assert_eq!(store.get_status(&"b1".to_string()), first);
    assert_eq!(first, Ok(BatchStatus::Valid));
}

#[test]
fn batch_status_transitions() {
    let mut store = BatchStore::new();
    assert_eq!(store.update_status(&"b9".to_string(), BatchStatus::Valid), Err(StoreError::NotFound));
    assert_eq!(store.submit(batch("b1", "x")), Ok(()));
    assert_eq!(store.update_status(&"b1".to_string(), BatchStatus::Committed), Err(StoreError::InvalidState));
    assert_eq!(store.update_status(&"b1".to_string(), BatchStatus::Valid), Ok(()));
    assert_eq!(store.update_status(&"b1".to_string(), BatchStatus::Committed), Ok(()));
    assert_eq!(store.update_status(&"b1".to_string(), BatchStatus::Pending), Err(StoreError::InvalidState));
    assert_eq!(store.get_status(&"b1".to_string()), Ok(BatchStatus::Committed));
    assert_eq!(store.update_status(&"b1".to_string(), BatchStatus::Unknown), Ok(()));
    assert_eq!(store.update_status(&"b1".to_string(), BatchStatus::Invalid), Ok(()));
    assert_eq!(store.get_status(&"b1".to_string()), Ok(BatchStatus::Invalid));
}

#[test]
fn mismatched_predecessor_is_rejected_and_changes_nothing() {
    let mut c = Coordinator::new();
    assert_eq!(c.apply_commit(commit("s1", 1, "c1", ""), vec![change(Operation::Add, "o1", "a", "d")]), Ok(()));
    let r = c.apply_commit(commit("s1", 2, "c2", "other"), vec![change(Operation::Add, "o1", "b", "d")]);
    assert_eq!(r, Err(StoreError::Conflict));
    assert_eq!(c.commit_store().current(&sid("s1")).unwrap().commit_num, 1);
    assert_eq!(role_names(&c, &sid("s1"), "o1"), vec![("a".to_string(), "d".to_string(), 1)]);
}

#[test]
fn commit_numbers_follow_applies() {
    let mut store = CommitStore::new();
    assert!(store.current(&sid("s1")).is_none());
    assert_eq!(store.apply(&commit("s1", 1, "c1", "")), Ok(()));
    assert_eq!(store.apply(&commit("s1", 3, "c3", "c1")), Err(StoreError::Conflict));
    assert_eq!(store.apply(&commit("s1", 2, "c2", "c1")), Ok(()));
    assert_eq!(store.apply(&commit("s1", 3, "c3", "c2")), Ok(()));
    let head = store.current(&sid("s1")).unwrap();
    assert_eq!(head.commit_num, 3);
    assert_eq!(head.commit_id, "c3");
    assert!(store.current(&sid("s2")).is_none());
    assert_eq!(store.rollback_to(&sid("s1"), 7), Err(StoreError::NotFound));
    assert_eq!(store.rollback_to(&sid("s1"), 0), Err(StoreError::NotFound));
    assert_eq!(store.rollback_to(&sid("s1"), 2), Ok(()));
    assert_eq!(store.current(&sid("s1")).unwrap().commit_id, "c2");
}

#[test]
fn rollback_then_reapply_gives_same_state() {
    let mut c = Coordinator::new();
    assert_eq!(c.apply_commit(commit("s1", 1, "c1", ""), vec![change(Operation::Add, "o1", "a", "d1"), change(Operation::Add, "o1", "b", "d1")]), Ok(()));
    let third = || vec![change(Operation::Delete, "o1", "a", ""), change(Operation::Update, "o1", "b", "d2"), change(Operation::Add, "o1", "c", "d2")];
    assert_eq!(c.apply_commit(commit("s1", 2, "c2", "c1"), third()), Ok(()));
    let before = role_names(&c, &sid("s1"), "o1");
    assert_eq!(c.rollback_to(&sid("s1"), 1), Ok(()));
    assert_eq!(role_names(&c, &sid("s1"), "o1"), vec![("a".to_string(), "d1".to_string(), 1), ("b".to_string(), "d1".to_string(), 1)]);
    assert_eq!(c.apply_commit(commit("s1", 2, "c2", "c1"), third()), Ok(()));
    assert_eq!(role_names(&c, &sid("s1"), "o1"), before);
}

#[test]
fn rollback_at_or_above_head_is_noop() {
    let mut c = Coordinator::new();
    assert_eq!(c.rollback_to(&sid("s1"), 0), Ok(()));
    assert_eq!(c.apply_commit(commit("s1", 1, "c1", ""), vec![change(Operation::Add, "o1", "a", "d")]), Ok(()));
    assert_eq!(c.rollback_to(&sid("s1"), 1), Ok(()));
    assert_eq!(c.rollback_to(&sid("s1"), 5), Ok(()));
    assert_eq!(c.rollback_to(&sid("s1"), 0), Err(StoreError::NotFound));
    assert_eq!(role_names(&c, &sid("s1"), "o1").len(), 1);
}

#[test]
fn failing_change_aborts_whole_commit() {
    let mut c = Coordinator::new();
    let r = c.apply_commit(
        commit("s1", 1, "c1", ""),
        vec![change(Operation::Add, "o1", "a", "d"), change(Operation::Update, "o1", "missing", "d")],
    );
    assert_eq!(r, Err(StoreError::NotFound));
    assert!(c.commit_store().current(&sid("s1")).is_none());
    assert!(role_names(&c, &sid("s1"), "o1").is_empty());
    let dup = c.apply_commit(
        commit("s1", 1, "c1", ""),
        vec![change(Operation::Add, "o1", "a", "d"), change(Operation::Add, "o1", "a", "e")],
    );
    assert_eq!(dup, Err(StoreError::Conflict));
    assert!(role_names(&c, &sid("s1"), "o1").is_empty());
}

#[test]
fn tenants_do_not_see_each_other() {
    let mut c = Coordinator::new();
    assert_eq!(c.apply_commit(commit("A", 1, "a1", ""), vec![change(Operation::Add, "o1", "r", "in A")]), Ok(()));
    assert_eq!(c.apply_commit(commit("B", 1, "b1", ""), vec![change(Operation::Add, "o1", "s", "in B")]), Ok(()));
    assert_eq!(role_names(&c, &sid("A"), "o1"), vec![("r".to_string(), "in A".to_string(), 1)]);
    assert_eq!(role_names(&c, &sid("B"), "o1"), vec![("s".to_string(), "in B".to_string(), 1)]);
    assert_eq!(get_role(c.role_store(), &"o1".to_string(), &"r".to_string(), &sid("B")).err(), Some(StoreError::NotFound));
    let global = Commit { service_id: None, commit_num: 1, commit_id: "g1".to_string(), previous_commit_id: String::new() };
    assert_eq!(c.apply_commit(global, vec![change(Operation::Add, "o1", "g", "global")]), Ok(()));
    assert_eq!(role_names(&c, &None, "o1"), vec![("g".to_string(), "global".to_string(), 1)]);
    assert_eq!(role_names(&c, &sid("A"), "o1").len(), 1);
}

#[test]
fn pages_cover_listing_exactly_once() {
    let mut c = Coordinator::new();
    let names = ["a", "b", "c", "d", "e"];
    let mut changes = Vec::new();
    for n in names.iter() {
        changes.push(change(Operation::Add, "o1", n, "d"));
    }
    changes.push(change(Operation::Add, "o2", "z", "d"));
    assert_eq!(c.apply_commit(commit("s1", 1, "c1", ""), changes), Ok(()));
    let org = "o1".to_string();
    let mut seen = Vec::new();
    let mut offset = 0;
    while offset < 5 {
        let page = list_roles_for_organization(c.role_store(), &org, &sid("s1"), offset, 2);
        assert_eq!(page.total, 5);
        assert_eq!(page.offset, offset);
        assert_eq!(page.limit, 2);
        for r in page.items.iter() {
            seen.push(r.name.clone());
        }
        offset += 2;
    }
    assert_eq!(seen, vec!["a", "b", "c", "d", "e"]);
    let last = list_roles_for_organization(c.role_store(), &org, &sid("s1"), 4, 2);
    assert_eq!(last.items.len(), 1);
    let past = list_roles_for_organization(c.role_store(), &org, &sid("s1"), 9, 2);
    assert!(past.items.is_empty());
    assert_eq!(past.total, 5);
}

#[test]
fn error_status_codes() {
    assert_eq!(StoreError::NotFound.status_code(), 404);
    assert_eq!(StoreError::Conflict.status_code(), 409);
    assert_eq!(StoreError::InvalidState.status_code(), 400);
    assert_eq!(StoreError::StorageUnavailable.status_code(), 503);
    assert_eq!(StoreError::Internal.status_code(), 500);
}

#[test]
fn protocol_version_defaults() {
    assert_eq!(protocol_version_from_header(None), ProtocolVersion::V1);
    assert_eq!(protocol_version_from_header(Some(b"1")), ProtocolVersion::V1);
    assert_eq!(protocol_version_from_header(Some(b"7")), ProtocolVersion::V1);
    assert_eq!(protocol_version_from_header(Some(&[0xff, 0xfe])), ProtocolVersion::V1);
}

#[test]
fn scope_follows_service_id() {
    assert_eq!(scope_of(&None), Scope::Global);
    assert_eq!(scope_of(&sid("s1")), Scope::Service);
}

#[test]
fn listing_is_in_ascending_name_order() {
    let mut c = Coordinator::new();
    let changes = vec![
        change(Operation::Add, "o1", "viewer", "d"),
        change(Operation::Add, "o2", "admin", "d"),
        change(Operation::Add, "o1", "admin", "d"),
        change(Operation::Add, "o1", "adm", "d"),
        change(Operation::Add, "o1", "editor", "d"),
    ];
    assert_eq!(c.apply_commit(commit("s1", 1, "c1", ""), changes), Ok(()));
    let names: Vec<String> = role_names(&c, &sid("s1"), "o1").into_iter().map(|r| r.0).collect();
    assert_eq!(names, vec!["adm", "admin", "editor", "viewer"]);
    assert_eq!(c.apply_commit(commit("s1", 2, "c2", "c1"), vec![change(Operation::Delete, "o1", "admin", "")]), Ok(()));
    assert_eq!(c.rollback_to(&sid("s1"), 1), Ok(()));
    let names: Vec<String> = role_names(&c, &sid("s1"), "o1").into_iter().map(|r| r.0).collect();
    assert_eq!(names, vec!["adm", "admin", "editor", "viewer"]);
}

#[test]
fn names_order_by_code_point() {
    let mut c = Coordinator::new();
    let changes = vec![
        change(Operation::Add, "o1", "\u{e9}t\u{e9}", "d"),
        change(Operation::Add, "o1", "zeta", "d"),
        change(Operation::Add, "o1", "Zeta", "d"),
        change(Operation::Add, "o1", "", "d"),
    ];
    assert_eq!(c.apply_commit(commit("s1", 1, "c1", ""), changes), Ok(()));
    let names: Vec<String> = role_names(&c, &sid("s1"), "o1").into_iter().map(|r| r.0).collect();
    let mut expected = vec!["\u{e9}t\u{e9}".to_string(), "zeta".to_string(), "Zeta".to_string(), String::new()];
    expected.sort();
    assert_eq!(names, expected);
}

#[test]
fn rollback_of_unknown_service_is_noop_and_global_scope_has_its_own_history() {
    let mut c = Coordinator::new();
    assert_eq!(c.rollback_to(&sid("nobody"), 3), Ok(()));
    let global = Commit { service_id: None, commit_num: 1, commit_id: "g1".to_string(), previous_commit_id: String::new() };
    assert_eq!(c.apply_commit(global, vec![]), Ok(()));
    assert_eq!(c.commit_store().current(&None).unwrap().commit_id, "g1");
    assert!(c.commit_store().current(&sid("s1")).is_none());
    let second = Commit { service_id: None, commit_num: 2, commit_id: "g2".to_string(), previous_commit_id: "g1".to_string() };
    assert_eq!(c.apply_commit(second, vec![change(Operation::Delete, "o1", "x", "")]), Err(StoreError::NotFound));
    assert_eq!(c.commit_store().current(&None).unwrap().commit_num, 1);
}

#[test]
fn new_batch_starts_pending_whatever_status_it_carries() {
    let mut store = BatchStore::new();
    let mut b = batch("b1", "x");
    b.status = BatchStatus::Committed;
    assert_eq!(store.submit(b), Ok(()));
    assert_eq!(store.get_status(&"b1".to_string()), Ok(BatchStatus::Pending));
    let mut v = batch("b2", "x");
    v.status = BatchStatus::Valid;
    assert_eq!(store.submit(v), Ok(()));
    assert_eq!(store.get_status(&"b2".to_string()), Ok(BatchStatus::Pending));
    assert_eq!(store.update_status(&"b2".to_string(), BatchStatus::Committed), Err(StoreError::InvalidState));
}
