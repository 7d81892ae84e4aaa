use min_creds::service::{Cred, Expiration, Lease, LeaseId, LeaseTable, Service, ServiceName};
use min_creds::time::Timestamp;
use std::collections::VecDeque;

fn at(secs: i64) -> Timestamp {
    Timestamp::new(secs, 0).unwrap()
}

fn cred(user: &str, password: &str) -> Cred {
    Cred { user: user.to_string(), password: password.to_string() }
}

fn id(text: &str) -> LeaseId {
    LeaseId::from(text.to_string())
}

fn service_of(expires_in: u32, creds: Vec<Cred>) -> Service {
    Service::new(expires_in, VecDeque::from(creds))
}

fn pool_users(service: &Service) -> Vec<String> {
    service.available_creds.iter().map(|c| c.user.clone()).collect()
}

fn lease_ids(service: &Service) -> Vec<String> {
    (0..service.leases.len()).map(|i| service.leases.get(i).id.0.clone()).collect()
}

#[test]
fn fingerprint_is_sha1_of_user_bar_password() {
    assert_eq!(cred("alice", "hunter2").cred_hash(), "90410e0ec4346117d9dceef878fad3fab464438e");
    assert_eq!(cred("bob", "s3cret").cred_hash(), "743db7e683ed974d432bd28703ada5ec8a75ec0e");
}

#[test]
fn fingerprint_of_empty_user_and_password_hashes_the_bar() {
    assert_eq!(cred("", "").cred_hash(), "3eb416223e9e69e6bb8ee19793911ad1ad2027d8");
}

#[test]
fn fingerprint_keeps_bars_in_the_text() {
    assert_eq!(cred("a", "b|c").cred_hash(), "c74a3276c7e3cbbf386b6332e627989dfc851c00");
    assert_eq!(cred("a|b", "c").cred_hash(), "c74a3276c7e3cbbf386b6332e627989dfc851c00");
}

#[test]
fn cred_clone_keeps_both_fields() {
    let copy = cred("alice", "hunter2").clone();
    assert_eq!(copy.user, "alice");
    assert_eq!(copy.password, "hunter2");
}

#[test]
fn cred_from_lease_takes_user_and_password() {
    let lease = Lease::issue(cred("alice", "hunter2"), 300, "client", &at(1_000), id("L1"));
    let back = Cred::from(lease);
    assert_eq!(back.user, "alice");
    assert_eq!(back.password, "hunter2");
}

#[test]
fn lease_id_from_keeps_the_text() {
    assert_eq!(LeaseId::from("abc".to_string()).0, "abc");
    assert_eq!(ServiceName::from("db".to_string()).0, "db");
}

#[test]
fn lease_id_new_is_a_hyphenated_uuid() {
    let fresh = LeaseId::new();
    assert_eq!(fresh.0.len(), 36);
    let parsed = uuid::Uuid::parse_str(&fresh.0).unwrap();
    assert_eq!(parsed.get_version_num(), 4);
    assert_eq!(parsed.to_string(), fresh.0);
}

#[test]
fn lease_id_new_differs_from_call_to_call() {
    assert_ne!(LeaseId::new(), LeaseId::new());
}

#[test]
fn expiration_is_expired_strictly_after_its_end() {
    let e = Expiration { created_on: at(100), expires_on: at(400) };
    assert!(!e.is_expired(&at(399)));
    assert!(!e.is_expired(&at(400)));
    assert!(e.is_expired(&Timestamp::new(400, 1).unwrap()));
    assert!(e.is_expired(&at(401)));
}

#[test]
fn lease_issue_fills_every_field() {
    let lease = Lease::issue(cred("alice", "hunter2"), 300, "curl/8", &at(1_700_000_000), id("L1"));
    assert_eq!(lease.id.0, "L1");
    assert_eq!(lease.user, "alice");
    assert_eq!(lease.password, "hunter2");
    assert_eq!(lease.client_name, "curl/8");
    assert_eq!(lease.expiration.created_on, at(1_700_000_000));
    assert_eq!(lease.expiration.expires_on, at(1_700_000_300));
}

#[test]
fn lease_from_cred_reads_the_clock_and_draws_an_id() {
    let before = Timestamp::now();
    let lease = Lease::from_cred(cred("alice", "hunter2"), 60, "client");
    let after = Timestamp::now();
    assert_eq!(lease.user, "alice");
    assert_eq!(lease.password, "hunter2");
    assert_eq!(lease.client_name, "client");
    assert_eq!(lease.id.0.len(), 36);
    assert!(!lease.expiration.created_on.is_before(&before));
    assert!(!after.is_before(&lease.expiration.created_on));
    assert_eq!(lease.expiration.expires_on, lease.expiration.created_on.plus_secs(60));
}

#[test]
fn lease_clone_is_the_same_lease() {
    let lease = Lease::issue(cred("alice", "hunter2"), 300, "client", &at(1_000), id("L1"));
    let copy = lease.clone();
    assert_eq!(copy.id, lease.id);
    assert_eq!(copy.user, lease.user);
    assert_eq!(copy.password, lease.password);
    assert_eq!(copy.client_name, lease.client_name);
    assert_eq!(copy.expiration, lease.expiration);
}

#[test]
fn table_insert_find_remove() {
    let mut table = LeaseTable::new();
    assert_eq!(table.len(), 0);
    assert!(table.insert(Lease::issue(cred("a", "1"), 10, "x", &at(0), id("L1"))).is_none());
    assert!(table.insert(Lease::issue(cred("b", "2"), 10, "y", &at(0), id("L2"))).is_none());
    assert_eq!(table.len(), 2);
    assert_eq!(table.find(&id("L1")), Some(0));
    assert_eq!(table.find(&id("L2")), Some(1));
    assert_eq!(table.find(&id("L3")), None);
    assert_eq!(table.get(1).user, "b");
    let gone = table.remove(&id("L1")).unwrap();
    assert_eq!(gone.user, "a");
    assert_eq!(table.len(), 1);
    assert_eq!(table.find(&id("L2")), Some(0));
    assert!(table.remove(&id("L1")).is_none());
    assert_eq!(table.len(), 1);
}

#[test]
fn table_refuses_a_second_lease_with_the_same_id() {
    let mut table = LeaseTable::new();
    assert!(table.insert(Lease::issue(cred("a", "1"), 10, "x", &at(0), id("L1"))).is_none());
    let refused = table.insert(Lease::issue(cred("b", "2"), 10, "y", &at(0), id("L1"))).unwrap();
    assert_eq!(refused.user, "b");
    assert_eq!(table.len(), 1);
    assert_eq!(table.get(0).user, "a");
}

#[test]
fn table_sweep_takes_the_expired_out_in_order() {
    let mut table = LeaseTable::new();
    table.insert(Lease::issue(cred("a", "1"), 10, "x", &at(0), id("L1")));
    table.insert(Lease::issue(cred("b", "2"), 100, "y", &at(0), id("L2")));
    table.insert(Lease::issue(cred("c", "3"), 20, "z", &at(0), id("L3")));
    table.insert(Lease::issue(cred("d", "4"), 200, "w", &at(0), id("L4")));
    let swept = table.sweep_expired(&at(50));
    let swept_ids: Vec<&str> = swept.iter().map(|l| l.id.0.as_str()).collect();
    assert_eq!(swept_ids, vec!["L1", "L3"]);
    assert_eq!(table.len(), 2);
    assert_eq!(table.get(0).id.0, "L2");
    assert_eq!(table.get(1).id.0, "L4");
}

#[test]
fn new_service_has_every_credential_in_the_pool() {
    let service = service_of(300, vec![cred("a", "1"), cred("b", "2")]);
    assert_eq!(service.expires_in, 300);
    assert_eq!(service.leases_available(), 2);
    assert_eq!(service.leases_in_use(), 0);
    assert_eq!(pool_users(&service), vec!["a", "b"]);
}

#[test]
fn issue_lends_the_first_credential() {
    let mut service = service_of(300, vec![cred("a", "1"), cred("b", "2")]);
    let lease = service.issue("client", &at(1_000), id("L1")).unwrap();
    assert_eq!(lease.user, "a");
    assert_eq!(lease.password, "1");
    assert_eq!(lease.client_name, "client");
    assert_eq!(lease.id.0, "L1");
    assert_eq!(lease.expiration.created_on, at(1_000));
    assert_eq!(lease.expiration.expires_on, at(1_300));
    assert_eq!(pool_users(&service), vec!["b"]);
    assert_eq!(lease_ids(&service), vec!["L1"]);
    assert!(service.leases.find(&id("L1")).is_some());
    assert!(service.leases.find(&id("L2")).is_none());
}

#[test]
fn issue_gives_nothing_from_an_empty_pool() {
    let mut service = service_of(300, vec![]);
    assert!(service.issue("client", &at(1_000), id("L1")).is_none());
    assert_eq!(service.leases_available(), 0);
    assert_eq!(service.leases_in_use(), 0);
}

#[test]
fn issue_makes_the_id_of_a_live_lease_new_with_a_hyphen() {
    let mut service = service_of(300, vec![cred("a", "1"), cred("b", "2"), cred("c", "3")]);
    assert_eq!(service.issue("first", &at(1_000), id("L1")).unwrap().id.0, "L1");
    let second = service.issue("second", &at(1_001), id("L1")).unwrap();
    assert_eq!(second.id.0, "L1-");
    assert_eq!(second.user, "b");
    assert_eq!(second.client_name, "second");
    let third = service.issue("third", &at(1_002), id("L1")).unwrap();
    assert_eq!(third.id.0, "L1--");
    assert_eq!(third.user, "c");
    assert!(pool_users(&service).is_empty());
    assert_eq!(lease_ids(&service), vec!["L1", "L1-", "L1--"]);
    assert_eq!(service.leases.get(0).client_name, "first");
}

#[test]
fn freshen_leaves_a_new_id_alone() {
    let mut table = LeaseTable::new();
    assert_eq!(table.freshen(id("L1")).0, "L1");
    table.insert(Lease::issue(cred("a", "1"), 10, "x", &at(0), id("L1")));
    table.insert(Lease::issue(cred("b", "2"), 10, "y", &at(0), id("L1--")));
    assert_eq!(table.freshen(id("L2")).0, "L2");
    assert_eq!(table.freshen(id("L1")).0, "L1-");
    assert_eq!(table.freshen(id("L1-")).0, "L1-");
    assert_eq!(table.freshen(id("L1--")).0, "L1---");
    assert_eq!(table.freshen(id("")).0, "");
}

#[test]
fn release_at_returns_the_credential_to_the_back() {
    let mut service = service_of(300, vec![cred("a", "1"), cred("b", "2"), cred("c", "3")]);
    service.issue("x", &at(1_000), id("L1"));
    service.issue("y", &at(1_001), id("L2"));
    let report = service.release_at(&id("L1"), &Timestamp::new(1_010, 500_000_000).unwrap()).unwrap();
    assert_eq!(report.client_name, "x");
    assert_eq!(report.duration.nanos(), 10_500_000_000);
    assert_eq!(report.duration.num_milliseconds(), 10_500);
    assert_eq!(pool_users(&service), vec!["c", "a"]);
    assert_eq!(lease_ids(&service), vec!["L2"]);
}

#[test]
fn release_twice_gives_some_then_none() {
    let mut service = service_of(300, vec![cred("a", "1")]);
    service.issue("x", &at(1_000), id("L1"));
    assert!(service.release_at(&id("L1"), &at(1_001)).is_some());
    assert!(service.release_at(&id("L1"), &at(1_002)).is_none());
    assert_eq!(pool_users(&service), vec!["a"]);
    assert_eq!(service.leases_in_use(), 0);
}

#[test]
fn release_of_an_unknown_id_changes_nothing() {
    let mut service = service_of(300, vec![cred("a", "1"), cred("b", "2")]);
    service.issue("x", &at(1_000), id("L1"));
    assert!(service.release_at(&id("nope"), &at(1_001)).is_none());
    assert_eq!(pool_users(&service), vec!["b"]);
    assert_eq!(lease_ids(&service), vec!["L1"]);
}

#[test]
fn release_reads_the_clock() {
    let mut service = service_of(300, vec![cred("a", "1")]);
    let lease = service.get_lease("x").unwrap();
    let report = service.release(&lease.id).unwrap();
    assert_eq!(report.client_name, "x");
    assert!(report.duration.nanos() >= 0);
    assert!(report.duration.num_milliseconds() < 60_000);
    assert!(service.release(&lease.id).is_none());
}

#[test]
fn revoke_returns_the_credential_to_the_front() {
    let mut service = service_of(300, vec![cred("a", "1"), cred("b", "2")]);
    service.issue("x", &at(1_000), id("L1"));
    assert!(service.revoke(&id("L1")));
    assert_eq!(pool_users(&service), vec!["a", "b"]);
    assert_eq!(service.leases_in_use(), 0);
    assert!(!service.revoke(&id("L1")));
    assert_eq!(pool_users(&service), vec!["a", "b"]);
}

#[test]
fn sweep_returns_expired_credentials_to_the_back() {
    let mut service = service_of(10, vec![cred("a", "1"), cred("b", "2"), cred("c", "3")]);
    service.issue("x", &at(1_000), id("L1"));
    service.issue("y", &at(1_005), id("L2"));
    assert_eq!(service.clear_expired_leases_at(&at(1_010)), 0);
    assert_eq!(service.clear_expired_leases_at(&at(1_011)), 1);
    assert_eq!(pool_users(&service), vec!["c", "a"]);
    assert_eq!(lease_ids(&service), vec!["L2"]);
    assert_eq!(service.clear_expired_leases_at(&at(2_000)), 1);
    assert_eq!(pool_users(&service), vec!["c", "a", "b"]);
    assert_eq!(service.leases_in_use(), 0);
    assert_eq!(service.clear_expired_leases_at(&at(2_000)), 0);
}

#[test]
fn sweep_keeps_a_lease_that_ends_at_this_very_instant() {
    let mut service = service_of(10, vec![cred("a", "1")]);
    service.issue("x", &at(1_000), id("L1"));
    assert_eq!(service.clear_expired_leases_at(&at(1_010)), 0);
    assert_eq!(service.leases_in_use(), 1);
    assert_eq!(service.clear_expired_leases_at(&Timestamp::new(1_010, 1).unwrap()), 1);
    assert_eq!(service.leases_in_use(), 0);
}

#[test]
fn sweep_by_the_clock_ends_a_lease_of_the_past() {
    let mut service = service_of(10, vec![cred("a", "1")]);
    service.issue("x", &at(1_000), id("L1"));
    assert_eq!(service.clear_expired_leases(), 1);
    assert_eq!(service.leases_available(), 1);
    assert_eq!(service.leases_in_use(), 0);
}

#[test]
fn sweep_by_the_clock_keeps_a_lease_of_the_present() {
    let mut service = service_of(300, vec![cred("a", "1")]);
    assert!(service.get_lease("x").is_some());
    assert_eq!(service.clear_expired_leases(), 0);
    assert_eq!(service.leases_in_use(), 1);
}

#[test]
fn get_lease_at_sweeps_first() {
    let mut service = service_of(10, vec![cred("a", "1")]);
    assert!(service.get_lease_at("x", &at(1_000), id("L1")).is_some());
    assert!(service.get_lease_at("y", &at(1_005), id("L2")).is_none());
    let lease = service.get_lease_at("z", &at(1_011), id("L3")).unwrap();
    assert_eq!(lease.user, "a");
    assert_eq!(lease.client_name, "z");
    assert_eq!(lease_ids(&service), vec!["L3"]);
    assert_eq!(service.leases_available(), 0);
}

#[test]
fn get_lease_at_may_reuse_the_id_of_a_lease_just_swept() {
    let mut service = service_of(10, vec![cred("a", "1")]);
    assert!(service.get_lease_at("x", &at(1_000), id("L1")).is_some());
    let lease = service.get_lease_at("y", &at(1_011), id("L1")).unwrap();
    assert_eq!(lease.client_name, "y");
    assert_eq!(service.leases_in_use(), 1);
}

#[test]
fn get_lease_lends_until_the_pool_is_empty() {
    let mut service = service_of(300, vec![cred("a", "1"), cred("b", "2")]);
    let first = service.get_lease("x").unwrap();
    let second = service.get_lease("y").unwrap();
    assert_eq!(first.user, "a");
    assert_eq!(second.user, "b");
    assert_ne!(first.id, second.id);
    assert!(service.get_lease("z").is_none());
    assert_eq!(service.leases_available(), 0);
    assert_eq!(service.leases_in_use(), 2);
}

#[test]
fn pool_is_a_queue() {
    let mut service = service_of(300, vec![cred("a", "1"), cred("b", "2")]);
    service.issue("x", &at(1_000), id("L1"));
    service.release_at(&id("L1"), &at(1_001));
    let next = service.issue("y", &at(1_002), id("L2")).unwrap();
    assert_eq!(next.user, "b");
    let after = service.issue("z", &at(1_003), id("L3")).unwrap();
    assert_eq!(after.user, "a");
}

#[test]
fn pool_and_leases_together_stay_as_many() {
    let mut service = service_of(10, vec![cred("a", "1"), cred("b", "2"), cred("c", "3")]);
    let total = |s: &Service| s.leases_available() + s.leases_in_use();
    assert_eq!(total(&service), 3);
    service.issue("x", &at(1_000), id("L1"));
    assert_eq!(total(&service), 3);
    service.issue("y", &at(1_000), id("L1"));
    assert_eq!(total(&service), 3);
    service.get_lease_at("z", &at(1_003), id("L2"));
    assert_eq!(total(&service), 3);
    service.release_at(&id("L1"), &at(1_004));
    assert_eq!(total(&service), 3);
    service.revoke(&id("L2"));
    assert_eq!(total(&service), 3);
    service.get_lease_at("w", &at(1_005), id("L3"));
    service.clear_expired_leases_at(&at(5_000));
    assert_eq!(total(&service), 3);
    let mut users = pool_users(&service);
    users.sort();
    assert_eq!(users, vec!["a", "b", "c"]);
}
