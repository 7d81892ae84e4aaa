use min_creds::broker::{ObtainOutcome, ServiceOverview};
use min_creds::config::{Config, Credential, Service};
use min_creds::persist::PersistentLease;
use min_creds::service::{Cred, Expiration, Lease, LeaseId, ServiceName};
use min_creds::state::{
    client_name_of, is_access_token, record_snapshot, AppState, GetLeaseResponse, UnknownService,
    LONG_WAIT_SECS, SWEEP_INTERVAL_SECS,
};
use min_creds::time::Timestamp;
use tokio::sync::mpsc::Receiver;

fn at(secs: i64) -> Timestamp {
    Timestamp::new(secs, 0).unwrap()
}

fn name(text: &str) -> ServiceName {
    ServiceName::from(text.to_string())
}

fn account(user: &str, password: &str, num_concurrent: u32) -> Credential {
    Credential { user: user.to_string(), password: password.to_string(), num_concurrent }
}

fn config_of(services: Vec<(&str, u32, Vec<Credential>)>) -> Config {
    let mut cfg = Config::default();
    for (service, lease_timeout_secs, credentials) in services {
        cfg.services.push((service.to_string(), Service { lease_timeout_secs, credentials }));
    }
    cfg.access_tokens = vec!["tok1".to_string(), "tok2".to_string()];
    cfg
}

fn db_config(lease_timeout_secs: u32) -> Config {
    config_of(vec![("db", lease_timeout_secs, vec![account("alice", "hunter2", 1)])])
}

fn immediate(outcome: Result<ObtainOutcome, UnknownService>) -> Lease {
    match outcome {
        Ok(ObtainOutcome::Immediate(lease)) => lease,
        Ok(ObtainOutcome::Parked(_)) => panic!("parked, but a credential was at hand"),
        Err(e) => panic!("{}", e.message()),
    }
}

fn parked(outcome: Result<ObtainOutcome, UnknownService>) -> Receiver<Lease> {
    match outcome {
        Ok(ObtainOutcome::Immediate(_)) => panic!("a lease, but the pool was empty"),
        Ok(ObtainOutcome::Parked(slot)) => slot,
        Err(e) => panic!("{}", e.message()),
    }
}

fn overview_of(state: &AppState, service: &str) -> ServiceOverview {
    let all = state.overview();
    all.iter().find(|(n, _)| n == service).unwrap().1
}

fn busy(in_use: usize, available: usize, waiting: usize) -> ServiceOverview {
    ServiceOverview {
        credentials_in_use: in_use,
        credentials_available: available,
        clients_waiting: waiting,
    }
}

#[test]
fn from_cfg_puts_every_credential_in_the_pool() {
    let cfg = config_of(vec![
        ("db", 300, vec![account("alice", "hunter2", 1), account("bob", "s3cret", 3)]),
        ("mail", 60, vec![account("carol", "pw", 2)]),
        ("idle", 60, vec![]),
    ]);
    let state = AppState::from_cfg(&cfg);
    assert_eq!(state.services.len(), 3);
    assert_eq!(state.services[0].0 .0, "db");
    assert_eq!(state.services[1].0 .0, "mail");
    assert_eq!(state.services[2].0 .0, "idle");
    let db = &state.services[0].1;
    assert_eq!(db.service.expires_in, 300);
    let users: Vec<&str> = db.service.available_creds.iter().map(|c| c.user.as_str()).collect();
    assert_eq!(users, vec!["alice", "bob", "bob", "bob"]);
    let passwords: Vec<&str> =
        db.service.available_creds.iter().map(|c| c.password.as_str()).collect();
    assert_eq!(passwords, vec!["hunter2", "s3cret", "s3cret", "s3cret"]);
    assert_eq!(db.service.leases_in_use(), 0);
    assert_eq!(db.clients_waiting(), 0);
    assert_eq!(state.services[1].1.service.expires_in, 60);
    assert_eq!(state.services[1].1.service.leases_available(), 2);
    assert_eq!(state.services[2].1.service.leases_available(), 0);
    assert_eq!(state.access_tokens, vec!["tok1", "tok2"]);
}

#[test]
fn from_cfg_leaves_out_an_account_nobody_may_hold() {
    let cfg = config_of(vec![("db", 300, vec![account("a", "1", 0), account("b", "2", 1)])]);
    let state = AppState::from_cfg(&cfg);
    let users: Vec<&str> =
        state.services[0].1.service.available_creds.iter().map(|c| c.user.as_str()).collect();
    assert_eq!(users, vec!["b"]);
}

#[test]
fn from_cfg_of_the_default_config_has_no_service() {
    let state = AppState::from_cfg(&Config::default());
    assert!(state.services.is_empty());
    assert!(state.access_tokens.is_empty());
    assert!(state.overview().is_empty());
    assert!(state.persist_leases().is_empty());
}

#[test]
fn accepts_only_the_configured_tokens() {
    let state = AppState::from_cfg(&db_config(300));
    assert!(state.accepts_token(&"tok1".to_string()));
    assert!(state.accepts_token(&"tok2".to_string()));
    assert!(!state.accepts_token(&"tok3".to_string()));
    assert!(!state.accepts_token(&"".to_string()));
    assert!(!state.accepts_token(&"tok".to_string()));
}

#[test]
fn find_service_gives_the_first_of_that_name() {
    let cfg = config_of(vec![
        ("db", 300, vec![account("a", "1", 1)]),
        ("mail", 60, vec![]),
        ("db", 10, vec![]),
    ]);
    let state = AppState::from_cfg(&cfg);
    assert_eq!(state.find_service(&name("db")), Some(0));
    assert_eq!(state.find_service(&name("mail")), Some(1));
    assert_eq!(state.find_service(&name("nope")), None);
}

#[test]
fn sweeps_come_every_three_seconds_and_ten_seconds_are_a_long_wait() {
    assert_eq!(SWEEP_INTERVAL_SECS, 3);
    assert_eq!(LONG_WAIT_SECS, 10);
}

#[test]
fn client_name_is_the_user_agent_or_a_placeholder() {
    assert_eq!(client_name_of(Some("curl/8.0")), "curl/8.0");
    assert_eq!(client_name_of(Some("")), "");
    assert_eq!(client_name_of(None), "<empty user-agent>");
}

#[test]
fn response_carries_the_lease_and_its_end_in_rfc3339() {
    let lease = Lease {
        id: LeaseId::from("6f1c0c3e-8a5b-4c1d-9e2f-0a1b2c3d4e5f".to_string()),
        user: "alice".to_string(),
        password: "hunter2".to_string(),
        client_name: "curl/8".to_string(),
        expiration: Expiration { created_on: at(1_700_000_000), expires_on: at(1_700_000_300) },
    };
    let response = GetLeaseResponse::from(lease);
    assert_eq!(response.lease, "6f1c0c3e-8a5b-4c1d-9e2f-0a1b2c3d4e5f");
    assert_eq!(response.user, "alice");
    assert_eq!(response.password, "hunter2");
    assert_eq!(response.expires_on, "2023-11-14T22:18:20+00:00");
}

#[test]
fn response_writes_fractions_of_a_second() {
    let lease = Lease::issue(
        Cred { user: "a".to_string(), password: "1".to_string() },
        0,
        "x",
        &Timestamp::new(0, 500_000_000).unwrap(),
        LeaseId::from("L1".to_string()),
    );
    assert_eq!(GetLeaseResponse::from(lease).expires_on, "1970-01-01T00:00:00.500+00:00");
}

#[test]
fn single_lease() {
    let mut state = AppState::from_cfg(&db_config(300));
    let lease = immediate(state.get_lease(&name("db"), "client".to_string()));
    assert_eq!(lease.user, "alice");
    assert_eq!(lease.password, "hunter2");
    assert_eq!(overview_of(&state, "db"), busy(1, 0, 0));
    let (service, report) = state.clear_lease(&lease.id).unwrap();
    assert_eq!(service.0, "db");
    assert_eq!(report.client_name, "client");
    assert_eq!(overview_of(&state, "db"), busy(0, 1, 0));
}

#[test]
fn exhaustion_and_fifo() {
    let mut state = AppState::from_cfg(&db_config(300));
    let first = immediate(state.get_lease(&name("db"), "A".to_string()));
    let mut slot = parked(state.get_lease(&name("db"), "B".to_string()));
    assert_eq!(overview_of(&state, "db"), busy(1, 0, 1));
    assert!(slot.try_recv().is_err());
    assert!(state.clear_lease(&first.id).is_some());
    let second = slot.try_recv().unwrap();
    assert_eq!(second.user, "alice");
    assert_eq!(second.password, "hunter2");
    assert_eq!(second.client_name, "B");
    assert_eq!(overview_of(&state, "db"), busy(1, 0, 0));
}

#[test]
fn expiry_wakeup() {
    let mut state = AppState::from_cfg(&db_config(1));
    let now = Timestamp::now();
    let first = immediate(state.get_lease(&name("db"), "A".to_string()));
    let mut slot = parked(state.get_lease(&name("db"), "B".to_string()));
    assert!(state.clean_at(&now).is_empty());
    assert!(slot.try_recv().is_err());
    let report = state.clean_at(&first.expiration.expires_on.plus_secs(3));
    assert_eq!(report.len(), 1);
    assert_eq!(report[0].0 .0, "db");
    assert_eq!(report[0].1, 1);
    let second = slot.try_recv().unwrap();
    assert_eq!(second.user, "alice");
    assert_eq!(second.client_name, "B");
    assert_eq!(overview_of(&state, "db"), busy(1, 0, 0));
}

#[test]
fn unknown_service() {
    let mut state = AppState::from_cfg(&db_config(300));
    match state.get_lease(&name("nope"), "client".to_string()) {
        Ok(_) => panic!("a service that is not configured answered"),
        Err(e) => {
            assert_eq!(e.service, "nope");
            assert_eq!(e.message(), "unknown service \"nope\"");
        }
    }
    assert_eq!(overview_of(&state, "db"), busy(0, 1, 0));
}

#[test]
fn persistence_round_trip() {
    let cfg = db_config(300);
    let mut state = AppState::from_cfg(&cfg);
    let lease = immediate(state.get_lease(&name("db"), "client".to_string()));
    let snapshot = state.persist_leases();
    assert_eq!(snapshot.len(), 1);
    assert_eq!(snapshot[0].0 .0, "db");
    assert_eq!(snapshot[0].1.len(), 1);
    assert_eq!(snapshot[0].1[0].lease_id, lease.id);
    assert_eq!(snapshot[0].1[0].cred_hash, "90410e0ec4346117d9dceef878fad3fab464438e");
    drop(state);
    let mut restarted = AppState::from_cfg(&cfg);
    restarted.load_persistent_leases(&snapshot);
    assert_eq!(overview_of(&restarted, "db"), busy(1, 0, 0));
    let live = restarted.services[0].1.service.leases.get(0);
    assert_eq!(live.id, lease.id);
    assert_eq!(live.client_name, "client");
    assert_eq!(live.expiration, lease.expiration);
    assert_eq!(live.user, "alice");
    assert!(restarted.clear_lease(&lease.id).is_some());
    assert_eq!(overview_of(&restarted, "db"), busy(0, 1, 0));
}

#[test]
fn abandoned_waiter() {
    let mut state = AppState::from_cfg(&db_config(300));
    let first = immediate(state.get_lease(&name("db"), "A".to_string()));
    let b = parked(state.get_lease(&name("db"), "B".to_string()));
    drop(b);
    let mut c = parked(state.get_lease(&name("db"), "C".to_string()));
    assert_eq!(overview_of(&state, "db"), busy(1, 0, 2));
    assert!(state.clear_lease(&first.id).is_some());
    let got = c.try_recv().unwrap();
    assert_eq!(got.user, "alice");
    assert_eq!(got.client_name, "C");
    let after = overview_of(&state, "db");
    assert_eq!(after, busy(1, 0, 0));
    assert_eq!(after.credentials_available + after.credentials_in_use, 1);
}

#[test]
fn clear_lease_of_an_unknown_id_changes_nothing() {
    let mut state = AppState::from_cfg(&db_config(300));
    immediate(state.get_lease(&name("db"), "A".to_string()));
    assert!(state.clear_lease(&LeaseId::from("nope".to_string())).is_none());
    assert_eq!(overview_of(&state, "db"), busy(1, 0, 0));
}

#[test]
fn clear_lease_twice_gives_some_then_none() {
    let mut state = AppState::from_cfg(&db_config(300));
    let lease = immediate(state.get_lease(&name("db"), "A".to_string()));
    assert!(state.clear_lease(&lease.id).is_some());
    assert!(state.clear_lease(&lease.id).is_none());
    assert_eq!(overview_of(&state, "db"), busy(0, 1, 0));
}

#[test]
fn clear_lease_finds_the_service_that_holds_the_lease() {
    let cfg = config_of(vec![
        ("db", 300, vec![account("alice", "hunter2", 1)]),
        ("mail", 300, vec![account("carol", "pw", 1)]),
    ]);
    let mut state = AppState::from_cfg(&cfg);
    let db = immediate(state.get_lease(&name("db"), "A".to_string()));
    let mail = immediate(state.get_lease(&name("mail"), "B".to_string()));
    assert_eq!(mail.user, "carol");
    let (service, report) = state.clear_lease(&mail.id).unwrap();
    assert_eq!(service.0, "mail");
    assert_eq!(report.client_name, "B");
    assert_eq!(overview_of(&state, "db"), busy(1, 0, 0));
    assert_eq!(overview_of(&state, "mail"), busy(0, 1, 0));
    let (service, _) = state.clear_lease(&db.id).unwrap();
    assert_eq!(service.0, "db");
}

#[test]
fn services_do_not_share_credentials_or_queues() {
    let cfg = config_of(vec![
        ("db", 300, vec![account("alice", "hunter2", 1)]),
        ("mail", 300, vec![account("carol", "pw", 2)]),
    ]);
    let mut state = AppState::from_cfg(&cfg);
    immediate(state.get_lease(&name("db"), "A".to_string()));
    let _slot = parked(state.get_lease(&name("db"), "B".to_string()));
    let mail = immediate(state.get_lease(&name("mail"), "C".to_string()));
    assert_eq!(mail.user, "carol");
    assert_eq!(overview_of(&state, "db"), busy(1, 0, 1));
    assert_eq!(overview_of(&state, "mail"), busy(1, 1, 0));
}

#[test]
fn overview_lists_every_service_in_order() {
    let cfg = config_of(vec![
        ("db", 300, vec![account("a", "1", 2)]),
        ("mail", 300, vec![]),
    ]);
    let state = AppState::from_cfg(&cfg);
    let all = state.overview();
    assert_eq!(all.len(), 2);
    assert_eq!(all[0].0, "db");
    assert_eq!(all[0].1, busy(0, 2, 0));
    assert_eq!(all[1].0, "mail");
    assert_eq!(all[1].1, busy(0, 0, 0));
}

#[test]
fn snapshot_leaves_out_a_service_without_leases() {
    let cfg = config_of(vec![
        ("db", 300, vec![account("a", "1", 1)]),
        ("mail", 300, vec![account("c", "3", 1)]),
        ("web", 300, vec![account("w", "4", 2)]),
    ]);
    let mut state = AppState::from_cfg(&cfg);
    immediate(state.get_lease(&name("web"), "A".to_string()));
    immediate(state.get_lease(&name("db"), "B".to_string()));
    immediate(state.get_lease(&name("web"), "C".to_string()));
    let snapshot = state.persist_leases();
    assert_eq!(snapshot.len(), 2);
    assert_eq!(snapshot[0].0 .0, "db");
    assert_eq!(snapshot[0].1.len(), 1);
    assert_eq!(snapshot[1].0 .0, "web");
    assert_eq!(snapshot[1].1.len(), 2);
    assert_eq!(snapshot[1].1[0].client_name, "A");
    assert_eq!(snapshot[1].1[1].client_name, "C");
}

#[test]
fn load_passes_over_a_service_that_is_gone() {
    let mut state = AppState::from_cfg(&db_config(300));
    let alice = Cred { user: "alice".to_string(), password: "hunter2".to_string() };
    let entry = |id: &str| PersistentLease {
        lease_id: LeaseId::from(id.to_string()),
        expiration: Expiration { created_on: at(1_000), expires_on: at(1_300) },
        client_name: "x".to_string(),
        cred_hash: alice.cred_hash(),
    };
    let snapshot = vec![(name("gone"), vec![entry("L1")]), (name("db"), vec![entry("L2")])];
    state.load_persistent_leases_at(&snapshot, &at(1_100));
    assert_eq!(overview_of(&state, "db"), busy(1, 0, 0));
    assert_eq!(state.services[0].1.service.leases.get(0).id.0, "L2");
}

#[test]
fn load_by_the_clock_passes_over_leases_of_the_past() {
    let mut state = AppState::from_cfg(&db_config(300));
    let alice = Cred { user: "alice".to_string(), password: "hunter2".to_string() };
    let snapshot = vec![(
        name("db"),
        vec![PersistentLease {
            lease_id: LeaseId::from("L1".to_string()),
            expiration: Expiration { created_on: at(1_000), expires_on: at(1_300) },
            client_name: "x".to_string(),
            cred_hash: alice.cred_hash(),
        }],
    )];
    state.load_persistent_leases(&snapshot);
    assert_eq!(overview_of(&state, "db"), busy(0, 1, 0));
}

#[test]
fn clean_reports_only_services_that_lost_a_lease() {
    let cfg = config_of(vec![
        ("db", 10, vec![account("a", "1", 2)]),
        ("mail", 1000, vec![account("c", "3", 1)]),
    ]);
    let mut state = AppState::from_cfg(&cfg);
    let db = state.find_service(&name("db")).unwrap();
    let mail = state.find_service(&name("mail")).unwrap();
    state.services[db].1.obtain_lease_at("A".to_string(), &at(1_000), LeaseId::from("L1".to_string()));
    state.services[db].1.obtain_lease_at("B".to_string(), &at(1_000), LeaseId::from("L2".to_string()));
    state.services[mail].1.obtain_lease_at("C".to_string(), &at(1_000), LeaseId::from("L3".to_string()));
    assert!(state.clean_at(&at(1_005)).is_empty());
    let report = state.clean_at(&at(1_500));
    assert_eq!(report.len(), 1);
    assert_eq!(report[0].0 .0, "db");
    assert_eq!(report[0].1, 2);
    assert_eq!(overview_of(&state, "db"), busy(0, 2, 0));
    assert_eq!(overview_of(&state, "mail"), busy(1, 0, 0));
    let report = state.clean();
    assert_eq!(report.len(), 1);
    assert_eq!(report[0].0 .0, "mail");
    assert_eq!(report[0].1, 1);
}

#[test]
fn is_access_token_looks_through_the_whole_list() {
    let tokens = vec!["tok1".to_string(), "tok2".to_string(), "tok3".to_string()];
    assert!(is_access_token(&tokens, &"tok1".to_string()));
    assert!(is_access_token(&tokens, &"tok3".to_string()));
    assert!(!is_access_token(&tokens, &"tok4".to_string()));
    assert!(!is_access_token(&vec![], &"tok1".to_string()));
}

#[test]
fn record_snapshot_adds_only_a_service_with_a_lease() {
    let cfg = config_of(vec![
        ("db", 300, vec![account("a", "1", 1)]),
        ("mail", 300, vec![account("c", "3", 1)]),
    ]);
    let mut state = AppState::from_cfg(&cfg);
    let lease = immediate(state.get_lease(&name("mail"), "A".to_string()));
    let mut saved = Vec::new();
    record_snapshot(&mut saved, &state.services[0].0, &state.services[0].1);
    assert!(saved.is_empty());
    record_snapshot(&mut saved, &state.services[1].0, &state.services[1].1);
    assert_eq!(saved.len(), 1);
    assert_eq!(saved[0].0 .0, "mail");
    assert_eq!(saved[0].1.len(), 1);
    assert_eq!(saved[0].1[0].lease_id, lease.id);
    assert_eq!(saved[0].1[0].client_name, "A");
}
