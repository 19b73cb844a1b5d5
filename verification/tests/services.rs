use raxon::clock::{Clock, ManualClock};
use raxon::host::{ensure_supported, HostSession, HostSessionError, HostSessionHandle, HostSessionRegistry, HOST_BRIDGE_PROTOCOL_VERSION};
use raxon::keychain::{delete_secret, get_secret, set_secret, SecretStore};
use raxon::navigator::create_navigator;
use raxon::resource::{Resource, ResourceState};
use raxon::sqlite::{use_reactive_query, Database};

#[test]
fn registry_hands_out_fresh_handles_and_forgets_removed_ones() {
    let mut registry: HostSessionRegistry<u32> = HostSessionRegistry::new();
    let a = registry.insert_driver(7);
    let b = registry.insert_session(HostSession::new(9));
    assert_ne!(a, b);
    assert_eq!(a.to_raw(), 1);
    assert_eq!(b.to_raw(), 2);
    assert_eq!(registry.len(), 2);
    assert_eq!(*registry.get(a).expect("live").driver(), 7);
    *registry.get_mut(b).expect("live").driver_mut() += 1;
    assert_eq!(*registry.get(b).expect("live").driver(), 10);
    assert!(registry.remove(a).is_some());
    assert!(!registry.contains(a));
    assert!(registry.remove(a).is_none());
    assert_eq!(
        registry.session(a).err(),
        Some(HostSessionError::UnknownSession { handle: a.to_raw() })
    );
    assert!(!registry.is_empty());
    assert_eq!(registry.session(HostSessionHandle::from_raw(99)).err(), Some(HostSessionError::UnknownSession { handle: 99 }));
}

#[test]
fn bridge_version_is_checked() {
    assert_eq!(ensure_supported(HOST_BRIDGE_PROTOCOL_VERSION), Ok(()));
    assert_eq!(
        ensure_supported(HOST_BRIDGE_PROTOCOL_VERSION + 1),
        Err(HostSessionError::UnsupportedBridgeVersion {
            expected: HOST_BRIDGE_PROTOCOL_VERSION,
            found: HOST_BRIDGE_PROTOCOL_VERSION + 1,
        })
    );
}

#[test]
fn keychain_reads_back_what_was_written() {
    let mut store = SecretStore::new();
    set_secret(&mut store, "auth_token", "my-secret-value").unwrap();
    assert_eq!(get_secret(&store, "auth_token").unwrap().as_deref(), Some("my-secret-value"));
    set_secret(&mut store, "auth_token", "rotated").unwrap();
    assert_eq!(get_secret(&store, "auth_token").unwrap().as_deref(), Some("rotated"));
    delete_secret(&mut store, "auth_token").unwrap();
    assert_eq!(get_secret(&store, "auth_token").unwrap(), None);
    delete_secret(&mut store, "missing").unwrap();
}

#[test]
fn manual_clock_advances_and_saturates() {
    let mut clock = ManualClock::new();
    assert_eq!(clock.now_nanos(), 0);
    clock.advance(5);
    clock.advance_millis(2);
    assert_eq!(clock.now_nanos(), 2_000_005);
    clock.advance_millis(u64::MAX);
    assert_eq!(clock.now_nanos(), u64::MAX);
}

#[test]
fn navigator_pushes_pops_and_keeps_its_root() {
    let mut nav = create_navigator("home");
    nav.push("details");
    assert_eq!(nav.top(), "details");
    assert_eq!(nav.depth(), 2);
    assert!(nav.can_pop());
    nav.pop();
    assert_eq!(nav.top(), "home");
    nav.pop();
    assert_eq!(nav.depth(), 1);
    nav.replace("feed");
    assert_eq!(nav.top(), "feed");
    nav.push("a");
    nav.push("b");
    nav.pop_to_root();
    assert_eq!(nav.top(), "feed");
    nav.reset("login");
    assert_eq!(nav.top(), "login");
    assert_eq!(nav.depth(), 1);
}

#[test]
fn resource_settles_once_with_its_outcome() {
    let mut res: Resource<i32> = Resource::new();
    assert!(res.loading());
    assert_eq!(res.get(), ResourceState::Loading);
    res.complete(Ok(42));
    assert_eq!(res.data(), Some(42));
    assert_eq!(res.error(), None);
    let mut failed: Resource<i32> = Resource::new();
    failed.complete(Err("boom".to_string()));
    assert_eq!(failed.error().as_deref(), Some("boom"));
    assert_eq!(failed.data(), None);
}

#[test]
fn storage_facade_reports_unsupported_targets() {
    let message = "SQLite on this target requires a platform storage backend".to_string();
    assert_eq!(Database::open("app.db").err(), Some(message.clone()));
    assert_eq!(Database::documents_path("app.db"), "app.db");
    let mut query = use_reactive_query(vec![1, 2]);
    assert_eq!(query.get(), vec![1, 2]);
    query.refresh(|| vec![3]);
    query.invalidate();
    assert_eq!(query.get(), vec![3]);
}
