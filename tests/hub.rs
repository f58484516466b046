use sse_hub::producer::{cpu_report, ProducerGuard};
use sse_hub::registry::{BroadcastStore, SubscribeError};

#[test]
fn news_scenario_subscribe_publish_disconnect() {
    let mut store = BroadcastStore::new();
    let id = store.add_client("news".to_string(), true).unwrap();
    assert_eq!(store.client_count("news"), 1);
    assert_eq!(store.broadcast("news"), vec![id]);
    assert_eq!(store.broadcast("sports"), Vec::<u64>::new());
    assert_eq!(store.client_count("sports"), 0);
    // the connection closed: the next sweep's probe fails
    store.remove_clients(&vec![id]);
    assert_eq!(store.client_count("news"), 0);
    assert_eq!(store.broadcast("news"), Vec::<u64>::new());
}

#[test]
fn publish_to_empty_channel_leaves_count_at_zero() {
    let store = BroadcastStore::new();
    assert!(store.broadcast("nobody").is_empty());
    assert_eq!(store.client_count("nobody"), 0);
}

#[test]
fn every_subscriber_of_a_channel_is_a_target() {
    let mut store = BroadcastStore::new();
    let a = store.add_client("c".to_string(), true).unwrap();
    let other = store.add_client("d".to_string(), true).unwrap();
    let b = store.add_client("c".to_string(), true).unwrap();
    assert_eq!(store.broadcast("c"), vec![a, b]);
    assert_eq!(store.broadcast("d"), vec![other]);
}

#[test]
fn ids_are_fresh_and_increasing() {
    let mut store = BroadcastStore::new();
    assert_eq!(store.add_client("x".to_string(), true), Ok(0));
    assert_eq!(store.add_client("x".to_string(), true), Ok(1));
    assert_eq!(store.add_client("y".to_string(), true), Ok(2));
}

#[test]
fn failed_setup_registers_nothing() {
    let mut store = BroadcastStore::new();
    assert_eq!(
        store.add_client("news".to_string(), false),
        Err(SubscribeError::SubscriptionSetupFailed)
    );
    assert_eq!(store.client_count("news"), 0);
    assert!(store.all_clients().is_empty());
    // the id was not spent
    assert_eq!(store.add_client("news".to_string(), true), Ok(0));
}

#[test]
fn count_grows_by_one_per_subscribe() {
    let mut store = BroadcastStore::new();
    for n in 1..=5usize {
        store.add_client("c".to_string(), true).unwrap();
        assert_eq!(store.client_count("c"), n);
    }
}

#[test]
fn duplicate_subscriptions_are_independent() {
    let mut store = BroadcastStore::new();
    let a = store.add_client("c".to_string(), true).unwrap();
    let b = store.add_client("c".to_string(), true).unwrap();
    assert_ne!(a, b);
    store.remove_clients(&vec![a]);
    assert_eq!(store.broadcast("c"), vec![b]);
}

#[test]
fn failed_delivery_evicts_only_that_subscriber() {
    let mut store = BroadcastStore::new();
    let a = store.add_client("c".to_string(), true).unwrap();
    let b = store.add_client("c".to_string(), true).unwrap();
    let d = store.add_client("c".to_string(), true).unwrap();
    let e = store.add_client("e".to_string(), true).unwrap();
    store.remove_clients(&vec![b]);
    assert_eq!(store.broadcast("c"), vec![a, d]);
    assert_eq!(store.broadcast("e"), vec![e]);
    assert_eq!(store.client_count("c"), 2);
}

#[test]
fn sweep_keeps_subscribers_that_joined_meanwhile() {
    let mut store = BroadcastStore::new();
    let a = store.add_client("c".to_string(), true).unwrap();
    let probed = store.all_clients();
    assert_eq!(probed, vec![a]);
    let late = store.add_client("c".to_string(), true).unwrap();
    store.remove_clients(&probed);
    assert_eq!(store.broadcast("c"), vec![late]);
}

#[test]
fn all_clients_lists_every_channel() {
    let mut store = BroadcastStore::new();
    let a = store.add_client("a".to_string(), true).unwrap();
    let b = store.add_client("b".to_string(), true).unwrap();
    let c = store.add_client("a".to_string(), true).unwrap();
    let mut all = store.all_clients();
    all.sort();
    assert_eq!(all, vec![a, b, c]);
}

#[test]
fn removing_unknown_ids_changes_nothing() {
    let mut store = BroadcastStore::new();
    let a = store.add_client("a".to_string(), true).unwrap();
    store.remove_clients(&vec![a + 100]);
    assert_eq!(store.broadcast("a"), vec![a]);
    store.remove_clients(&vec![]);
    assert_eq!(store.client_count("a"), 1);
}

#[test]
fn cpu_listener_follows_the_cpu_channel() {
    let mut store = BroadcastStore::new();
    assert!(!store.has_cpu_listener());
    store.add_client("gpu".to_string(), true).unwrap();
    assert!(!store.has_cpu_listener());
    let id = store.add_client("cpu".to_string(), true).unwrap();
    assert!(store.has_cpu_listener());
    store.remove_clients(&vec![id]);
    assert!(!store.has_cpu_listener());
}

#[test]
fn producer_guard_starts_once_until_stopped() {
    let mut guard = ProducerGuard::new();
    assert!(!guard.is_running());
    assert!(guard.try_start());
    assert!(guard.is_running());
    assert!(!guard.try_start());
    guard.stop();
    assert!(!guard.is_running());
    assert!(guard.try_start());
}

#[test]
fn cpu_report_formats_one_reading_per_line() {
    let readings = vec!["12.5".to_string(), "3".to_string(), "0".to_string()];
    assert_eq!(cpu_report(&readings), "12.5%\n3%\n0%");
}

#[test]
fn cpu_report_of_one_and_of_none() {
    assert_eq!(cpu_report(&vec!["7".to_string()]), "7%");
    assert_eq!(cpu_report(&vec![]), "");
}

#[test]
fn emptied_channel_can_be_joined_again() {
    let mut store = BroadcastStore::new();
    let a = store.add_client("c".to_string(), true).unwrap();
    let b = store.add_client("d".to_string(), true).unwrap();
    store.remove_clients(&vec![a]);
    assert_eq!(store.client_count("c"), 0);
    assert_eq!(store.all_clients(), vec![b]);
    let again = store.add_client("c".to_string(), true).unwrap();
    assert_eq!(store.broadcast("c"), vec![again]);
    assert_eq!(store.broadcast("d"), vec![b]);
}
