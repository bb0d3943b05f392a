use relay_core::registry::{Arrival, PairingRegistry};

#[test]
fn register_then_pair_hands_over_the_ticket_once() {
    let mut reg = PairingRegistry::new();
    let id = "s1".to_string();
    let t = reg.register_wait(&id).unwrap();
    assert!(reg.contains(&id));
    assert_eq!(reg.try_pair(&id), Some(t));
    // Paired exactly once: no residual entry, nothing left to claim.
    assert!(!reg.contains(&id));
    assert_eq!(reg.try_pair(&id), None);
}

#[test]
fn distinct_identifiers_never_pair_with_each_other() {
    let mut reg = PairingRegistry::new();
    let a = "session-a".to_string();
    let b = "session-b".to_string();
    reg.register_wait(&a).unwrap();
    assert_eq!(reg.try_pair(&b), None);
    // The waiter under the other identifier is untouched.
    assert!(reg.contains(&a));
    assert!(!reg.contains(&b));
}

#[test]
fn minted_tickets_are_never_shared() {
    let mut reg = PairingRegistry::new();
    let a = "one".to_string();
    let b = "two".to_string();
    let ta = reg.register_wait(&a).unwrap();
    let tb = reg.register_wait(&b).unwrap();
    assert_ne!(ta, tb);
    // Each identifier yields exactly its own waiter's ticket.
    assert_eq!(reg.try_pair(&a), Some(ta));
    assert_eq!(reg.try_pair(&b), Some(tb));
}

#[test]
fn second_register_for_same_identifier_is_refused() {
    let mut reg = PairingRegistry::new();
    let id = "dup".to_string();
    let t = reg.register_wait(&id).unwrap();
    assert_eq!(reg.register_wait(&id), None);
    // The original waiter's ticket still stands.
    assert_eq!(reg.try_pair(&id), Some(t));
}

#[test]
fn cancel_wait_removes_the_entry_and_tolerates_absence() {
    let mut reg = PairingRegistry::new();
    let id = "s2".to_string();
    reg.register_wait(&id).unwrap();
    assert!(reg.cancel_wait(&id));
    assert!(!reg.contains(&id));
    // A second cancel is a harmless no-op.
    assert!(!reg.cancel_wait(&id));
    // A later, unrelated connection with the same identifier starts fresh.
    assert_eq!(reg.try_pair(&id), None);
}

#[test]
fn arrive_orders_two_connections_into_first_and_second() {
    let mut reg = PairingRegistry::new();
    let id = "shared".to_string();
    // First arrival registers and waits.
    let t1 = match reg.arrive(&id) {
        Arrival::Waiting(t) => t,
        other => panic!("expected a first arrival, got {:?}", other),
    };
    // Second arrival claims the first one's ticket and clears the entry.
    assert_eq!(reg.arrive(&id), Arrival::Paired(t1));
    assert!(!reg.contains(&id));
    // A third connection becomes a fresh first arrival.
    assert!(matches!(reg.arrive(&id), Arrival::Waiting(_)));
}
