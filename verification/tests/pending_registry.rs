use turbopipe::pending::PendingRegistry;

#[test]
fn a_new_registry_is_empty() {
    let registry = PendingRegistry::new();
    assert!(registry.is_empty());
    assert!(registry.is_drained(0));
    assert!(!registry.contains(0));
}

#[test]
fn an_address_is_held_once_whatever_the_destination() {
    let mut registry = PendingRegistry::new();
    assert!(registry.insert(0x10, 1));
    assert!(!registry.insert(0x10, 1));
    assert!(!registry.insert(0x10, 2));
    assert!(registry.contains(0x10));
    assert!(!registry.is_empty());
    assert!(!registry.is_drained(1));
    assert!(registry.is_drained(2));
}

#[test]
fn an_address_leaves_only_for_its_own_destination() {
    let mut registry = PendingRegistry::new();
    assert!(registry.insert(0x10, 1));
    assert!(!registry.remove(0x10, 2));
    assert!(registry.contains(0x10));
    assert!(!registry.remove(0x20, 1));
    assert!(registry.remove(0x10, 1));
    assert!(!registry.remove(0x10, 1));
    assert!(!registry.contains(0x10));
    assert!(registry.is_empty());
    assert!(registry.is_drained(1));
}

#[test]
fn destinations_drain_one_by_one() {
    let mut registry = PendingRegistry::new();
    for address in 0..10usize {
        assert!(registry.insert(address, (address % 2) as i32));
    }
    for address in (0..10usize).filter(|a| a % 2 == 0) {
        assert!(!registry.is_drained(0));
        assert!(registry.remove(address, 0));
    }
    assert!(registry.is_drained(0));
    assert!(!registry.is_drained(1));
    assert!(!registry.is_empty());
    for address in (0..10usize).filter(|a| a % 2 == 1) {
        assert!(registry.remove(address, 1));
    }
    assert!(registry.is_drained(1));
    assert!(registry.is_empty());
    // An address that has left can come back, for another destination.
    assert!(registry.insert(3, 0));
    assert!(!registry.is_drained(0));
    assert!(registry.is_drained(1));
}
