use motiongfx::id_registry::IdRegistry;

#[test]
fn new_registry_is_empty() {
    let registry = IdRegistry::new();
    assert!(registry.is_empty());
}

#[test]
fn register_instance_resolves_both_ways() {
    let mut registry = IdRegistry::new();
    let uid = registry.register_instance(7u64);

    assert_eq!(registry.get_uid(&7u64), Some(&uid));
    assert_eq!(registry.get_id(&uid), Some(&7u64));
    assert!(!registry.is_empty());
}

#[test]
fn register_instance_same_subject_returns_same_uid() {
    let mut registry = IdRegistry::new();
    let uid1 = registry.register_instance(7u64);
    let uid2 = registry.register_instance(7u64);

    assert_eq!(uid1, uid2);
}

#[test]
fn register_instance_distinct_subjects_get_distinct_uids() {
    let mut registry = IdRegistry::new();
    let uid1 = registry.register_instance(1u64);
    let uid2 = registry.register_instance(2u64);

    assert_ne!(uid1, uid2);
}

#[test]
fn remove_instance_erases_entry_after_single_registration() {
    let mut registry = IdRegistry::new();
    let uid = registry.register_instance(7u64);

    assert!(registry.remove_instance(&uid));
    assert!(registry.is_empty());
    assert_eq!(registry.get_id(&uid), None);
    assert_eq!(registry.get_uid(&7u64), None);
}

#[test]
fn remove_instance_ref_counts_multiple_registrations() {
    let mut registry = IdRegistry::new();
    let uid1 = registry.register_instance(7u64);
    let uid2 = registry.register_instance(7u64);
    assert_eq!(uid1, uid2);

    // One instance removed, one remains: entry must survive.
    assert!(registry.remove_instance(&uid1));
    assert!(!registry.is_empty());
    assert_eq!(registry.get_id(&uid1), Some(&7u64));

    // Last instance removed: entry is erased.
    assert!(registry.remove_instance(&uid1));
    assert!(registry.is_empty());
    assert_eq!(registry.get_id(&uid1), None);
}

#[test]
fn remove_instance_unknown_uid_returns_false() {
    let mut registry = IdRegistry::new();
    let uid = registry.register_instance(1u64);
    registry.remove_instance(&uid);

    // Already removed: a second removal finds nothing.
    assert!(!registry.remove_instance(&uid));
}

#[test]
fn registrations_of_different_subjects_are_independent() {
    let mut registry = IdRegistry::new();
    let uid1 = registry.register_instance(1u64);
    let uid2 = registry.register_instance(2u64);

    assert!(registry.remove_instance(&uid1));
    assert!(!registry.is_empty());
    assert_eq!(registry.get_id(&uid1), None);
    assert_eq!(registry.get_id(&uid2), Some(&2u64));
}

#[test]
fn uids_are_handed_out_in_order_and_not_reused() {
    let mut registry = IdRegistry::new();
    let uid1 = registry.register_instance(10u64);
    assert!(registry.remove_instance(&uid1));
    let uid2 = registry.register_instance(10u64);

    assert_ne!(uid1, uid2);
    assert!(uid1 < uid2);
    assert_eq!(registry.get_uid(&10u64), Some(&uid2));
}
