use facet_core::cache::BalancedCaches;
use facet_core::reconciler::DelAdd;

#[test]
fn inserted_facts_are_found_on_their_side() {
    let mut cache = BalancedCaches::new(4, 1 << 20);
    let key = vec![4u8, 0, 3];
    cache.insert_add_u32(&key, 7);
    assert!(cache.contains(&key, 7, DelAdd::Addition));
    assert!(!cache.contains(&key, 7, DelAdd::Deletion));
    assert!(!cache.contains(&key, 8, DelAdd::Addition));
    cache.insert_del_u32(&key, 7);
    assert!(cache.contains(&key, 7, DelAdd::Deletion));
}

#[test]
fn a_spill_loses_nothing() {
    // a budget small enough that every insert crosses it
    let mut cache = BalancedCaches::new(2, 8);
    let mut keys = Vec::new();
    for i in 0..50u32 {
        let mut key = vec![1u8, 0, (i % 7) as u8, 0];
        key.extend_from_slice(&i.to_be_bytes());
        cache.insert_add_u32(&key, i);
        if i % 3 == 0 {
            cache.insert_del_u32(&key, i + 1);
        }
        keys.push(key);
    }
    for (i, key) in keys.iter().enumerate() {
        let i = i as u32;
        assert!(cache.contains(key, i, DelAdd::Addition));
        if i % 3 == 0 {
            assert!(cache.contains(key, i + 1, DelAdd::Deletion));
        } else {
            assert!(!cache.contains(key, i + 1, DelAdd::Deletion));
        }
    }
}

#[test]
fn a_tight_budget_forces_spills_and_a_loose_one_avoids_them() {
    let mut tight = BalancedCaches::new(2, 8);
    let mut loose = BalancedCaches::new(2, 1 << 20);
    for i in 0..10u32 {
        let key = vec![4u8, 0, i as u8];
        tight.insert_add_u32(&key, i);
        loose.insert_add_u32(&key, i);
    }
    assert!(tight.has_spilled());
    assert!(!loose.has_spilled());
}

#[test]
fn sides_and_documents_are_kept_apart() {
    let mut cache = BalancedCaches::new(1, 1 << 16);
    let ka = vec![0u8, 0, 1, 0];
    let kb = vec![0u8, 0, 2, 0];
    cache.insert_add_u32(&ka, 1);
    cache.insert_del_u32(&kb, 1);
    cache.insert_add_u32(&kb, 2);
    assert!(cache.contains(&ka, 1, DelAdd::Addition));
    assert!(!cache.contains(&kb, 1, DelAdd::Addition));
    assert!(cache.contains(&kb, 1, DelAdd::Deletion));
    assert!(cache.contains(&kb, 2, DelAdd::Addition));
    assert!(!cache.contains(&ka, 2, DelAdd::Addition));
}
