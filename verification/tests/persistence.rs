use storage_vector::{lookup_key, Error, Store, Vector};

#[test]
fn persistence_round_trip() {
    let mut store = Store::new();
    let prefix = vec![7u8, 7u8];
    let mut v = Vector::new(prefix.clone());
    assert!(v.push(vec![65u8]).is_ok());
    assert!(v.push(vec![66u8]).is_ok());
    assert!(v.push(vec![67u8]).is_ok());
    v.flush(&mut store);

    let mut fresh = Vector::from_parts(v.len(), prefix);
    assert_eq!(fresh.get(&store, 0), Some(vec![65u8]));
    assert_eq!(fresh.get(&store, 1), Some(vec![66u8]));
    assert_eq!(fresh.get(&store, 2), Some(vec![67u8]));
    assert_eq!(fresh.get(&store, 3), None);
}

#[test]
fn flush_twice_is_idempotent() {
    let mut store = Store::new();
    let mut v = Vector::new(vec![1u8]);
    assert!(v.push(vec![10u8]).is_ok());
    assert!(v.push(vec![20u8]).is_ok());
    v.flush(&mut store);
    let snapshot = store.clone();
    v.flush(&mut store);
    assert!(store == snapshot);
}

#[test]
fn flush_after_mutation_writes_again() {
    let mut store = Store::new();
    let mut v = Vector::new(vec![1u8]);
    assert!(v.push(vec![10u8]).is_ok());
    v.flush(&mut store);
    let snapshot = store.clone();
    assert!(v.set(0, vec![11u8]).is_ok());
    v.flush(&mut store);
    assert!(store != snapshot);
    let mut fresh = Vector::from_parts(1, vec![1u8]);
    assert_eq!(fresh.get(&store, 0), Some(vec![11u8]));
}

#[test]
fn clear_then_fresh_is_empty() {
    let mut store = Store::new();
    let prefix = vec![9u8];
    let mut v = Vector::new(prefix.clone());
    assert!(v.push(vec![1u8]).is_ok());
    assert!(v.push(vec![2u8]).is_ok());
    assert!(v.push(vec![3u8]).is_ok());
    v.flush(&mut store);
    v.clear(&mut store);
    assert_eq!(v.len(), 0);

    let mut fresh = Vector::new(prefix);
    assert_eq!(fresh.len(), 0);
    assert_eq!(fresh.get(&store, 0), None);
    assert_eq!(fresh.get(&store, 1), None);
    assert_eq!(fresh.get(&store, 2), None);
}

#[test]
fn clear_removes_pending_out_of_range_slots() {
    let mut store = Store::new();
    let prefix = vec![3u8];
    let mut v = Vector::new(prefix.clone());
    assert!(v.push(vec![1u8]).is_ok());
    assert!(v.push(vec![2u8]).is_ok());
    v.flush(&mut store);
    assert_eq!(v.pop(&store), Some(vec![2u8]));
    v.clear(&mut store);
    assert_eq!(store.read(&lookup_key(&prefix, 0)), None);
    assert_eq!(store.read(&lookup_key(&prefix, 1)), None);
}

#[test]
fn stored_form_is_length_prefixed() {
    let mut store = Store::new();
    let prefix = vec![1u8];
    let mut v = Vector::new(prefix.clone());
    assert!(v.push(vec![7u8, 8u8]).is_ok());
    v.flush(&mut store);
    let key = lookup_key(&prefix, 0);
    assert_eq!(key, vec![1u8, 0u8, 0u8, 0u8, 0u8]);
    assert_eq!(store.read(&key), Some(vec![2u8, 0u8, 0u8, 0u8, 7u8, 8u8]));
}

#[test]
fn pop_without_flush_leaves_storage_until_flushed() {
    let mut store = Store::new();
    let prefix = vec![5u8];
    let mut v = Vector::new(prefix.clone());
    assert!(v.push(vec![1u8]).is_ok());
    v.flush(&mut store);
    assert_eq!(v.pop(&store), Some(vec![1u8]));
    assert!(store.read(&lookup_key(&prefix, 0)).is_some());
    v.flush(&mut store);
    assert_eq!(store.read(&lookup_key(&prefix, 0)), None);
}

#[test]
fn state_bytes_round_trip() {
    let store = Store::new();
    let mut v = Vector::new(vec![9u8]);
    assert!(v.push(vec![4u8]).is_ok());
    assert!(v.push(vec![5u8]).is_ok());
    let state = v.state_bytes();
    assert_eq!(state, vec![2u8, 0u8, 0u8, 0u8, 1u8, 0u8, 0u8, 0u8, 9u8]);

    let mut back = Vector::from_state_bytes(&state).unwrap();
    assert_eq!(back.len(), 2);
    assert_eq!(back.get(&store, 0), None);
}

#[test]
fn state_bytes_rejects_malformed_input() {
    assert_eq!(
        Vector::from_state_bytes(&vec![1u8, 2u8]).err(),
        Some(Error::Deserialization)
    );
    assert_eq!(
        Vector::from_state_bytes(&vec![0u8, 0u8, 0u8, 0u8, 5u8, 0u8, 0u8, 0u8]).err(),
        Some(Error::Deserialization)
    );
}
