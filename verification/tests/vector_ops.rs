use storage_vector::entry::CacheEntry;
use storage_vector::{Error, Store, Vector};

fn prefix() -> Vec<u8> {
    vec![42u8]
}

#[test]
fn push_then_get_returns_pushed() {
    let store = Store::new();
    let mut v = Vector::new(prefix());
    let values: Vec<Vec<u8>> = vec![vec![1u8], vec![2u8, 3u8], vec![], vec![255u8; 40]];
    for value in &values {
        assert!(v.push(value.clone()).is_ok());
    }
    for (i, value) in values.iter().enumerate() {
        assert_eq!(v.get(&store, i as u32), Some(value.clone()));
    }
}

#[test]
fn len_tracks_push_pop_clear() {
    let mut store = Store::new();
    let mut v = Vector::new(prefix());
    assert_eq!(v.len(), 0);
    assert!(v.is_empty());
    let before = v.len();
    assert!(v.push(vec![7u8]).is_ok());
    assert_eq!(v.len(), before + 1);
    assert!(v.push(vec![8u8]).is_ok());
    assert_eq!(v.len(), 2);
    let before = v.len();
    assert!(v.pop(&store).is_some());
    assert_eq!(v.len(), before - 1);
    v.clear(&mut store);
    assert_eq!(v.len(), 0);
}

#[test]
fn swap_remove_semantics() {
    let store = Store::new();
    let mut v = Vector::new(prefix());
    let values: Vec<Vec<u8>> = vec![vec![10u8], vec![11u8], vec![12u8], vec![13u8], vec![14u8]];
    for value in &values {
        assert!(v.push(value.clone()).is_ok());
    }
    let removed = v.swap_remove(&store, 1).unwrap();
    assert_eq!(removed, vec![11u8]);
    assert_eq!(v.len(), 4);
    assert_eq!(v.get(&store, 1), Some(vec![14u8]));
    assert_eq!(v.get(&store, 0), Some(vec![10u8]));
    assert_eq!(v.get(&store, 2), Some(vec![12u8]));
    assert_eq!(v.get(&store, 3), Some(vec![13u8]));
}

#[test]
fn swap_remove_last_element() {
    let store = Store::new();
    let mut v = Vector::new(prefix());
    assert!(v.push(vec![1u8]).is_ok());
    assert!(v.push(vec![2u8]).is_ok());
    assert_eq!(v.swap_remove(&store, 1).unwrap(), vec![2u8]);
    assert_eq!(v.len(), 1);
    assert_eq!(v.get(&store, 0), Some(vec![1u8]));
}

#[test]
fn pop_returns_last() {
    let store = Store::new();
    let mut v = Vector::new(prefix());
    assert!(v.push(vec![1u8]).is_ok());
    assert!(v.push(vec![2u8]).is_ok());
    assert_eq!(v.pop(&store), Some(vec![2u8]));
    assert_eq!(v.pop(&store), Some(vec![1u8]));
    assert_eq!(v.pop(&store), None);
}

#[test]
fn swap_exchanges_elements() {
    let store = Store::new();
    let mut v = Vector::new(prefix());
    assert!(v.push(vec![1u8]).is_ok());
    assert!(v.push(vec![2u8]).is_ok());
    assert!(v.push(vec![3u8]).is_ok());
    assert!(v.swap(&store, 0, 2).is_ok());
    assert_eq!(v.get(&store, 0), Some(vec![3u8]));
    assert_eq!(v.get(&store, 1), Some(vec![2u8]));
    assert_eq!(v.get(&store, 2), Some(vec![1u8]));
}

#[test]
fn swap_same_index_is_noop() {
    let store = Store::new();
    let mut v = Vector::new(prefix());
    assert!(v.push(vec![9u8]).is_ok());
    assert!(v.swap(&store, 0, 0).is_ok());
    assert_eq!(v.get(&store, 0), Some(vec![9u8]));
}

#[test]
fn set_overwrites_in_place() {
    let store = Store::new();
    let mut v = Vector::new(prefix());
    assert!(v.push(vec![1u8]).is_ok());
    assert!(v.push(vec![2u8]).is_ok());
    assert!(v.set(0, vec![100u8]).is_ok());
    assert_eq!(v.get(&store, 0), Some(vec![100u8]));
    assert_eq!(v.get(&store, 1), Some(vec![2u8]));
    assert_eq!(v.len(), 2);
}

#[test]
fn extend_appends_in_order() {
    let store = Store::new();
    let mut v = Vector::new(prefix());
    assert!(v.push(vec![0u8]).is_ok());
    assert!(v.extend(vec![vec![1u8], vec![2u8], vec![3u8]]).is_ok());
    assert_eq!(v.len(), 4);
    for i in 0..4u32 {
        assert_eq!(v.get(&store, i), Some(vec![i as u8]));
    }
}

#[test]
fn out_of_bounds_contract() {
    let store = Store::new();
    let mut v = Vector::new(prefix());
    assert!(v.push(vec![1u8]).is_ok());
    assert!(v.push(vec![2u8]).is_ok());

    assert_eq!(v.get(&store, 2), None);
    assert_eq!(v.get(&store, 1000), None);
    assert_eq!(v.len(), 2);

    assert_eq!(v.set(2, vec![9u8]), Err(Error::IndexOutOfBounds));
    assert_eq!(v.len(), 2);

    assert_eq!(v.swap(&store, 0, 2), Err(Error::IndexOutOfBounds));
    assert_eq!(v.len(), 2);

    assert_eq!(v.swap_remove(&store, 2), Err(Error::IndexOutOfBounds));
    assert_eq!(v.len(), 2);

    let mut empty = Vector::new(vec![43u8]);
    assert_eq!(empty.swap_remove(&store, 0), Err(Error::IndexOutOfBounds));
    assert_eq!(empty.pop(&store), None);
    assert_eq!(empty.len(), 0);
}

#[test]
fn get_beyond_length_then_push() {
    let store = Store::new();
    let mut v = Vector::new(prefix());
    assert_eq!(v.get(&store, 0), None);
    assert!(v.push(vec![5u8]).is_ok());
    assert_eq!(v.get(&store, 0), Some(vec![5u8]));
}

#[test]
fn expect_consistent_state_returns_value() {
    assert_eq!(storage_vector::expect_consistent_state(Some(3u32)), 3u32);
}

#[test]
fn cache_entry_state_machine() {
    let mut entry = CacheEntry::new_cached(Some(vec![1u8]));
    assert!(!entry.is_modified());
    assert_eq!(entry.value(), &Some(vec![1u8]));

    let previous = entry.replace(Some(vec![2u8]));
    assert_eq!(previous, Some(vec![1u8]));
    assert!(entry.is_modified());
    assert_eq!(entry.value_copy(), Some(vec![2u8]));

    entry.mark_flushed();
    assert!(!entry.is_modified());
    assert_eq!(entry.value(), &Some(vec![2u8]));

    let fresh = CacheEntry::new_modified(None);
    assert!(fresh.is_modified());
    assert_eq!(fresh.value_copy(), None);
}
