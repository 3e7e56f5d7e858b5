use dioxus_signals::{BorrowError, Owner, Store};

#[test]
fn reused_slot_gets_a_new_generation() {
    let mut store: Store<u32> = Store::new();
    let mut owner = Owner::new();
    let first = owner.insert(&mut store, 10);
    assert_eq!(first.index, 0);
    assert_eq!(first.generation, 0);
    assert!(store.is_valid(first));
    owner.release(&mut store);
    assert!(!store.is_valid(first));
    let second = owner.insert(&mut store, 20);
    assert_eq!(second.index, first.index);
    assert_eq!(second.generation, 1);
    assert!(second != first);
    assert!(!store.is_valid(first));
    assert!(store.is_valid(second));
    assert!(matches!(store.try_read(first), Err(BorrowError::Dropped)));
    let g = store.try_read(second).unwrap();
    assert_eq!(store.get(&g), Some(&20));
    store.release_read(g);
}

#[test]
fn allocations_take_fresh_slots_while_live() {
    let mut store: Store<u32> = Store::new();
    let a = store.allocate(1);
    let b = store.allocate(2);
    assert_eq!(a.index, 0);
    assert_eq!(b.index, 1);
    assert!(a != b);
}

#[test]
fn owner_frees_all_it_holds() {
    let mut store: Store<u32> = Store::new();
    let mut owner = Owner::new();
    let mut other = Owner::new();
    let a = owner.insert(&mut store, 1);
    let b = owner.insert(&mut store, 2);
    let c = other.insert(&mut store, 3);
    owner.release(&mut store);
    assert!(!store.is_valid(a));
    assert!(!store.is_valid(b));
    assert!(store.is_valid(c));
}

#[test]
fn invalid_handle_is_stale_and_slot_is_reused() {
    let mut store: Store<u32> = Store::new();
    let owner = Owner::new();
    let bad = owner.invalid(&mut store);
    assert!(!store.is_valid(bad));
    let fresh = store.allocate(5);
    assert_eq!(fresh.index, bad.index);
    assert_eq!(fresh.generation, bad.generation + 1);
    assert!(store.is_valid(fresh));
    assert!(!store.is_valid(bad));
}
