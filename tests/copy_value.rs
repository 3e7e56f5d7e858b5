use dioxus_signals::{BorrowError, BorrowMutError, CopyValue, Runtime, ScopeId};

#[test]
fn copy_sees_writes_through_original() {
    let mut rt: Runtime<i32> = Runtime::new();
    let a = rt.create_scope();
    rt.enter_scope(a);
    let c1 = CopyValue::new(5, &mut rt);
    let mut c2 = c1.clone();
    c2.set(6, &mut rt);
    assert_eq!(c1.value(&mut rt), 6);
    assert_eq!(c2.value(&mut rt), 6);
}

#[test]
fn teardown_makes_values_stale() {
    let mut rt: Runtime<i32> = Runtime::new();
    let a = rt.create_scope();
    rt.enter_scope(a);
    let c1 = CopyValue::new(5, &mut rt);
    let c2 = CopyValue::new(8, &mut rt);
    rt.drop_scope(a);
    assert!(matches!(c1.try_read(&mut rt), Err(BorrowError::Dropped)));
    assert!(matches!(c2.try_read(&mut rt), Err(BorrowError::Dropped)));
    assert!(matches!(c1.try_write(&mut rt), Err(BorrowMutError::Dropped)));
}

#[test]
fn teardown_leaves_other_scopes_alone() {
    let mut rt: Runtime<i32> = Runtime::new();
    let a = rt.create_scope();
    let b = rt.create_scope();
    let in_a = CopyValue::new_in_scope(1, a, &mut rt);
    let in_b = CopyValue::new_in_scope(2, b, &mut rt);
    rt.drop_scope(a);
    assert!(matches!(in_a.try_read(&mut rt), Err(BorrowError::Dropped)));
    assert_eq!(in_b.value(&mut rt), 2);
}

#[test]
fn spec_scenario_reuse_after_teardown() {
    let mut rt: Runtime<i32> = Runtime::new();
    let a = rt.create_scope();
    rt.enter_scope(a);
    let c1 = CopyValue::new(5, &mut rt);
    let mut c2 = c1;
    c2.set(6, &mut rt);
    assert_eq!(c1.value(&mut rt), 6);
    rt.drop_scope(a);
    assert!(matches!(c1.try_read(&mut rt), Err(BorrowError::Dropped)));
    let b = rt.create_scope();
    let c3 = CopyValue::new_in_scope(7, b, &mut rt);
    assert!(c3 != c1);
    assert_eq!(c3.value(&mut rt), 7);
    assert!(matches!(c1.try_read(&mut rt), Err(BorrowError::Dropped)));
}

#[test]
fn held_write_blocks_reads_and_writes() {
    let mut rt: Runtime<i32> = Runtime::new();
    let c = CopyValue::new(1, &mut rt);
    let g = c.try_write(&mut rt).unwrap();
    assert!(matches!(c.try_read(&mut rt), Err(BorrowError::AlreadyBorrowedMut)));
    assert!(matches!(c.try_write(&mut rt), Err(BorrowMutError::AlreadyBorrowedMut)));
    rt.release_write(g);
    let r = c.try_read(&mut rt).unwrap();
    rt.release_read(r);
    let w = c.try_write(&mut rt).unwrap();
    rt.release_write(w);
}

#[test]
fn reads_share_and_block_writes() {
    let mut rt: Runtime<i32> = Runtime::new();
    let c = CopyValue::new(3, &mut rt);
    let r1 = c.try_read(&mut rt).unwrap();
    let r2 = c.try_read(&mut rt).unwrap();
    let r3 = c.read(&mut rt);
    assert_eq!(rt.get(&r1), Some(&3));
    assert_eq!(rt.get(&r3), Some(&3));
    assert!(matches!(c.try_write(&mut rt), Err(BorrowMutError::AlreadyBorrowed)));
    rt.release_read(r1);
    rt.release_read(r2);
    assert!(matches!(c.try_write(&mut rt), Err(BorrowMutError::AlreadyBorrowed)));
    rt.release_read(r3);
    let w = c.try_write(&mut rt).unwrap();
    rt.release_write(w);
}

#[test]
fn copies_are_equal_and_allocations_are_not() {
    let mut rt: Runtime<i32> = Runtime::new();
    let a = CopyValue::new(4, &mut rt);
    let b = CopyValue::new(4, &mut rt);
    let copy = a.clone();
    assert!(a == copy);
    assert!(a != b);
}

#[test]
fn invalid_reads_as_dropped() {
    let mut rt: Runtime<i32> = Runtime::new();
    let c: CopyValue<i32> = CopyValue::invalid(&mut rt);
    assert!(matches!(c.try_read(&mut rt), Err(BorrowError::Dropped)));
    assert!(matches!(c.try_write(&mut rt), Err(BorrowMutError::Dropped)));
    assert_eq!(c.origin_scope(), ScopeId(0));
}

#[test]
fn invalid_is_unequal_to_later_values() {
    let mut rt: Runtime<i32> = Runtime::new();
    let bad: CopyValue<i32> = CopyValue::invalid(&mut rt);
    let good = CopyValue::new(1, &mut rt);
    assert!(bad != good);
    assert_eq!(good.value(&mut rt), 1);
}

#[test]
fn origin_scope_is_recorded() {
    let mut rt: Runtime<i32> = Runtime::new();
    let a = rt.create_scope();
    let b = rt.create_scope();
    rt.enter_scope(a);
    let here = CopyValue::new(1, &mut rt);
    let there = CopyValue::new_in_scope(2, b, &mut rt);
    assert_eq!(here.origin_scope(), a);
    assert_eq!(there.origin_scope(), b);
    assert_eq!(rt.current_scope(), a);
}

#[test]
fn with_and_with_mut() {
    let mut rt: Runtime<i32> = Runtime::new();
    let c = CopyValue::new(10, &mut rt);
    let doubled = c.with(&mut rt, |v: &i32| *v * 2);
    assert_eq!(doubled, 20);
    let before = c.with_mut(&mut rt, |v: &mut i32| {
        let old = *v;
        *v += 5;
        old
    });
    assert_eq!(before, 10);
    assert_eq!(c.value(&mut rt), 15);
    let w = c.try_write(&mut rt).unwrap();
    rt.release_write(w);
}

#[test]
fn value_clones_contents() {
    let mut rt: Runtime<String> = Runtime::new();
    let c = CopyValue::new(String::from("hello"), &mut rt);
    let v = c.value(&mut rt);
    assert_eq!(v, "hello");
    let mut c2 = c;
    c2.set(String::from("bye"), &mut rt);
    assert_eq!(v, "hello");
    assert_eq!(c.value(&mut rt), "bye");
}

#[test]
fn put_fails_once_the_scope_is_gone() {
    let mut rt: Runtime<i32> = Runtime::new();
    let a = rt.create_scope();
    let c = CopyValue::new_in_scope(1, a, &mut rt);
    let w = c.write(&mut rt);
    assert!(rt.put(&w, 9));
    rt.drop_scope(a);
    assert!(!rt.put(&w, 11));
    rt.release_write(w);
    assert!(matches!(c.try_read(&mut rt), Err(BorrowError::Dropped)));
}

#[test]
fn get_needs_a_held_view() {
    let mut rt: Runtime<i32> = Runtime::new();
    let c = CopyValue::new(2, &mut rt);
    let r = c.read(&mut rt);
    assert_eq!(rt.get(&r), Some(&2));
    let h = r.handle();
    rt.release_read(r);
    let w = c.write(&mut rt);
    assert_eq!(w.handle(), h);
    assert!(rt.put(&w, 12));
    rt.release_write(w);
    assert_eq!(c.value(&mut rt), 12);
}
