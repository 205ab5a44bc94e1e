use to_do::vector::Vector;

#[test]
fn push_then_pop_returns_last() {
    let mut v: Vector<i32> = Vector::new();
    v.push(1);
    v.push(2);
    v.push(3);
    assert_eq!(v.pop(), Some(3));
    assert_eq!(v.pop(), Some(2));
    assert_eq!(v.pop(), Some(1));
    assert_eq!(v.pop(), None);
}

#[test]
fn remove_shifts_and_checks_bounds() {
    let mut v: Vector<i32> = Vector::new();
    v.push(1);
    v.push(2);
    v.push(3);
    assert_eq!(v.remove(1), Some(2));
    assert_eq!(v.get(1), Some(&3));
    assert_eq!(v.remove(5), None);
}

#[test]
fn get_in_and_out_of_range() {
    let mut v: Vector<i32> = Vector::new();
    v.push(10);
    assert_eq!(v.get(0), Some(&10));
    assert_eq!(v.get(1), None);
}

#[test]
fn resize_fills_with_value() {
    let mut v: Vector<i32> = Vector::with_capacity(5);
    v.resize(3, 5);
    assert_eq!(v.pop(), Some(5));
    assert_eq!(v.get(0), Some(&5));
    assert_eq!(v.get(1), Some(&5));
    assert_eq!(v.get(2), None);
}

#[test]
fn resize_shrinks_keeping_prefix() {
    let mut v: Vector<i32> = Vector::new();
    v.push(1);
    v.push(2);
    v.push(3);
    v.resize(2, 9);
    assert_eq!(v.get(0), Some(&1));
    assert_eq!(v.get(1), Some(&2));
    assert_eq!(v.get(2), None);
}
