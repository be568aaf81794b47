use lattice::matrix::Row;

fn values(r: &Row) -> Vec<i64> {
    let mut v = Vec::new();
    for i in 0..r.len() {
        v.push(*r.index(i));
    }
    v
}

#[test]
fn row_new_and_index() {
    let r = Row::new(&[3, -4, 5]);
    assert_eq!(values(&r), vec![3, -4, 5]);
    assert_eq!(*r.index(1), -4);
}

#[test]
fn row_new_zeroed() {
    assert_eq!(values(&Row::new_zeroed(4)), vec![0, 0, 0, 0]);
    assert_eq!(Row::new_zeroed(0).len(), 0);
}

#[test]
fn row_index_mut_changes_one_entry() {
    let mut r = Row::new(&[1, 2, 3]);
    *r.index_mut(2) = 9;
    assert_eq!(values(&r), vec![1, 2, 9]);
}

#[test]
fn row_map_applies_function() {
    let r = Row::new(&[1, -2, 3]);
    let m = r.map(&|x: &i64| *x * 10);
    assert_eq!(values(&m), vec![10, -20, 30]);
}

#[test]
fn row_add_is_as_long_as_shorter() {
    let a = Row::new(&[1, 2, 3]);
    let b = Row::new(&[10, 20]);
    assert_eq!(values(&a.add(b)), vec![11, 22]);
}

#[test]
fn row_add_assign_adds_as_far_as_rhs_reaches() {
    let mut a = Row::new(&[1, 2, 3]);
    a.add_assign(&Row::new(&[10, 20]));
    assert_eq!(values(&a), vec![11, 22, 3]);
    let mut b = Row::new(&[1, 2]);
    b.add_assign(&Row::new(&[10, 20, 30]));
    assert_eq!(values(&b), vec![11, 22]);
}

#[test]
fn row_add_assign_owned() {
    let mut a = Row::new(&[1, 2]);
    a.add_assign_owned(Row::new(&[5, 6, 7]));
    assert_eq!(values(&a), vec![6, 8]);
}

#[test]
fn row_add_mut_empties_left_operand() {
    let mut a = Row::new(&[1, 2, 3]);
    let mut b = Row::new(&[4, 5]);
    let s = a.add_mut(&mut b);
    assert_eq!(values(&s), vec![5, 7, 3]);
    assert_eq!(a.len(), 0);
    assert_eq!(values(&b), vec![4, 5]);
}

#[test]
fn row_rem_keeps_sign_of_dividend() {
    let r = Row::new(&[7, -7, 10, -10]);
    assert_eq!(values(&r.rem(3)), vec![1, -1, 1, -1]);
    let mut s = Row::new(&[7, -7]);
    s.rem_assign(-3);
    assert_eq!(values(&s), vec![1, -1]);
}

#[test]
fn row_checks() {
    let a = Row::new(&[i64::MAX, 1]);
    assert!(!a.can_add(&Row::new(&[1, 1])));
    assert!(a.can_add(&Row::new(&[0, 1])));
    assert!(!Row::new(&[i64::MIN]).can_rem(-1));
    assert!(!Row::new(&[5]).can_rem(0));
    assert!(Row::new(&[]).can_rem(0));
    assert!(Row::new(&[i64::MIN]).can_rem(2));
}

#[test]
fn row_text_forms() {
    let r = Row::new(&[3, -40, 0]);
    assert_eq!(r.to_text(), b"3 -40 0".to_vec());
    assert_eq!(r.to_debug_text(), b"[3, -40, 0]".to_vec());
    assert_eq!(Row::new(&[i64::MIN]).to_text(), b"-9223372036854775808".to_vec());
}

#[test]
fn row_clone_is_equal() {
    let r = Row::new(&[1, 2]);
    let c = r.clone();
    assert_eq!(values(&c), values(&r));
}
