use comptime::field::FieldElement;
use comptime::sort::{get_shuffle_indices, partition, quicksort, quicksort_recursive, sort_advanced};

fn fes(xs: &[u64]) -> Vec<FieldElement> {
    xs.iter().map(|x| FieldElement::from_u64(*x)).collect()
}

#[test]
fn quicksort_orders_keys() {
    let mut v = fes(&[9, 3, 7, 3, 0, 12, 1]);
    quicksort(&mut v);
    assert_eq!(v, fes(&[0, 1, 3, 3, 7, 9, 12]));
    let mut empty: Vec<FieldElement> = Vec::new();
    quicksort(&mut empty);
    assert!(empty.is_empty());
}

#[test]
fn quicksort_orders_by_upper_half_first() {
    let mut v = vec![FieldElement::from_halves(1, 0), FieldElement::from_halves(0, u128::MAX)];
    quicksort(&mut v);
    assert_eq!(v, vec![FieldElement::from_halves(0, u128::MAX), FieldElement::from_halves(1, 0)]);
}

#[test]
fn partition_splits_around_last_element() {
    let mut v = fes(&[8, 2, 9, 1, 5]);
    let p = partition(&mut v, 0, 4);
    assert_eq!(p, 2);
    assert_eq!(v, fes(&[2, 1, 5, 8, 9]));
}

#[test]
fn quicksort_recursive_sorts_only_its_range() {
    let mut v = fes(&[9, 4, 3, 2, 0]);
    quicksort_recursive(&mut v, 1, 3);
    assert_eq!(v, fes(&[9, 2, 3, 4, 0]));
}

#[test]
fn shuffle_indices_take_first_free_match() {
    let lhs = fes(&[5, 1, 5, 3]);
    let rhs = fes(&[1, 3, 5, 5]);
    assert_eq!(get_shuffle_indices(&lhs, &rhs), vec![2, 0, 3, 1]);
}

#[test]
fn sort_advanced_reports_placement() {
    let r = sort_advanced(&fes(&[4, 0, 4, 2]));
    assert_eq!(r.sorted, fes(&[0, 2, 4, 4]));
    assert_eq!(r.sort_indices, vec![2, 0, 3, 1]);
}

#[test]
fn field_arithmetic() {
    let a = FieldElement::from_halves(0, u128::MAX);
    let b = a.plus(&FieldElement::from_u32(1));
    assert_eq!(b, FieldElement::from_halves(1, 0));
    assert_eq!(b.minus_one(), a);
    assert!(a.lt(&b));
    assert!(!b.lt(&a));
    assert!(a.le(&a));
    assert!(FieldElement::modulus().minus_one().in_field());
    assert!(!FieldElement::modulus().in_field());
}

#[test]
fn partition_keeps_lower_part_in_order() {
    let mut v = fes(&[1, 3, 2]);
    let p = partition(&mut v, 0, 2);
    assert_eq!(p, 1);
    assert_eq!(v, fes(&[1, 2, 3]));
    let mut w = fes(&[4, 1, 9, 0, 3, 5]);
    let q = partition(&mut w, 0, 5);
    assert_eq!(q, 4);
    assert_eq!(&w[..4], &fes(&[4, 1, 0, 3])[..]);
    assert_eq!(w[4], FieldElement::from_u64(5));
}

#[test]
fn quicksort_recursive_leaves_empty_ranges_alone() {
    let mut empty: Vec<FieldElement> = Vec::new();
    quicksort_recursive(&mut empty, 0, 0);
    assert!(empty.is_empty());
    let mut v = fes(&[3, 1]);
    quicksort_recursive(&mut v, 1, 0);
    assert_eq!(v, fes(&[3, 1]));
}
