use comptime::field::{FieldElement, ToU32};
use comptime::sparse::{BuildError, SparseArray};

fn fe(x: u64) -> FieldElement {
    FieldElement::from_u64(x)
}

fn fes(xs: &[u64]) -> Vec<FieldElement> {
    xs.iter().map(|x| fe(*x)).collect()
}

#[test]
fn lookup_gives_every_pair() {
    let keys = fes(&[40, 3, 17, 9]);
    let values = vec![1u32, 2, 3, 4];
    let table = SparseArray::create(&keys, &values, fe(50));
    for i in 0..keys.len() {
        assert_eq!(*table.get(&keys[i]), values[i]);
    }
}

#[test]
fn duplicate_key_answers_its_last_value() {
    let keys = fes(&[6, 2, 6, 6]);
    let values = vec![10u32, 20, 30, 40];
    let table = SparseArray::create(&keys, &values, fe(8));
    assert_eq!(*table.get(&fe(6)), 40);
    assert_eq!(*table.get(&fe(2)), 20);
    assert_eq!(*table.get(&fe(5)), 0);
}

#[test]
fn holes_answer_the_default() {
    let keys = fes(&[2, 5]);
    let values = vec![7i64, -3];
    let table = SparseArray::create(&keys, &values, fe(10));
    for k in [0u64, 1, 3, 4, 6, 7, 8, 9] {
        assert_eq!(*table.get(&fe(k)), 0);
    }
}

#[test]
fn indices_past_the_maximum_answer_the_default() {
    let keys = fes(&[0, 9]);
    let values = vec![5u8, 6];
    let table = SparseArray::create(&keys, &values, fe(10));
    assert_eq!(*table.get(&fe(9)), 6);
    assert_eq!(*table.get(&fe(10)), 0);
    assert_eq!(*table.get(&fe(1 << 40)), 0);
    assert_eq!(*table.get(&FieldElement::from_halves(1, 0)), 0);
}

#[test]
fn maximum_without_entry_answers_the_default() {
    let keys = fes(&[3]);
    let values = vec![1u32];
    let table = SparseArray::create(&keys, &values, fe(10));
    assert_eq!(*table.get(&fe(9)), 0);
    assert_eq!(*table.get_maximum(), fe(9));
}

#[test]
fn empty_key_set_answers_the_default_everywhere() {
    let keys: Vec<FieldElement> = Vec::new();
    let values: Vec<u32> = Vec::new();
    let table = SparseArray::create(&keys, &values, fe(4));
    for k in 0..6u64 {
        assert_eq!(*table.get(&fe(k)), 0);
    }
    let text = SparseArray::create(&keys, &fes(&[]), fe(4)).to_noir_string(None, None);
    assert_eq!(
        text,
        "SparseArray<0, Field> = SparseArray {\n    keys: [0x00000000, 0x00000003],\n    values: [0x00000000, 0x00000000, 0x00000000],\n    maximum: 0x00000003\n};"
    );
}

#[test]
fn boundary_slots_hold_the_boundary_values() {
    // The zero key is not the first raw key: its slot still takes its value.
    let keys = fes(&[5, 0, 9]);
    let values = fes(&[7, 8, 11]);
    let table = SparseArray::create(&keys, &values, fe(10));
    assert_eq!(*table.get(&fe(0)), fe(8));
    assert_eq!(*table.get(&fe(9)), fe(11));
    assert_eq!(
        table.to_noir_string(None, None),
        "SparseArray<3, Field> = SparseArray {\n    keys: [0x00000000, 0x00000000, 0x00000005, 0x00000009, 0x00000009],\n    values: [0x00000000, 0x00000008, 0x00000008, 0x00000007, 0x0000000b, 0x0000000b],\n    maximum: 0x00000009\n};"
    );
}

#[test]
fn boundary_slots_stay_default_without_boundary_keys() {
    let keys = fes(&[4]);
    let values = fes(&[2]);
    let table = SparseArray::create(&keys, &values, fe(10));
    assert_eq!(
        table.to_noir_string(None, None),
        "SparseArray<1, Field> = SparseArray {\n    keys: [0x00000000, 0x00000004, 0x00000009],\n    values: [0x00000000, 0x00000000, 0x00000002, 0x00000000],\n    maximum: 0x00000009\n};"
    );
}

#[test]
fn repeated_lookups_agree_and_leave_the_table_alone() {
    let keys = fes(&[1, 4]);
    let values = fes(&[3, 6]);
    let table = SparseArray::create(&keys, &values, fe(8));
    let before = table.to_noir_string(None, None);
    for k in 0..10u64 {
        let first = *table.get(&fe(k));
        let second = *table.get(&fe(k));
        assert_eq!(first, second);
        assert!(std::ptr::eq(table.get(&fe(k)), table.get(&fe(k))));
    }
    assert_eq!(table.to_noir_string(None, None), before);
}

#[test]
fn construction_within_bounds_succeeds() {
    let keys = fes(&[0, 3]);
    let values = vec![1u32, 2];
    let table = SparseArray::try_create(&keys, &values, fe(4)).unwrap();
    assert_eq!(*table.get(&fe(3)), 2);
    let p = FieldElement::modulus();
    let largest = p.minus_one();
    let table = SparseArray::try_create(&[largest], &[9u32], p).unwrap();
    assert_eq!(*table.get(&largest), 9);
}

#[test]
fn construction_rejects_each_bound() {
    let p = FieldElement::modulus();
    let r = SparseArray::try_create(&fes(&[1, 2]), &[1u32], fe(4));
    assert!(matches!(r, Err(BuildError::LengthMismatch)));
    let r = SparseArray::try_create(&fes(&[]), &Vec::<u32>::new(), fe(0));
    assert!(matches!(r, Err(BuildError::EmptyDomain)));
    let r = SparseArray::try_create(&fes(&[1]), &[1u32], p.plus(&fe(1)));
    assert!(matches!(r, Err(BuildError::MaximumOutOfField)));
    let r = SparseArray::try_create(&[fe(1), p], &[1u32, 2], fe(4));
    assert!(matches!(r, Err(BuildError::KeyOutOfField)));
    let r = SparseArray::try_create(&fes(&[1, 4]), &[1u32, 2], fe(4));
    assert!(matches!(r, Err(BuildError::KeyAboveMaximum)));
}

#[test]
fn text_names_the_table_and_its_element_type() {
    let keys = fes(&[2]);
    let values = fes(&[255]);
    let table = SparseArray::create(&keys, &values, fe(3));
    assert_eq!(
        table.to_noir_string(Some("OPCODES"), Some("u8")),
        "OPCODES: SparseArray<1, u8> = SparseArray {\n    keys: [0x00000000, 0x00000002, 0x00000002],\n    values: [0x00000000, 0x00000000, 0x000000ff, 0x000000ff],\n    maximum: 0x00000002\n};"
    );
}

#[test]
fn text_writes_wide_keys_in_full() {
    let keys = vec![fe(1 << 32), FieldElement::from_halves(1, 1)];
    let values = fes(&[1, 2]);
    let size = FieldElement::from_halves(2, 0);
    let table = SparseArray::create(&keys, &values, size);
    let text = table.to_noir_string(None, None);
    assert!(text.contains(
        "keys: [0x00000000, 0x100000000, 0x100000000000000000000000000000001, 0x1ffffffffffffffffffffffffffffffff]"
    ));
    assert!(text.ends_with("maximum: 0x1ffffffffffffffffffffffffffffffff\n};"));
}

#[test]
fn text_counts_many_entries_in_decimal() {
    let keys: Vec<FieldElement> = (0..12u64).map(|k| fe(k * 3)).collect();
    let values: Vec<FieldElement> = (0..12u64).map(|v| fe(v + 1)).collect();
    let table = SparseArray::create(&keys, &values, fe(40));
    assert!(table.to_noir_string(None, None).starts_with("SparseArray<12, Field> = SparseArray {\n"));
}

#[test]
fn packer_sums_colliding_entries() {
    let table = fes(&[0, 2, 0, 5]);
    let packed = SparseArray::create_packed(&table, 2048);
    assert_eq!(*packed.get(&fe(1)), fe(2 + 2 * 256));
    assert_eq!(*packed.get(&fe(3)), fe(5 + 5 * 256));
    assert_eq!(*packed.get(&fe(257)), fe(512));
    assert_eq!(*packed.get(&fe(1025)), fe(512));
    assert_eq!(*packed.get(&fe(259)), fe(1280));
    assert_eq!(*packed.get(&fe(1027)), fe(1280));
    assert_eq!(*packed.get(&fe(0)), fe(0));
    assert_eq!(*packed.get(&fe(2)), fe(0));
    assert_eq!(*packed.get(&fe(1281)), fe(0));
    assert_eq!(*packed.get_maximum(), fe(2047));
}

#[test]
fn packer_sums_a_wide_entry_with_a_repeated_one() {
    let mut table = fes(&[0; 258]);
    table[1] = fe(2);
    table[257] = fe(3);
    let packed = SparseArray::create_packed(&table, 1024);
    assert_eq!(*packed.get(&fe(1)), fe(2 + 512));
    assert_eq!(*packed.get(&fe(257)), fe(3 + 512));
    assert_eq!(*packed.get(&fe(513)), fe(512));
    assert_eq!(*packed.get(&fe(769)), fe(0));
    assert_eq!(*packed.get(&fe(258)), fe(0));
}

#[test]
fn low_bits_of_an_element() {
    assert_eq!(fe(0x1_2345_6789).to_u32(), 0x2345_6789);
    assert_eq!(FieldElement::from_halves(7, 5).to_u32(), 5);
    assert_eq!(fe(0).to_u32(), 0);
}

#[test]
fn packer_lays_out_a_single_entry() {
    let packed = SparseArray::create_packed(&fes(&[1]), 256);
    assert_eq!(
        packed.to_noir_string(None, None),
        "SparseArray<1, Field> = SparseArray {\n    keys: [0x00000000, 0x00000000, 0x000000ff],\n    values: [0x00000000, 0x00000101, 0x00000101, 0x00000000],\n    maximum: 0x000000ff\n};"
    );
    assert_eq!(*packed.get(&fe(0)), fe(257));
    assert_eq!(*packed.get(&fe(1)), fe(0));
    assert_eq!(*packed.get(&fe(300)), fe(0));
}

#[test]
fn packer_lays_out_a_wide_table() {
    let mut table = fes(&[0; 258]);
    table[1] = fe(2);
    table[257] = fe(3);
    let packed = SparseArray::create_packed(&table, 1024);
    assert_eq!(
        packed.to_noir_string(None, None),
        "SparseArray<3, Field> = SparseArray {\n    keys: [0x00000000, 0x00000001, 0x00000101, 0x00000201, 0x000003ff],\n    values: [0x00000000, 0x00000000, 0x00000202, 0x00000203, 0x00000200, 0x00000000],\n    maximum: 0x000003ff\n};"
    );
}
