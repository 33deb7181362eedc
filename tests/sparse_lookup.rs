use comptime::field::FieldElement;
use comptime::sparse::{BuildError, SparseArray};
use num_bigint::BigUint;
use num_traits::Num;
use std::str::FromStr;

fn field(s: &str) -> FieldElement {
    let n = match s.strip_prefix("0x") {
        Some(hex) => BigUint::from_str_radix(hex, 16).unwrap(),
        None => BigUint::from_str(s).unwrap(),
    };
    let mut bytes = n.to_bytes_le();
    assert!(bytes.len() <= 32);
    bytes.resize(32, 0);
    let lo = u128::from_le_bytes(bytes[..16].try_into().unwrap());
    let hi = u128::from_le_bytes(bytes[16..].try_into().unwrap());
    FieldElement::from_halves(hi, lo)
}

fn field_modulus() -> FieldElement {
    field("21888242871839275222246405745257275088696311157297823662689037894645226208583")
}

#[test]
fn test_sparse_lookup() {
    let keys = vec![field("1"), field("99"), field("7"), field("5")];
    let values = vec![123i32, 101112, 789, 456];
    let example = SparseArray::create(&keys, &values, field("100"));

    assert_eq!(*example.get(&field("1")), 123);
    assert_eq!(*example.get(&field("5")), 456);
    assert_eq!(*example.get(&field("7")), 789);
    assert_eq!(*example.get(&field("99")), 101112);

    assert_eq!(*example.get(&field("0")), 0);
    assert_eq!(*example.get(&field("2")), 0);
    assert_eq!(*example.get(&field("6")), 0);
    assert_eq!(*example.get(&field("8")), 0);
    assert_eq!(*example.get(&field("98")), 0);

    for i in 0u32..100 {
        let i_field = FieldElement::from_u32(i);
        if i_field != field("1") && i_field != field("5") && i_field != field("7") && i_field != field("99") {
            assert_eq!(*example.get(&i_field), 0);
        }
    }
}

#[test]
fn test_sparse_lookup_boundary_cases() {
    let keys = vec![field("0"), field("99999"), field("7"), field("4294967295")];
    let values = vec![123, 101112, 789, 456];
    let example = SparseArray::create(&keys, &values, field("4294967296"));

    assert_eq!(*example.get(&field("0")), 123);
    assert_eq!(*example.get(&field("99999")), 101112);
    assert_eq!(*example.get(&field("7")), 789);
    assert_eq!(*example.get(&field("4294967295")), 456);
    assert_eq!(*example.get(&field("4294967294")), 0);
}

#[test]
fn test_sparse_lookup_overflow() {
    let keys = vec![field("1"), field("5"), field("7"), field("99999")];
    let values = vec![123i32, 456, 789, 101112];
    let size = field_modulus().plus(&FieldElement::from_u32(1));
    let result = SparseArray::try_create(&keys, &values, size);
    assert!(matches!(result, Err(BuildError::MaximumOutOfField)));
}

#[test]
fn test_sparse_lookup_boundary_case_overflow() {
    let keys = vec![
        field("0"),
        field("5"),
        field("7"),
        field("115792089237316195423570985008687907853269984665640564039457584007913129639935"),
    ];
    let values = vec![123i32, 456, 789, 101112];
    let size = field_modulus().plus(&FieldElement::from_u32(1));
    let result = SparseArray::try_create(&keys, &values, size);
    assert!(matches!(result, Err(BuildError::MaximumOutOfField)));
}

#[derive(Debug, Clone, Copy, PartialEq)]
struct F {
    foo: [FieldElement; 3],
}

impl Default for F {
    fn default() -> Self {
        F { foo: [FieldElement::from_u32(0); 3] }
    }
}

#[test]
fn test_sparse_lookup_struct() {
    let values = vec![
        F { foo: [field("1"), field("2"), field("3")] },
        F { foo: [field("4"), field("5"), field("6")] },
        F { foo: [field("7"), field("8"), field("9")] },
        F { foo: [field("10"), field("11"), field("12")] },
    ];
    let keys = vec![field("1"), field("99"), field("7"), field("5")];
    let example = SparseArray::create(&keys, &values, field("100000"));

    assert_eq!(*example.get(&field("1")), values[0]);
    assert_eq!(*example.get(&field("5")), values[3]);
    assert_eq!(*example.get(&field("7")), values[2]);
    assert_eq!(*example.get(&field("99")), values[1]);

    for i in 0u32..100 {
        let i_field = FieldElement::from_u32(i);
        if i_field != field("1") && i_field != field("5") && i_field != field("7") && i_field != field("99") {
            assert_eq!(*example.get(&i_field), F::default());
        }
    }
}

#[test]
fn test_sparse_array_noir_representation() {
    let keys = vec![field("0"), field("99999"), field("7"), field("4294967295")];
    let values = vec![field("123"), field("101112"), field("789"), field("456")];
    let example = SparseArray::create(&keys, &values, field("4294967296"));

    let noir_str = example.to_noir_string(None, None);
    println!("\n\n===\n{}\n\n", noir_str);
    let expected = "\
        SparseArray<4, Field> = SparseArray {\n    \
        keys: [0x00000000, 0x00000000, 0x00000007, 0x0001869f, 0xffffffff, 0xffffffff],\n    \
        values: [0x00000000, 0x0000007b, 0x0000007b, 0x00000315, 0x00018af8, 0x000001c8, 0x000001c8],\n    \
        maximum: 0xffffffff\n\
        };";

    assert_eq!(noir_str, expected);
}

#[test]
fn print_sparse_array_50_random() {
    let keys: Vec<FieldElement> = [
        "0x3700", "0x100", "0x2200", "0x4300", "0x1800", "0x3300", "0x900", "0x2800", "0x4400", "0x1400",
        "0x2F00", "0xE00", "0x2500", "0x3F00", "0x1B00", "0x3600", "0xC00", "0x2B00", "0x4000", "0x1700",
        "0x3200", "0x800", "0x2100", "0x3C00", "0x1300", "0x2D00", "0x400", "0x1900", "0x3800", "0xF00",
        "0x2600", "0x200", "0x1500", "0x3400", "0xB00", "0x2A00", "0x4100", "0x1600", "0x3100", "0x700",
        "0x2000", "0x3900", "0x1200", "0x2C00", "0x4200", "0x1A00", "0x3500", "0xD00", "0x2700", "0x3000",
    ]
    .iter()
    .map(|s| field(s))
    .collect();
    let values: Vec<FieldElement> = [
        "3700", "100", "2200", "4300", "1800", "3300", "900", "2800", "4400", "1400", "2900", "1300", "2500",
        "3900", "1900", "3600", "1200", "2700", "4000", "1700", "3200", "800", "2100", "3800", "1300", "2800",
        "400", "1900", "3700", "1500", "2600", "200", "1500", "3400", "1100", "2600", "4100", "1600", "3100",
        "700", "2000", "3900", "1200", "2700", "4200", "1800", "3500", "1300", "2700", "3000",
    ]
    .iter()
    .map(|s| field(s))
    .collect();
    let example = SparseArray::create(&keys, &values, field("0x5000"));
    println!("Array size 50 (randomized):\n{}", example.to_noir_string(None, None));
}
