use bitmask_core::consignment::{Assignment, SealTarget, Spend};
use bitmask_core::decimal::{format_decimal, format_fixed};
use bitmask_core::ids::{Hash256, OutPoint};
use bitmask_core::psbt::{copy_assignments, copy_spends};

#[test]
fn digits_are_written_one_by_one() {
    let all: Vec<String> = (0..10).map(format_decimal).collect();
    assert_eq!(all, vec!["0", "1", "2", "3", "4", "5", "6", "7", "8", "9"]);
    assert_eq!(format_fixed(1_234_567_890, 10), "1234567890");
}

#[test]
fn numbers_are_written_without_leading_zeros() {
    assert_eq!(format_decimal(0), "0");
    assert_eq!(format_decimal(7), "7");
    assert_eq!(format_decimal(10), "10");
    assert_eq!(format_decimal(1_000_000), "1000000");
    assert_eq!(format_decimal(u64::MAX), "18446744073709551615");
    for n in [0u64, 9, 10, 99, 100, 12_345, 9_999_999_999, u64::MAX] {
        assert_eq!(format_decimal(n), n.to_string());
    }
}

#[test]
fn fixed_width_keeps_the_last_digits() {
    assert_eq!(format_fixed(5, 0), "");
    assert_eq!(format_fixed(5, 1), "5");
    assert_eq!(format_fixed(5, 3), "005");
    assert_eq!(format_fixed(0, 4), "0000");
    assert_eq!(format_fixed(12_345, 3), "345");
    assert_eq!(format_fixed(12_345, 5), "12345");
    assert_eq!(format_fixed(u64::MAX, 22), "0018446744073709551615");
    assert_eq!(format_fixed(1, 255).len(), 255);
}

#[test]
fn lists_are_copied_as_they_are() {
    let spends = vec![
        Spend { outpoint: OutPoint::new(Hash256::from_u64(1), 0), amount: 5 },
        Spend { outpoint: OutPoint::new(Hash256::from_u64(2), 7), amount: u64::MAX },
    ];
    assert_eq!(copy_spends(&spends), spends);
    assert_eq!(copy_spends(&vec![]), vec![]);
    let assignments = vec![
        Assignment { target: SealTarget::Output(3), amount: 1 },
        Assignment { target: SealTarget::Output(0), amount: 0 },
    ];
    assert_eq!(copy_assignments(&assignments), assignments);
}
