use bitmask_core::amount::{AmountError, ContractAmount};

#[test]
fn amount_text_has_all_decimal_places() {
    assert_eq!(ContractAmount::new(499, 2).to_string(), "4.99");
    assert_eq!(ContractAmount::new(400, 2).to_string(), "4.00");
    assert_eq!(ContractAmount::new(5, 2).to_string(), "0.05");
    assert_eq!(ContractAmount::new(0, 2).to_string(), "0.00");
    assert_eq!(ContractAmount::new(1234, 0).to_string(), "1234");
    assert_eq!(ContractAmount::new(0, 0).to_string(), "0");
    assert_eq!(
        ContractAmount::new(u64::MAX, 8).to_string(),
        "184467440737.09551615"
    );
}

#[test]
fn amount_text_at_large_precision() {
    assert_eq!(
        ContractAmount::new(u64::MAX, 20).to_string(),
        "0.18446744073709551615"
    );
    assert_eq!(
        ContractAmount::new(7, 25).to_string(),
        "0.0000000000000000000000007"
    );
}

#[test]
fn parse_reads_whole_and_fraction() {
    assert_eq!(ContractAmount::parse("4.0", 2), Ok(ContractAmount::new(400, 2)));
    assert_eq!(ContractAmount::parse("1.00", 2), Ok(ContractAmount::new(100, 2)));
    assert_eq!(ContractAmount::parse("4", 2), Ok(ContractAmount::new(400, 2)));
    assert_eq!(ContractAmount::parse("0.1", 8), Ok(ContractAmount::new(10_000_000, 8)));
    assert_eq!(ContractAmount::parse("0.001", 8), Ok(ContractAmount::new(100_000, 8)));
    assert_eq!(ContractAmount::parse("007.5", 1), Ok(ContractAmount::new(75, 1)));
    assert_eq!(ContractAmount::parse("12", 0), Ok(ContractAmount::new(12, 0)));
}

#[test]
fn parse_rejects_what_is_no_number() {
    for text in ["", ".", ".5", "5.", "1.2.3", "1,5", "-1", "+1", " 1", "1 ", "1e3", "٣", "1.٣"] {
        assert_eq!(
            ContractAmount::parse(text, 4),
            Err(AmountError::Malformed),
            "{text:?}"
        );
    }
}

#[test]
fn parse_rejects_too_many_decimal_places() {
    assert_eq!(
        ContractAmount::parse("1.234", 2),
        Err(AmountError::PrecisionMismatch)
    );
    assert_eq!(
        ContractAmount::parse("1.0", 0),
        Err(AmountError::PrecisionMismatch)
    );
}

#[test]
fn parse_reports_overflow() {
    assert_eq!(
        ContractAmount::parse("18446744073709551615", 0),
        Ok(ContractAmount::new(u64::MAX, 0))
    );
    assert_eq!(
        ContractAmount::parse("18446744073709551616", 0),
        Err(AmountError::Overflow)
    );
    assert_eq!(
        ContractAmount::parse("184467440737.09551616", 8),
        Err(AmountError::Overflow)
    );
    assert_eq!(ContractAmount::parse("1", 20), Err(AmountError::Overflow));
    assert_eq!(
        ContractAmount::parse("0.00000000000000000001", 20),
        Ok(ContractAmount::new(1, 20))
    );
}

#[test]
fn text_round_trip_on_samples() {
    let values = [0u64, 1, 9, 10, 99, 100, 101, 499, 12_345_678_901, u64::MAX - 1, u64::MAX];
    let precisions = [0u8, 1, 2, 8, 18, 19, 20, 21, 255];
    for v in values {
        for p in precisions {
            let x = ContractAmount::new(v, p);
            assert_eq!(ContractAmount::parse(&x.to_string(), p), Ok(x), "{v} at {p}");
        }
    }
}

#[test]
fn with_joins_whole_and_fraction() {
    assert_eq!(ContractAmount::with(5, 0, 2), Ok(ContractAmount::new(500, 2)));
    assert_eq!(ContractAmount::with(5, 0, 2).unwrap().to_value(), 500);
    assert_eq!(ContractAmount::with(1, 99, 2), Ok(ContractAmount::new(199, 2)));
    assert_eq!(ContractAmount::with(7, 0, 0), Ok(ContractAmount::new(7, 0)));
    assert_eq!(
        ContractAmount::with(1, 100, 2),
        Err(AmountError::PrecisionMismatch)
    );
    assert_eq!(ContractAmount::with(1, 0, 20), Err(AmountError::Overflow));
    assert_eq!(ContractAmount::with(0, 3, 20), Ok(ContractAmount::new(3, 20)));
    assert_eq!(
        ContractAmount::with(u64::MAX, 0, 1),
        Err(AmountError::Overflow)
    );
    assert_eq!(
        ContractAmount::with(1_844_674_407_370_955_161, 5, 1),
        Ok(ContractAmount::new(u64::MAX, 1))
    );
    assert_eq!(
        ContractAmount::with(1_844_674_407_370_955_161, 6, 1),
        Err(AmountError::Overflow)
    );
}

#[test]
fn whole_units_round_down() {
    assert_eq!(ContractAmount::new(499, 2).whole_units(), 4);
    assert_eq!(ContractAmount::new(499, 0).whole_units(), 499);
    assert_eq!(ContractAmount::new(499, 3).whole_units(), 0);
    assert_eq!(ContractAmount::new(u64::MAX, 255).whole_units(), 0);
    assert_eq!(ContractAmount::new(499, 2).precision(), 2);
    assert!(ContractAmount::new(0, 2).is_zero());
    assert!(!ContractAmount::new(1, 2).is_zero());
}

#[test]
fn sums_and_differences() {
    let a = ContractAmount::new(499, 2);
    let b = ContractAmount::new(400, 2);
    assert_eq!(a.checked_add(&b), Ok(ContractAmount::new(899, 2)));
    assert_eq!(a.checked_sub(&b), Ok(ContractAmount::new(99, 2)));
    assert_eq!(b.checked_sub(&a), Err(AmountError::Underflow));
    assert_eq!(a.checked_sub(&a), Ok(ContractAmount::new(0, 2)));
    let c = ContractAmount::new(400, 3);
    assert_eq!(a.checked_add(&c), Err(AmountError::PrecisionMismatch));
    assert_eq!(a.checked_sub(&c), Err(AmountError::PrecisionMismatch));
    let top = ContractAmount::new(u64::MAX, 2);
    assert_eq!(top.checked_add(&ContractAmount::new(1, 2)), Err(AmountError::Overflow));
    assert_eq!(top.checked_add(&ContractAmount::new(0, 2)), Ok(top));
}

#[test]
fn rescale_keeps_the_quantity() {
    let a = ContractAmount::new(450, 2);
    assert_eq!(a.rescale(4), Ok(ContractAmount::new(45_000, 4)));
    assert_eq!(a.rescale(2), Ok(a));
    assert_eq!(a.rescale(1), Ok(ContractAmount::new(45, 1)));
    assert_eq!(a.rescale(0), Err(AmountError::PrecisionMismatch));
    assert_eq!(a.rescale(30), Err(AmountError::Overflow));
    assert_eq!(ContractAmount::new(0, 2).rescale(30), Ok(ContractAmount::new(0, 30)));
    assert_eq!(ContractAmount::new(0, 30).rescale(2), Ok(ContractAmount::new(0, 2)));
    assert_eq!(
        ContractAmount::new(5, 30).rescale(2),
        Err(AmountError::PrecisionMismatch)
    );
    assert_eq!(
        ContractAmount::new(u64::MAX, 0).rescale(1),
        Err(AmountError::Overflow)
    );
}
