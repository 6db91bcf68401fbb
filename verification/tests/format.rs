use salvage::format::bytes;

#[test]
fn small_values_stay_exact() {
    assert_eq!(bytes(0), "0 B");
    assert_eq!(bytes(512), "512 B");
    assert_eq!(bytes(999), "999 B");
}

#[test]
fn units_step_at_decimal_boundaries() {
    assert_eq!(bytes(1_000), "1.00 kB");
    assert_eq!(bytes(1_000_000), "1.00 MB");
    assert_eq!(bytes(64_000_000_000), "64.00 GB");
}

#[test]
fn a_nominal_32gb_card_reads_close_to_its_label() {
    let sectors: u64 = 65_538_048;
    let text = bytes(sectors * 512);
    assert!(text.starts_with("33."), "expected ~33 GB, got {text}");
}

#[test]
fn the_largest_unit_saturates_rather_than_overflowing() {
    assert!(bytes(u64::MAX).ends_with("TB"));
}

#[test]
fn two_decimals_are_rounded_half_up() {
    assert_eq!(bytes(33_560_000_000), "33.56 GB");
    assert_eq!(bytes(1_234), "1.23 kB");
    assert_eq!(bytes(1_235), "1.24 kB");
    assert_eq!(bytes(999_999), "1000.00 kB");
    assert_eq!(bytes(u64::MAX), "18446744.07 TB");
}
