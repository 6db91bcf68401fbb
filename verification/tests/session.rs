use salvage::pattern::{nonce_from_clock, session_nonce, FALLBACK_NONCE};

#[test]
fn session_nonce_is_never_zero() {
    assert_ne!(session_nonce(), 0);
}

#[test]
fn a_clock_reading_of_zero_still_gives_a_nonce() {
    assert_eq!(nonce_from_clock(Some(0)), 1);
    assert_eq!(nonce_from_clock(Some(6)), 7);
    assert_eq!(nonce_from_clock(Some(7)), 7);
    assert_eq!(nonce_from_clock(None), FALLBACK_NONCE | 1);
}
