use salvage::pattern::{
    PatternGenerator, PatternKind, SectorVerdict, HEADER_LEN, MAGIC, MIN_SECTOR_SIZE,
};


const SS: usize = 512;

fn gen() -> PatternGenerator {
    PatternGenerator::new(0xDEAD_BEEF_CAFE_1234)
}

#[test]
fn round_trip_is_accepted() {
    let g = gen();
    let mut buf = vec![0u8; SS];
    g.fill_sector(42, &mut buf);
    assert_eq!(g.verify_sector(42, &buf), SectorVerdict::Match);
}

#[test]
fn distinct_lbas_produce_distinct_content() {
    let g = gen();
    let (mut a, mut b) = (vec![0u8; SS], vec![0u8; SS]);
    g.fill_sector(1000, &mut a);
    g.fill_sector(1001, &mut b);
    assert_ne!(a, b, "neighbouring sectors must not share content");
}

#[test]
fn generation_is_deterministic() {
    let (mut a, mut b) = (vec![0u8; SS], vec![0u8; SS]);
    gen().fill_sector(777, &mut a);
    gen().fill_sector(777, &mut b);
    assert_eq!(a, b);
}

/// The central test: a counterfeit card returns, at a high address, the
/// contents of the low address its controller mapped the write to.
#[test]
fn wrap_around_is_reported_with_the_aliased_address() {
    let g = gen();
    let real_capacity = 1000u64;
    let requested = 4321u64;
    let actual = requested % real_capacity; // 321

    let mut buf = vec![0u8; SS];
    g.fill_sector(actual, &mut buf);

    assert_eq!(g.verify_sector(requested, &buf), SectorVerdict::Aliased { actual_lba: actual });
}

#[test]
fn silent_corruption_in_the_payload_is_caught() {
    let g = gen();
    let mut buf = vec![0u8; SS];
    g.fill_sector(42, &mut buf);
    buf[200] ^= 0x01; // a single flipped bit
    assert_eq!(g.verify_sector(42, &buf), SectorVerdict::Corrupt { first_bad_offset: 200 });
}

#[test]
fn corruption_in_the_trailing_partial_word_is_caught() {
    let g = gen();
    let odd = MIN_SECTOR_SIZE + 5; // payload not a multiple of 8
    let mut buf = vec![0u8; odd];
    g.fill_sector(9, &mut buf);
    let last = odd - 1;
    buf[last] ^= 0xFF;
    assert_eq!(g.verify_sector(9, &buf), SectorVerdict::Corrupt { first_bad_offset: last });
}

#[test]
fn unwritten_and_third_party_sectors_are_foreign() {
    let g = gen();
    assert_eq!(g.verify_sector(1, &vec![0u8; SS]), SectorVerdict::Foreign);
    assert_eq!(g.verify_sector(1, &vec![0xFFu8; SS]), SectorVerdict::Foreign);
}

#[test]
fn a_previous_session_is_never_accepted_as_proof() {
    let mut buf = vec![0u8; SS];
    PatternGenerator::new(1).fill_sector(42, &mut buf);
    assert_eq!(PatternGenerator::new(2).verify_sector(42, &buf), SectorVerdict::Foreign);
}

/// Garbage carrying the right magic but an invalid checksum must not turn
/// into a false aliasing report.
#[test]
fn a_forged_header_without_a_valid_checksum_is_foreign() {
    let g = gen();
    let mut buf = vec![0u8; SS];
    g.fill_sector(42, &mut buf);
    buf[8..16].copy_from_slice(&999u64.to_le_bytes()); // LBA changed, checksum not
    assert_eq!(g.verify_sector(42, &buf), SectorVerdict::Foreign);
}

#[test]
fn fill_range_matches_sector_by_sector_generation() {
    let g = gen();
    let mut many = vec![0u8; SS * 4];
    g.fill_range(500, SS, &mut many);
    for i in 0..4u64 {
        let s = &many[i as usize * SS..(i as usize + 1) * SS];
        assert_eq!(g.verify_sector(500 + i, s), SectorVerdict::Match);
    }
}

#[test]
fn the_pseudorandom_payload_is_not_constant() {
    let g = gen();
    let mut buf = vec![0u8; SS];
    g.fill_sector(12345, &mut buf);
    let payload = &buf[HEADER_LEN..];
    let distinct = payload.iter().collect::<std::collections::HashSet<_>>().len();
    assert!(distinct > 100, "payload has only {distinct} distinct values");
}

#[test]
fn constant_patterns_round_trip_and_reject_corruption() {
    for kind in PatternKind::SWEEP {
        let g = PatternGenerator::with_kind(7, kind);
        let mut buf = vec![0u8; SS];
        g.fill_sector(33, &mut buf);
        assert_eq!(g.verify_sector(33, &buf), SectorVerdict::Match, "{kind:?}");

        buf[HEADER_LEN + 10] ^= 0xFF;
        assert!(
            matches!(g.verify_sector(33, &buf), SectorVerdict::Corrupt { .. }),
            "{kind:?} failed to detect a flipped byte"
        );
    }
}

/// Every pattern keeps the header, so every pattern keeps the ability to
/// unmask a counterfeit card.
#[test]
fn every_pattern_kind_still_detects_aliasing() {
    for kind in PatternKind::SWEEP {
        let g = PatternGenerator::with_kind(11, kind);
        let mut buf = vec![0u8; SS];
        g.fill_sector(100, &mut buf);
        assert_eq!(
            g.verify_sector(8292, &buf),
            SectorVerdict::Aliased { actual_lba: 100 },
            "{kind:?} lost aliasing detection"
        );
    }
}

/// An all-zero payload must not be confused with an unwritten sector: the
/// header is what separates "deliberately zeroed" from "never touched".
#[test]
fn a_zero_payload_is_distinguishable_from_a_blank_sector() {
    let g = PatternGenerator::with_kind(5, PatternKind::Zeros);
    let mut written = vec![0u8; SS];
    g.fill_sector(60, &mut written);

    assert_eq!(g.verify_sector(60, &written), SectorVerdict::Match);
    assert_eq!(g.verify_sector(60, &vec![0u8; SS]), SectorVerdict::Foreign);
}

#[test]
fn the_header_names_the_magic_the_address_and_the_session() {
    let g = PatternGenerator::new(0x0102_0304_0506_0708);
    let mut buf = vec![0u8; SS];
    g.fill_sector(77, &mut buf);
    assert_eq!(u64::from_le_bytes(buf[0..8].try_into().unwrap()), MAGIC);
    assert_eq!(u64::from_le_bytes(buf[8..16].try_into().unwrap()), 77);
    assert_eq!(u64::from_le_bytes(buf[16..24].try_into().unwrap()), 0x0102_0304_0506_0708);
    assert_eq!(g.nonce(), 0x0102_0304_0506_0708);
    assert_eq!(g.kind(), PatternKind::Pseudorandom);
}

#[test]
fn constant_payloads_hold_their_documented_bytes() {
    let mut buf = vec![0u8; SS];
    PatternGenerator::with_kind(3, PatternKind::Ones).fill_sector(5, &mut buf);
    assert!(buf[HEADER_LEN..].iter().all(|b| *b == 0xFF));
    PatternGenerator::with_kind(3, PatternKind::Zeros).fill_sector(5, &mut buf);
    assert!(buf[HEADER_LEN..].iter().all(|b| *b == 0x00));
    PatternGenerator::with_kind(3, PatternKind::Checkerboard).fill_sector(5, &mut buf);
    assert_eq!(buf[HEADER_LEN], 0xAA);
    assert_eq!(buf[HEADER_LEN + 1], 0x55);
}

#[test]
fn a_sector_too_short_for_the_header_is_foreign() {
    let g = gen();
    assert_eq!(g.verify_sector(1, &[0u8; 16]), SectorVerdict::Foreign);
    assert!(SectorVerdict::Match.is_ok());
    assert!(!SectorVerdict::Foreign.is_ok());
}

#[test]
fn pattern_labels_are_distinct() {
    let labels: std::collections::HashSet<&str> =
        PatternKind::SWEEP.iter().map(|k| k.label()).collect();
    assert_eq!(labels.len(), PatternKind::SWEEP.len());
}
