use salvage::geometry::{DeviceGeometry, GeometryError, LbaRange};

#[test]
fn geometry_rejects_invalid_input() {
    assert_eq!(DeviceGeometry::new(999, 100), Err(GeometryError::InvalidSectorSize(999)));
    assert_eq!(DeviceGeometry::new(512, 0), Err(GeometryError::EmptyDevice));
    assert!(DeviceGeometry::new(512, 100).is_ok());
    assert!(DeviceGeometry::new(4096, 100).is_ok());
}

#[test]
fn total_bytes_saturates_instead_of_overflowing() {
    let g = DeviceGeometry::new(4096, u64::MAX).unwrap();
    assert_eq!(g.total_bytes(), u64::MAX);
}

#[test]
fn range_basics() {
    let r = LbaRange::new(10, 5);
    assert_eq!((r.start(), r.end(), r.len()), (10, 15, 5));
    assert!(r.contains(10) && r.contains(14));
    assert!(!r.contains(15) && !r.contains(9));
    assert!(LbaRange::from_bounds(10, 10).is_empty());
    assert!(LbaRange::from_bounds(20, 10).is_empty());
}

#[test]
fn intersection_and_subtraction() {
    let a = LbaRange::from_bounds(0, 100);
    let b = LbaRange::from_bounds(40, 60);
    assert_eq!(a.intersection(&b), Some(b));

    let (l, r) = a.subtract(&b);
    assert_eq!(l, Some(LbaRange::from_bounds(0, 40)));
    assert_eq!(r, Some(LbaRange::from_bounds(60, 100)));

    assert_eq!(a.subtract(&LbaRange::from_bounds(200, 300)), (Some(a), None));

    assert_eq!(b.subtract(&a), (None, None));
}

#[test]
fn touching_ranges_do_not_intersect_but_do_touch() {
    let a = LbaRange::from_bounds(0, 10);
    let b = LbaRange::from_bounds(10, 20);
    assert!(!a.intersects(&b));
    assert!(a.touches_or_intersects(&b));
}

#[test]
fn outward_alignment_always_contains_the_original() {
    let r = LbaRange::from_bounds(9000, 9001);
    let a = r.aligned_outward(8192);
    assert_eq!(a, LbaRange::from_bounds(8192, 16384));
    assert!(a.start() <= r.start() && a.end() >= r.end());
}

#[test]
fn inward_alignment_is_always_contained_by_the_original() {
    let r = LbaRange::from_bounds(9000, 20000);
    let a = r.aligned_inward(8192);
    assert_eq!(a, LbaRange::from_bounds(16384, 16384));
    assert!(a.start() >= r.start() && a.end() <= r.end());
}

#[test]
fn inward_alignment_of_a_too_small_range_yields_empty() {
    assert!(LbaRange::from_bounds(9000, 9100).aligned_inward(8192).is_empty());
}

#[test]
fn guard_band_saturates_at_zero() {
    assert_eq!(LbaRange::from_bounds(5, 10).expanded_by(100), LbaRange::from_bounds(0, 110));
}

#[test]
fn chunks_cover_the_range_exactly_without_gaps_or_overlap() {
    let r = LbaRange::from_bounds(0, 250);
    let parts: Vec<_> = r.chunks(100);
    assert_eq!(parts.len(), 3);
    assert_eq!(parts[2], LbaRange::from_bounds(200, 250));
    assert_eq!(parts.iter().map(|p| p.len()).sum::<u64>(), r.len());
    for w in parts.windows(2) {
        assert_eq!(w[0].end(), w[1].start());
    }
}

#[test]
fn sector_conversion_rounds_up_to_whole_sectors() {
    let g = DeviceGeometry::new(512, 1_000).unwrap();
    assert_eq!(g.bytes_to_sectors_ceil(0), 0);
    assert_eq!(g.bytes_to_sectors_ceil(1), 1);
    assert_eq!(g.bytes_to_sectors_ceil(512), 1);
    assert_eq!(g.bytes_to_sectors_ceil(513), 2);
    assert_eq!(g.default_alignment_sectors(), 8192);
}

#[test]
fn clamping_and_hull_follow_the_bounds() {
    let bounds = LbaRange::from_bounds(100, 200);
    assert_eq!(LbaRange::from_bounds(50, 150).clamped_to(&bounds), LbaRange::from_bounds(100, 150));
    assert!(LbaRange::from_bounds(300, 400).clamped_to(&bounds).is_empty());
    assert_eq!(
        LbaRange::from_bounds(10, 20).hull(&LbaRange::from_bounds(40, 50)),
        LbaRange::from_bounds(10, 50)
    );
    assert_eq!(LbaRange::from_bounds(0, 3).byte_len(&DeviceGeometry::new(512, 10).unwrap()), 1536);
}

#[test]
fn an_empty_range_shares_no_sector_with_anything() {
    let empty = LbaRange::from_bounds(5, 5);
    let outer = LbaRange::from_bounds(0, 10);
    assert!(!empty.intersects(&outer));
    assert!(!outer.intersects(&empty));
    assert_eq!(empty.intersection(&outer), None);
    assert!(LbaRange::from_bounds(0, 10).intersects(&LbaRange::from_bounds(9, 12)));
}
