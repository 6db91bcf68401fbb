use salvage::device::{BlockDevice, DeviceError};
use salvage::geometry::LbaRange;
use salvage::simulator::{FaultKind, SimulatedCard, SimulatedFault};


const SS: u32 = 512;

#[test]
fn a_healthy_card_round_trips_data() {
    let mut c = SimulatedCard::healthy(SS, 100);
    let out = vec![0xABu8; SS as usize];
    c.write_at(10, &out).unwrap();
    let mut back = vec![0u8; SS as usize];
    c.read_at(10, &mut back).unwrap();
    assert_eq!(back, out);
}

/// The essential behaviour of a counterfeit card: writing to a high
/// address silently destroys the data at a low one.
#[test]
fn a_fake_card_silently_overwrites_the_low_address() {
    let mut c = SimulatedCard::with_fault(SS, 100, SimulatedFault::FakeCapacity { real: 10 });
    let low = vec![0x11u8; SS as usize];
    let high = vec![0x22u8; SS as usize];

    c.write_at(3, &low).unwrap();
    c.write_at(43, &high).unwrap(); // 43 mod 10 == 3

    let mut back = vec![0u8; SS as usize];
    c.read_at(3, &mut back).unwrap();
    assert_eq!(back, high, "o endereco 3 deveria ter sido sobrescrito pelo 43");
}

#[test]
fn access_past_the_end_is_refused() {
    let mut c = SimulatedCard::healthy(SS, 10);
    let mut buf = vec![0u8; SS as usize];
    assert!(matches!(c.read_at(10, &mut buf), Err(DeviceError::OutOfBounds { .. })));
    assert!(matches!(
        c.write_at(9, &vec![0u8; SS as usize * 2]),
        Err(DeviceError::OutOfBounds { .. })
    ));
}

#[test]
fn unaligned_buffers_are_refused() {
    let mut c = SimulatedCard::healthy(SS, 10);
    let mut buf = vec![0u8; 100];
    assert!(matches!(c.read_at(0, &mut buf), Err(DeviceError::UnalignedBuffer { .. })));
}

#[test]
fn faults_apply_only_inside_their_range() {
    let f = SimulatedFault::ReadError { range: LbaRange::from_bounds(10, 20) };
    assert_eq!(f.at(9), None);
    assert_eq!(f.at(10), Some(FaultKind::Read));
    assert_eq!(f.at(19), Some(FaultKind::Read));
    assert_eq!(f.at(20), None);
}

#[test]
fn a_read_only_card_refuses_writes() {
    let mut c = SimulatedCard::healthy(SS, 10);
    c.set_writable(false);
    assert!(matches!(c.write_at(0, &vec![0u8; SS as usize]), Err(DeviceError::ReadOnly)));
}

#[test]
fn silent_corruption_alters_the_stored_content() {
    let mut c = SimulatedCard::with_fault(
        SS,
        10,
        SimulatedFault::SilentCorruption { range: LbaRange::from_bounds(5, 6) },
    );
    let out = vec![0x00u8; SS as usize];
    c.write_at(5, &out).unwrap();
    let mut back = vec![0u8; SS as usize];
    c.read_at(5, &mut back).unwrap();
    assert_ne!(back, out, "silent corruption changed nothing");
}

#[test]
fn counters_follow_the_operations() {
    let mut c = SimulatedCard::healthy(SS, 100);
    let out = vec![0x5Au8; SS as usize * 3];
    c.write_at(20, &out).unwrap();
    let mut back = vec![0u8; SS as usize * 3];
    c.read_at(20, &mut back).unwrap();
    assert_eq!(back, out);
    assert_eq!((c.reads, c.writes, c.sectors_read, c.sectors_written), (1, 1, 3, 3));
}

#[test]
fn a_write_fault_refuses_only_inside_its_range() {
    let mut c = SimulatedCard::with_fault(
        SS,
        100,
        SimulatedFault::WriteError { range: LbaRange::from_bounds(40, 50) },
    );
    assert!(c.write_at(39, &vec![1u8; SS as usize]).is_ok());
    assert!(c.write_at(45, &vec![1u8; SS as usize]).is_err());
    assert_eq!(SimulatedFault::NoFault.at(45), None);
}

#[test]
fn a_marker_fill_is_recognised_everywhere() {
    let mut c = SimulatedCard::healthy(SS, 16);
    assert!(c.is_entirely_marker(0));
    c.fill_with_marker(0xE5);
    assert!(c.is_entirely_marker(0xE5));
    c.write_at(3, &vec![0u8; SS as usize]).unwrap();
    assert!(!c.is_entirely_marker(0xE5));
}
