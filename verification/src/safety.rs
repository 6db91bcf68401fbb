//! Guards deciding whether a device may be written to.
//!
//! This tool writes to raw disks: a wrong target destroys an entire drive.
//! The removable-media flag alone would turn away most USB microSD adapters,
//! which present themselves as fixed disks, so the criterion is composite: the
//! bus says what the device can be, the mounted volumes say what it cannot
//! be, and whatever remains depends on explicit confirmation.
//!
//! A [`SafetyBlock`] is final and has no override. A [`SafetyWarning`]
//! describes risk the user may knowingly accept by typing the device's name.
use vstd::prelude::*;
use vstd::string::StringExecFns;

use crate::device::{bus_name, display_name_of, fingerprint_of, is_system_or_boot, BusType, DeviceInfo, VolumeInfo};
use crate::geometry::sat_mul;
use crate::text::{eq_ignore_ascii_case, push_char, same_ignoring_ascii_case, trim, trimmed};

verus! {

/// Capacity ceiling accepted: 2 TiB, the MBR addressing limit.
pub const MAX_CARD_CAPACITY_BYTES: u64 = 2_199_023_255_552;

/// Above this size, a "card" warrants explicit suspicion: 1 TiB.
pub const SUSPICIOUS_CAPACITY_BYTES: u64 = 1_099_511_627_776;

/// An absolute impediment. No confirmation unlocks it.
#[derive(Debug, Clone, PartialEq, Eq)]
pub enum SafetyBlock {
    /// The device hosts the operating system or the boot partition.
    HostsOperatingSystem {
        /// Drive letters of the system volumes found.
        volumes: Vec<String>,
    },
    /// A bus used exclusively by fixed internal storage.
    InternalBus {
        /// Bus detected.
        bus: String,
    },
    /// Capacity beyond what the partition format can address.
    ExceedsAddressableCapacity {
        /// Reported capacity, in bytes.
        capacity_bytes: u64,
        /// Ceiling accepted.
        limit_bytes: u64,
    },
    /// Device reports no usable capacity.
    ZeroCapacity,
}

/// Risk the user may knowingly accept.
#[derive(Debug, Clone, PartialEq, Eq)]
pub enum SafetyWarning {
    /// Media not declared removable, common on USB card adapters.
    NotDeclaredRemovable,
    /// Mounted volumes exist and will be unmounted and erased.
    HasMountedVolumes {
        /// Description of the affected volumes.
        volumes: Vec<String>,
    },
    /// Capacity unusually large for a memory card.
    UnusuallyLarge {
        /// Reported capacity, in bytes.
        capacity_bytes: u64,
    },
    /// Bus could not be identified.
    UnknownBus,
}

/// Outcome of a safety evaluation.
#[derive(Debug, Clone, PartialEq, Eq)]
pub enum SafetyVerdict {
    /// Cleared without reservation. A destructive operation still requires
    /// typed confirmation.
    Allowed,
    /// Cleared only on conscious acknowledgement of the listed risks.
    NeedsConfirmation {
        /// Risks identified.
        warnings: Vec<SafetyWarning>,
    },
    /// Refused. No path in the interface unlocks this.
    Blocked {
        /// Impediments found.
        reasons: Vec<SafetyBlock>,
    },
}

impl SafetyVerdict {
    /// Whether the device may be written to, given adequate confirmation.
    pub fn permits_writing(&self) -> (r: bool)
        ensures
            r == !(*self is Blocked),
    {
        !matches!(self, SafetyVerdict::Blocked { .. })
    }

    /// Whether there is any risk to communicate.
    pub fn has_warnings(&self) -> (r: bool)
        ensures
            r == (*self is NeedsConfirmation),
    {
        matches!(self, SafetyVerdict::NeedsConfirmation { .. })
    }
}

/// Evaluation parameters.
#[derive(Debug, Clone, Copy, PartialEq, Eq, Structural)]
pub struct SafetyPolicy {
    /// Maximum capacity accepted, in bytes.
    pub max_capacity_bytes: u64,
    /// Capacity above which a warning is raised.
    pub suspicious_capacity_bytes: u64,
    /// Whether devices not declared removable may proceed on confirmation.
    /// Turning this off rejects most USB adapters.
    pub allow_non_removable: bool,
}

impl Default for SafetyPolicy {
    fn default() -> (r: Self)
        ensures
            r.max_capacity_bytes == MAX_CARD_CAPACITY_BYTES,
            r.suspicious_capacity_bytes == SUSPICIOUS_CAPACITY_BYTES,
            r.allow_non_removable,
    {
        SafetyPolicy {
            max_capacity_bytes: MAX_CARD_CAPACITY_BYTES,
            suspicious_capacity_bytes: SUSPICIOUS_CAPACITY_BYTES,
            allow_non_removable: true,
        }
    }
}

/// A block, as text.
pub enum BlockView {
    HostsOperatingSystem(Seq<Seq<char>>),
    InternalBus(Seq<char>),
    ExceedsAddressableCapacity(u64, u64),
    ZeroCapacity,
}

/// A warning, as text.
pub enum WarningView {
    NotDeclaredRemovable,
    HasMountedVolumes(Seq<Seq<char>>),
    UnusuallyLarge(u64),
    UnknownBus,
}

/// The texts of a list of strings.
pub open spec fn texts(v: Seq<String>) -> Seq<Seq<char>> {
    Seq::new(v.len(), |i: int| v[i]@)
}

pub open spec fn block_view(b: SafetyBlock) -> BlockView {
    match b {
        SafetyBlock::HostsOperatingSystem { volumes } => BlockView::HostsOperatingSystem(texts(volumes@)),
        SafetyBlock::InternalBus { bus } => BlockView::InternalBus(bus@),
        SafetyBlock::ExceedsAddressableCapacity { capacity_bytes, limit_bytes } => BlockView::ExceedsAddressableCapacity(
            capacity_bytes,
            limit_bytes,
        ),
        SafetyBlock::ZeroCapacity => BlockView::ZeroCapacity,
    }
}

pub open spec fn warning_view(w: SafetyWarning) -> WarningView {
    match w {
        SafetyWarning::NotDeclaredRemovable => WarningView::NotDeclaredRemovable,
        SafetyWarning::HasMountedVolumes { volumes } => WarningView::HasMountedVolumes(texts(volumes@)),
        SafetyWarning::UnusuallyLarge { capacity_bytes } => WarningView::UnusuallyLarge(capacity_bytes),
        SafetyWarning::UnknownBus => WarningView::UnknownBus,
    }
}

/// How a system volume is named in a block: its drive letter and a colon, or
/// "unlettered".
pub open spec fn system_volume_name(v: VolumeInfo) -> Seq<char> {
    match v.drive_letter {
        Some(c) => seq![c, ':'],
        None => "unlettered"@,
    }
}

/// The names of the system or boot volumes among the first `n`, in order.
pub open spec fn system_volume_names(vols: Seq<VolumeInfo>, n: nat) -> Seq<Seq<char>>
    decreases n,
{
    if n == 0 {
        Seq::empty()
    } else if is_system_or_boot(vols[n - 1]) {
        system_volume_names(vols, (n - 1) as nat).push(system_volume_name(vols[n - 1]))
    } else {
        system_volume_names(vols, (n - 1) as nat)
    }
}

/// How a mounted volume is described in a warning: letter and quoted label,
/// letter alone, label alone, or "unlettered volume".
pub open spec fn mounted_volume_name(v: VolumeInfo) -> Seq<char> {
    match (v.drive_letter, v.label) {
        (Some(c), Some(l)) => if l@.len() > 0 {
            seq![c, ':', ' ', '"'] + l@ + seq!['"']
        } else {
            seq![c, ':']
        },
        (Some(c), None) => seq![c, ':'],
        (None, Some(l)) => l@,
        (None, None) => "unlettered volume"@,
    }
}

/// Reported capacity, in bytes.
pub open spec fn capacity_of(d: DeviceInfo) -> u64 {
    sat_mul(d.geometry.total_sectors(), d.geometry.sector_size() as u64)
}

/// Whether some volume of the device hosts the system or the boot partition.
pub open spec fn hosts_system_of(d: DeviceInfo) -> bool {
    exists|i: int| 0 <= i < d.volumes@.len() && #[trigger] is_system_or_boot(d.volumes@[i])
}

/// The impediments found, in the order they are checked.
pub open spec fn expected_blocks(d: DeviceInfo, p: SafetyPolicy) -> Seq<BlockView> {
    let cap = capacity_of(d);
    let bus = bus_name(d.bus_type)@;
    let s1 = if hosts_system_of(d) {
        seq![BlockView::HostsOperatingSystem(system_volume_names(d.volumes@, d.volumes@.len()))]
    } else {
        Seq::empty()
    };
    let s2 = if d.bus_type.spec_is_internal_only() {
        seq![BlockView::InternalBus(bus)]
    } else {
        Seq::empty()
    };
    let s3 = if cap == 0 {
        seq![BlockView::ZeroCapacity]
    } else if cap > p.max_capacity_bytes {
        seq![BlockView::ExceedsAddressableCapacity(cap, p.max_capacity_bytes)]
    } else {
        Seq::empty()
    };
    let s4 = if !d.removable_media && !p.allow_non_removable {
        seq![BlockView::InternalBus(bus)]
    } else {
        Seq::empty()
    };
    s1 + s2 + s3 + s4
}

/// The risks found, in the order they are checked.
pub open spec fn expected_warnings(d: DeviceInfo, p: SafetyPolicy) -> Seq<WarningView> {
    let cap = capacity_of(d);
    let s1 = if !d.removable_media {
        seq![WarningView::NotDeclaredRemovable]
    } else {
        Seq::empty()
    };
    let s2 = if d.bus_type == BusType::Unknown {
        seq![WarningView::UnknownBus]
    } else {
        Seq::empty()
    };
    let s3 = if cap > p.suspicious_capacity_bytes {
        seq![WarningView::UnusuallyLarge(cap)]
    } else {
        Seq::empty()
    };
    let s4 = if d.volumes@.len() > 0 {
        seq![
            WarningView::HasMountedVolumes(
                Seq::new(d.volumes@.len(), |i: int| mounted_volume_name(d.volumes@[i])),
            ),
        ]
    } else {
        Seq::empty()
    };
    s1 + s2 + s3 + s4
}

/// The verdict the guards owe: refusal whenever any impediment exists, with
/// every impediment listed, and no warning ever softening it; otherwise a
/// request for confirmation listing every risk, or clearance when there is
/// none.
pub open spec fn verdict_holds(d: DeviceInfo, p: SafetyPolicy, r: SafetyVerdict) -> bool {
    let bs = expected_blocks(d, p);
    let ws = expected_warnings(d, p);
    if bs.len() > 0 {
        r matches SafetyVerdict::Blocked { reasons } && reasons@.map_values(|b: SafetyBlock| block_view(b)) == bs
    } else if ws.len() > 0 {
        r matches SafetyVerdict::NeedsConfirmation { warnings } && warnings@.map_values(
            |w: SafetyWarning| warning_view(w),
        ) == ws
    } else {
        r is Allowed
    }
}

fn system_volume_list(vols: &Vec<VolumeInfo>) -> (r: Vec<String>)
    ensures
        texts(r@) == system_volume_names(vols@, vols@.len()),
{
    let mut out: Vec<String> = Vec::new();
    let mut i: usize = 0;
    while i < vols.len()
        invariant
            i <= vols@.len(),
            texts(out@) == system_volume_names(vols@, i as nat),
        decreases vols@.len() - i,
    {
        let v = &vols[i];
        if v.is_system_volume || v.is_boot_volume {
            let name = match v.drive_letter {
                Some(c) => {
                    let mut s = String::new();
                    push_char(&mut s, c);
                    push_char(&mut s, ':');
                    assert(s@ =~= seq![c, ':']);
                    s
                },
                None => {
                    proof {
                        reveal_strlit("unlettered");
                    }
                    String::from_str("unlettered")
                },
            };
            let ghost before = out@;
            out.push(name);
            assert(texts(out@) =~= texts(before).push(name@));
        }
        i = i + 1;
    }
    out
}

fn mounted_volume_list(vols: &Vec<VolumeInfo>) -> (r: Vec<String>)
    ensures
        texts(r@) == Seq::new(vols@.len(), |i: int| mounted_volume_name(vols@[i])),
{
    let mut out: Vec<String> = Vec::new();
    let mut i: usize = 0;
    while i < vols.len()
        invariant
            i <= vols@.len(),
            texts(out@) == Seq::new(i as nat, |k: int| mounted_volume_name(vols@[k])),
        decreases vols@.len() - i,
    {
        let v = &vols[i];
        let name = match (v.drive_letter, &v.label) {
            (Some(c), Some(l)) => {
                let mut s = String::new();
                push_char(&mut s, c);
                push_char(&mut s, ':');
                if l.as_str().unicode_len() > 0 {
                    push_char(&mut s, ' ');
                    push_char(&mut s, '"');
                    s.append(l.as_str());
                    push_char(&mut s, '"');
                }
                s
            },
            (Some(c), None) => {
                let mut s = String::new();
                push_char(&mut s, c);
                push_char(&mut s, ':');
                s
            },
            (None, Some(l)) => l.clone(),
            (None, None) => {
                proof {
                    reveal_strlit("unlettered volume");
                }
                String::from_str("unlettered volume")
            },
        };
        proof {
            assert(name@ =~= mounted_volume_name(vols@[i as int]));
        }
        let ghost before = out@;
        out.push(name);
        assert(texts(out@) =~= texts(before).push(name@));
        assert(Seq::new((i + 1) as nat, |k: int| mounted_volume_name(vols@[k])) =~= Seq::new(
            i as nat,
            |k: int| mounted_volume_name(vols@[k]),
        ).push(mounted_volume_name(vols@[i as int])));
        i = i + 1;
    }
    out
}

fn bus_text(b: BusType) -> (r: String)
    ensures
        r@ == bus_name(b)@,
{
    String::from_str(b.as_str())
}

/// Evaluates whether a device may be the target of a destructive operation.
/// Absolute impediments are checked first; if any exists the verdict is
/// refusal, and no warning ever softens a block.
pub fn evaluate(device: &DeviceInfo, policy: &SafetyPolicy) -> (r: SafetyVerdict)
    ensures
        verdict_holds(*device, *policy, r),
        hosts_system_of(*device) ==> r is Blocked,
{
    let mut blocks: Vec<SafetyBlock> = Vec::new();
    let ghost d = *device;
    let ghost p = *policy;
    let ghost bus = bus_name(device.bus_type)@;
    let ghost cap = capacity_of(d);
    let ghost s1 = if hosts_system_of(d) {
        seq![BlockView::HostsOperatingSystem(system_volume_names(d.volumes@, d.volumes@.len()))]
    } else {
        Seq::<BlockView>::empty()
    };
    let ghost s2 = if d.bus_type.spec_is_internal_only() {
        seq![BlockView::InternalBus(bus)]
    } else {
        Seq::<BlockView>::empty()
    };
    let ghost s3 = if cap == 0 {
        seq![BlockView::ZeroCapacity]
    } else if cap > p.max_capacity_bytes {
        seq![BlockView::ExceedsAddressableCapacity(cap, p.max_capacity_bytes)]
    } else {
        Seq::<BlockView>::empty()
    };
    if device.hosts_system() {
        let volumes = system_volume_list(&device.volumes);
        blocks.push(SafetyBlock::HostsOperatingSystem { volumes });
    }
    assert(blocks@.map_values(|b: SafetyBlock| block_view(b)) =~= s1);
    if device.bus_type.is_internal_only() {
        blocks.push(SafetyBlock::InternalBus { bus: bus_text(device.bus_type) });
    }
    assert(blocks@.map_values(|b: SafetyBlock| block_view(b)) =~= s1 + s2);
    let capacity = device.capacity_bytes();
    if capacity == 0 {
        blocks.push(SafetyBlock::ZeroCapacity);
    } else if capacity > policy.max_capacity_bytes {
        blocks.push(
            SafetyBlock::ExceedsAddressableCapacity { capacity_bytes: capacity, limit_bytes: policy.max_capacity_bytes },
        );
    }
    assert(blocks@.map_values(|b: SafetyBlock| block_view(b)) =~= s1 + s2 + s3);
    if !device.removable_media && !policy.allow_non_removable {
        blocks.push(SafetyBlock::InternalBus { bus: bus_text(device.bus_type) });
    }
    assert(blocks@.map_values(|b: SafetyBlock| block_view(b)) =~= expected_blocks(d, p));
    if blocks.len() > 0 {
        return SafetyVerdict::Blocked { reasons: blocks };
    }
    let mut warnings: Vec<SafetyWarning> = Vec::new();
    let ghost w1 = if !d.removable_media {
        seq![WarningView::NotDeclaredRemovable]
    } else {
        Seq::<WarningView>::empty()
    };
    let ghost w2 = if d.bus_type == BusType::Unknown {
        seq![WarningView::UnknownBus]
    } else {
        Seq::<WarningView>::empty()
    };
    let ghost w3 = if cap > p.suspicious_capacity_bytes {
        seq![WarningView::UnusuallyLarge(cap)]
    } else {
        Seq::<WarningView>::empty()
    };
    if !device.removable_media {
        warnings.push(SafetyWarning::NotDeclaredRemovable);
    }
    assert(warnings@.map_values(|w: SafetyWarning| warning_view(w)) =~= w1);
    if device.bus_type == BusType::Unknown {
        warnings.push(SafetyWarning::UnknownBus);
    }
    assert(warnings@.map_values(|w: SafetyWarning| warning_view(w)) =~= w1 + w2);
    if capacity > policy.suspicious_capacity_bytes {
        warnings.push(SafetyWarning::UnusuallyLarge { capacity_bytes: capacity });
    }
    assert(warnings@.map_values(|w: SafetyWarning| warning_view(w)) =~= w1 + w2 + w3);
    if device.volumes.len() > 0 {
        let volumes = mounted_volume_list(&device.volumes);
        warnings.push(SafetyWarning::HasMountedVolumes { volumes });
    }
    assert(warnings@.map_values(|w: SafetyWarning| warning_view(w)) =~= expected_warnings(d, p));
    if warnings.len() == 0 {
        SafetyVerdict::Allowed
    } else {
        SafetyVerdict::NeedsConfirmation { warnings }
    }
}

/// Failures while issuing consent for a destructive operation.
#[derive(Debug, Clone, PartialEq, Eq)]
pub enum ConfirmationError {
    /// The device is blocked outright.
    DeviceBlocked,
    /// The typed text does not match the device name.
    NameMismatch {
        /// What the user typed, trimmed.
        typed: String,
        /// What was expected.
        expected: String,
    },
}

/// Proof that the user authorised a destructive operation on this specific
/// device. The only way to obtain one is [`DestructiveConsent::issue`], so no
/// code path can write without passing through the safety evaluation.
#[derive(Debug, Clone, PartialEq, Eq)]
pub struct DestructiveConsent {
    fingerprint: String,
    device_path: String,
}

impl DestructiveConsent {
    pub closed spec fn spec_fingerprint(&self) -> Seq<char> {
        self.fingerprint@
    }

    pub closed spec fn spec_path(&self) -> Seq<char> {
        self.device_path@
    }

    /// Issues consent if the device is eligible and the typed name matches the
    /// device's name, ignoring surrounding white space and ASCII case.
    /// Requiring the name separates "clicked OK without reading" from
    /// "recognised the device".
    pub fn issue(device: &DeviceInfo, typed_name: &str, policy: &SafetyPolicy) -> (r: Result<Self, ConfirmationError>)
        ensures
            expected_blocks(*device, *policy).len() > 0 ==> r == Err::<Self, ConfirmationError>(
                ConfirmationError::DeviceBlocked,
            ),
            expected_blocks(*device, *policy).len() == 0 && !same_ignoring_ascii_case(
                trimmed(typed_name@),
                trimmed(display_name_of(device.model@, device.vendor@)),
            ) ==> ({
                &&& r matches Err(ConfirmationError::NameMismatch { typed, expected })
                &&& typed@ == trimmed(typed_name@)
                &&& expected@ == display_name_of(device.model@, device.vendor@)
            }),
            expected_blocks(*device, *policy).len() == 0 && same_ignoring_ascii_case(
                trimmed(typed_name@),
                trimmed(display_name_of(device.model@, device.vendor@)),
            ) ==> r is Ok && r->Ok_0.spec_fingerprint() == fingerprint_of(*device) && r->Ok_0.spec_path()
                == device.path@,
    {
        let verdict = evaluate(device, policy);
        if !verdict.permits_writing() {
            return Err(ConfirmationError::DeviceBlocked);
        }
        let expected = device.display_name();
        let typed = trim(typed_name);
        if !eq_ignore_ascii_case(typed, trim(expected.as_str())) {
            return Err(ConfirmationError::NameMismatch { typed: String::from_str(typed), expected });
        }
        Ok(DestructiveConsent { fingerprint: device.fingerprint(), device_path: device.path.clone() })
    }

    /// Checks that the consent applies to this device. Called again right
    /// before writing: a card swapped since approval has another fingerprint.
    pub fn matches(&self, device: &DeviceInfo) -> (r: bool)
        ensures
            r == (self.spec_fingerprint() == fingerprint_of(*device) && self.spec_path() == device.path@),
    {
        let fp = device.fingerprint();
        let same_card = self.fingerprint == fp;
        let same_slot = self.device_path == device.path;
        same_card && same_slot
    }

    /// The authorised fingerprint.
    pub fn fingerprint(&self) -> (r: &str)
        ensures
            r@ == self.spec_fingerprint(),
    {
        self.fingerprint.as_str()
    }
}

/// Consent never transfers: consent issued for one device applies to another
/// only when the other has the same fingerprint and the same path.
pub proof fn lemma_consent_does_not_transfer(c: DestructiveConsent, issued_for: DeviceInfo, other: DeviceInfo)
    requires
        c.spec_fingerprint() == fingerprint_of(issued_for),
        c.spec_path() == issued_for.path@,
        c.spec_fingerprint() == fingerprint_of(other) && c.spec_path() == other.path@,
    ensures
        fingerprint_of(other) == fingerprint_of(issued_for),
        other.path@ == issued_for.path@,
{
}

} // verus!
