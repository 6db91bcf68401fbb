//! What applying a plan to a card reports, and the decisions around it that
//! do not touch the card: the disk signature a card gets, the characters a
//! volume name keeps, and which filesystems this program writes itself.
use vstd::prelude::*;
use vstd::string::{StringExecFns, StringSliceAdditionalSpecFns};

use crate::bytes::{push_bytes, push_zeros, zeros};
use crate::device::{extends, fingerprint_of, flush_op, read_op, write_op, BlockDevice, DeviceCall, DeviceInfo, DeviceOp};
use crate::fat32::{Fat32Image, Fat32Layout};
use crate::geometry::{sat_mul, LbaRange};
use crate::mbr::{
    changes_of, describe_change, entry_for, empty_entry, mbr_at, mbr_bytes, ranges_of, unentrable, used_of, MasterBootRecord,
    MbrError, PriorLayout, TableChange, MBR_SIZE,
};
use crate::planner::{
    in_address_order, passes_validation, validation_outcome, Containment, FileSystem, PartitionPlan, PlanError,
    PlannedPartition,
};
use crate::safety::DestructiveConsent;
use crate::sector_map::SectorMap;
use crate::text::push_char;

verus! {

/// Largest FAT32 volume the Windows formatter will create: 32 GiB. Past it
/// the filesystem is written by this program instead.
pub const FORMAT_COM_FAT32_LIMIT: u64 = 34_359_738_368;

/// Offset basis of 64-bit FNV-1a.
pub const FNV_OFFSET: u64 = 0xcbf2_9ce4_8422_2325;

/// Prime of 64-bit FNV-1a.
pub const FNV_PRIME: u64 = 0x0000_0100_0000_01b3;

/// A step performed while applying a plan: structured rather than
/// pre-formatted, so the presentation layer chooses the wording.
#[derive(Debug, Clone, PartialEq, Eq)]
pub enum ApplyStep {
    /// Existing volumes were locked and unmounted.
    VolumesDismounted,
    /// A volume could not be locked or unmounted; the text names the cause.
    VolumeWarning(String),
    /// The partition table changed in the described way.
    TableChanged(TableChange),
    /// The head of a data partition was zeroed.
    PartitionHeadWiped {
        /// Label of the affected partition.
        label: String,
    },
    /// The new partition table was written.
    TableWritten,
    /// The system was notified to re-read the layout.
    SystemNotified,
    /// The data partition was mounted at the given drive letter.
    VolumeMounted {
        /// Drive letter assigned by Windows.
        letter: char,
    },
    /// The volume was written directly, its defective clusters withheld in
    /// its own allocation table.
    ClusterMapWritten {
        /// Clusters marked defective and never handed out.
        withheld_clusters: u32,
        /// Bytes the volume will actually offer.
        usable_bytes: u64,
    },
    /// A table was stored for this card, and it is not a partition table.
    StoredTableUnusable,
    /// The partition table the card arrived with was put back.
    TableRestored {
        /// Whether it was the card's own table, or a full-capacity one made
        /// because none had been kept.
        from_card: bool,
    },
    /// The data partition was formatted.
    Formatted {
        /// Drive letter formatted.
        letter: char,
        /// Filesystem written.
        filesystem: FileSystem,
    },
    /// The partition exists but Windows did not mount it in time.
    MountTimedOut,
}

/// Failures while applying a plan.
#[derive(Debug, Clone, PartialEq, Eq)]
pub enum ApplyError {
    /// The consent does not match the device present.
    ConsentMismatch,
    /// The plan is no longer safe for the given map.
    UnsafePlan(PlanError),
    /// The partition table could not be assembled.
    Mbr(MbrError),
    /// Device access failed.
    Device(String),
    /// Formatting failed.
    FormatFailed {
        /// Drive letter.
        letter: char,
        /// Formatter output.
        detail: String,
    },
}

/// Result of applying a plan.
#[derive(Debug, Clone)]
pub struct ApplyOutcome {
    /// Ordered record of what was done.
    pub steps: Vec<ApplyStep>,
    /// Drive letter assigned to the data partition, when Windows mounted it.
    pub data_volume_letter: Option<char>,
    /// The table the card carried before this operation overwrote it.
    pub table_before: Option<Vec<u8>>,
}

/// 64-bit FNV-1a of `bytes`.
pub open spec fn fnv1a(bytes: Seq<u8>) -> u64
    decreases bytes.len(),
{
    if bytes.len() == 0 {
        FNV_OFFSET
    } else {
        (fnv1a(bytes.drop_last()) ^ (bytes.last() as u64)).wrapping_mul(FNV_PRIME)
    }
}

/// 64-bit FNV-1a of the bytes of `text`.
pub fn fnv1a_of(text: &str) -> (r: u64)
    ensures
        r == fnv1a(text.spec_bytes()),
{
    let bytes = text.as_bytes();
    let mut h: u64 = FNV_OFFSET;
    let mut i: usize = 0;
    proof {
        assert(bytes@.take(0) =~= Seq::<u8>::empty());
    }
    while i < bytes.len()
        invariant
            i <= bytes@.len(),
            bytes@ == text.spec_bytes(),
            h == fnv1a(bytes@.take(i as int)),
        decreases bytes@.len() - i,
    {
        proof {
            assert(bytes@.take(i + 1).drop_last() =~= bytes@.take(i as int));
            assert(bytes@.take(i + 1).last() == bytes@[i as int]);
        }
        h = (h ^ (bytes[i] as u64)).wrapping_mul(FNV_PRIME);
        i = i + 1;
    }
    proof {
        assert(bytes@.take(bytes@.len() as int) =~= bytes@);
    }
    h
}

/// The signature a hash folds to: its two halves combined, and never zero,
/// which Windows reads as "no signature".
pub open spec fn signature_of(h: u64) -> u32 {
    let folded = (h ^ (h >> 32u64)) as u32;
    if folded < 1 {
        1
    } else {
        folded
    }
}

/// Derives a disk signature from the device's identity: stable for the same
/// card, different between cards, so Windows does not confuse two devices.
pub fn disk_signature_for(device: &DeviceInfo) -> (r: u32)
    ensures
        r >= 1,
        exists|fp: &str| fp@ == fingerprint_of(*device) && r == signature_of(fnv1a(fp.spec_bytes())),
{
    let fingerprint = device.fingerprint();
    let text = fingerprint.as_str();
    let h = fnv1a_of(text);
    let folded = (h ^ (h >> 32u64)) as u32;
    let r = if folded < 1 {
        1
    } else {
        folded
    };
    assert(text@ == fingerprint_of(*device));
    r
}

/// Whether `c` may stand in a volume name on both filesystems.
pub open spec fn label_char_ok(c: char) -> bool {
    ('A' <= c && c <= 'Z') || ('a' <= c && c <= 'z') || ('0' <= c && c <= '9') || c == '_' || c == '-'
}

/// One character of a volume name, as both filesystems will accept it: kept
/// when acceptable, an underscore otherwise, never dropped.
pub fn sanitise_label_char(c: char) -> (r: char)
    ensures
        r == if label_char_ok(c) {
            c
        } else {
            '_'
        },
{
    if ('A' <= c && c <= 'Z') || ('a' <= c && c <= 'z') || ('0' <= c && c <= '9') || c == '_' || c == '-' {
        c
    } else {
        '_'
    }
}

/// Whether this program writes the filesystem itself rather than asking
/// Windows: only for FAT32 past the size Windows' formatter accepts,
/// measured in bytes.
pub fn writes_own_filesystem(filesystem: FileSystem, area: &LbaRange, sector_size: u32) -> (r: bool)
    ensures
        r == (filesystem == FileSystem::Fat32 && sat_mul(area.len(), sector_size as u64) > FORMAT_COM_FAT32_LIMIT),
{
    let fat32 = match filesystem {
        FileSystem::Fat32 => true,
        FileSystem::ExFat => false,
    };
    fat32 && crate::geometry::saturating_mul_u64(area.len(), sector_size as u64) > FORMAT_COM_FAT32_LIMIT
}

/// Bytes zeroed at the start of each data partition, so that no stale
/// filesystem is recognised over the new layout.
pub const WIPE_HEAD_BYTES: u64 = 1_048_576;

/// Bytes written per call while laying down a volume this program writes.
pub const SPLICED_WRITE_BYTES: usize = 1_048_576;

/// The consent was issued for this very card, in this very slot.
pub open spec fn consent_covers(consent: DestructiveConsent, device: DeviceInfo) -> bool {
    consent.spec_fingerprint() == fingerprint_of(device) && consent.spec_path() == device.path@
}

/// The table a plan becomes under `signature`: one entry per partition, in
/// order, and the remaining slots empty.
pub open spec fn table_of(plan: PartitionPlan, signature: u32, m: MasterBootRecord) -> bool {
    let parts = plan.partitions@;
    &&& m.disk_signature == signature
    &&& forall|k: int| 0 <= k < parts.len() ==> #[trigger] m.partitions@[k] == entry_for(parts[k])
    &&& forall|k: int| parts.len() <= k < 4 ==> #[trigger] m.partitions@[k] == empty_entry()
}

/// The checks made before a single byte is written: that the consent covers
/// this card here and now, that the plan is still safe against the map, and
/// that the new table fits the format. Gives the table to write.
pub fn authorise(
    device: &DeviceInfo,
    plan: &PartitionPlan,
    map: &SectorMap,
    consent: &DestructiveConsent,
) -> (r: Result<MasterBootRecord, ApplyError>)
    ensures
        !consent_covers(*consent, *device) ==> r == Err::<MasterBootRecord, ApplyError>(ApplyError::ConsentMismatch),
        consent_covers(*consent, *device) && !passes_validation(*map, *plan, 4) ==> (r matches Err(
            ApplyError::UnsafePlan(_),
        )),
        r matches Err(ApplyError::UnsafePlan(e)) ==> consent_covers(*consent, *device) && validation_outcome(
            *plan,
            *map,
            4,
            Err(e),
        ),
        consent_covers(*consent, *device) && passes_validation(*map, *plan, 4) && (exists|k: int|
            0 <= k < plan.partitions@.len() && #[trigger] unentrable(plan.partitions@[k])) ==> (r matches Err(
            ApplyError::Mbr(_),
        )),
        consent_covers(*consent, *device) && passes_validation(*map, *plan, 4) && (forall|k: int|
            0 <= k < plan.partitions@.len() ==> !#[trigger] unentrable(plan.partitions@[k])) ==> r is Ok,
        r is Ok ==> consent_covers(*consent, *device) && passes_validation(*map, *plan, 4) && r->Ok_0.disk_signature
            >= 1 && table_of(*plan, r->Ok_0.disk_signature, r->Ok_0),
{
    if !consent.matches(device) {
        return Err(ApplyError::ConsentMismatch);
    }
    match plan.validate(map, 4) {
        Ok(()) => {},
        Err(e) => return Err(ApplyError::UnsafePlan(e)),
    }
    let signature = disk_signature_for(device);
    match MasterBootRecord::from_plan(plan, signature) {
        Ok(m) => Ok(m),
        Err(e) => Err(ApplyError::Mbr(e)),
    }
}

/// The first sector of the card as written: the table's 512 bytes, then
/// zeros to the end of the sector, since nothing valid lives there.
pub fn table_sector(mbr: &MasterBootRecord, sector_size: usize) -> (r: Vec<u8>)
    requires
        sector_size >= MBR_SIZE,
    ensures
        r@ == mbr_bytes(*mbr) + zeros(sector_size - MBR_SIZE),
        r@.len() == sector_size,
{
    let table = mbr.to_bytes();
    let mut out: Vec<u8> = Vec::new();
    push_bytes(&mut out, &table);
    push_zeros(&mut out, sector_size - MBR_SIZE);
    out
}

/// The table held by a first sector read off the card, if it holds one.
pub fn table_in(sector: &[u8]) -> (r: Option<MasterBootRecord>)
    ensures
        (sector@.len() >= 512 && sector@[510] + 256 * sector@[511] == 0xAA55) ==> r == Some(
            mbr_at(sector@.subrange(0, 512)),
        ),
        !(sector@.len() >= 512 && sector@[510] + 256 * sector@[511] == 0xAA55) ==> r is None,
{
    if sector.len() < MBR_SIZE {
        return None;
    }
    let head = &sector[0..MBR_SIZE];
    assert(head@ == sector@.subrange(0, 512));
    match MasterBootRecord::from_bytes(head) {
        Ok(m) => Some(m),
        Err(_) => None,
    }
}

/// Sectors zeroed at the head of a data partition: a mebibyte's worth, and
/// at least one.
pub fn head_wipe_sectors(sector_size: u32) -> (r: u64)
    requires
        sector_size > 0,
    ensures
        r == if WIPE_HEAD_BYTES / (sector_size as u64) >= 1 {
            WIPE_HEAD_BYTES / (sector_size as u64)
        } else {
            1
        },
        r >= 1,
{
    let per = WIPE_HEAD_BYTES / sector_size as u64;
    if per >= 1 {
        per
    } else {
        1
    }
}

/// A volume name as the formatter receives it: its first eleven characters,
/// each kept when acceptable and an underscore otherwise.
pub open spec fn volume_label_of(label: Seq<char>) -> Seq<char> {
    let n = if label.len() < 11 {
        label.len()
    } else {
        11
    };
    Seq::new(n, |i: int| if label_char_ok(label[i]) {
        label[i]
    } else {
        '_'
    })
}

/// Builds the volume name handed to the formatter.
pub fn volume_label(label: &str) -> (r: String)
    ensures
        r@ == volume_label_of(label@),
{
    let n = label.unicode_len();
    let take = if n < 11 {
        n
    } else {
        11
    };
    let mut out = String::new();
    let mut i: usize = 0;
    while i < take
        invariant
            n == label@.len(),
            take == if n < 11 {
                n
            } else {
                11
            },
            i <= take,
            out@ == Seq::new(i as nat, |k: int| if label_char_ok(label@[k]) {
                label@[k]
            } else {
                '_'
            }),
        decreases take - i,
    {
        let c = label.get_char(i);
        push_char(&mut out, sanitise_label_char(c));
        i = i + 1;
        proof {
            assert(out@ =~= Seq::new(i as nat, |k: int| if label_char_ok(label@[k]) {
                label@[k]
            } else {
                '_'
            }));
        }
    }
    out
}

/// Whether `c` is an ASCII letter.
pub open spec fn ascii_letter(c: char) -> bool {
    ('A' <= c && c <= 'Z') || ('a' <= c && c <= 'z')
}

/// Upper case of an ASCII letter.
pub open spec fn upper(c: char) -> char {
    if 'a' <= c && c <= 'z' {
        ((c as int) - 32) as char
    } else {
        c
    }
}

/// Index of the first mount point, from `i` on, that starts with an ASCII
/// letter.
pub open spec fn first_lettered(mounts: Seq<Seq<char>>, i: int) -> Option<int>
    decreases mounts.len() - i,
{
    if i >= mounts.len() || i < 0 {
        None
    } else if mounts[i].len() > 0 && ascii_letter(mounts[i][0]) {
        Some(i)
    } else {
        first_lettered(mounts, i + 1)
    }
}

/// The drive letter among a volume's mount points: the first character of
/// the first one that begins with an ASCII letter, in upper case.
pub fn drive_letter_of(mounts: &Vec<String>) -> (r: Option<char>)
    ensures
        r == match first_lettered(mounts@.map_values(|m: String| m@), 0) {
            Some(i) => Some(upper(mounts@[i]@[0])),
            None => None,
        },
{
    let ghost views = mounts@.map_values(|m: String| m@);
    let mut i: usize = 0;
    while i < mounts.len()
        invariant
            views == mounts@.map_values(|m: String| m@),
            i <= mounts@.len(),
            first_lettered(views, 0) == first_lettered(views, i as int),
        decreases mounts@.len() - i,
    {
        let m = mounts[i].as_str();
        assert(views[i as int] == m@);
        if m.unicode_len() > 0 {
            let c = m.get_char(0);
            if ('A' <= c && c <= 'Z') || ('a' <= c && c <= 'z') {
                let up = if 'a' <= c && c <= 'z' {
                    ((c as u32) - 32) as u8 as char
                } else {
                    c
                };
                return Some(up);
            }
        }
        i = i + 1;
    }
    None
}

/// Renders sectors `[first, first + count)` of a volume, one after another.
pub fn render_batch(image: &Fat32Image, first: u64, count: usize) -> (r: Vec<u8>)
    requires
        first + count <= u64::MAX,
    ensures
        r@ == Seq::new(count as nat, |k: int| image.sector_content((first + k) as u64)).flatten(),
{
    let bps = image.layout().bytes_per_sector() as usize;
    let mut out: Vec<u8> = Vec::new();
    let mut i: usize = 0;
    while i < count
        invariant
            i <= count,
            first + count <= u64::MAX,
            bps == image.spec_layout().spec_bytes_per_sector(),
            out@ == Seq::new(i as nat, |k: int| image.sector_content((first + k) as u64)).flatten(),
        decreases count - i,
    {
        let mut one = vec![0u8; bps];
        image.render_sector(first + i as u64, one.as_mut_slice());
        push_bytes(&mut out, one.as_slice());
        proof {
            let f = |k: int| image.sector_content((first + k) as u64);
            let before = Seq::new(i as nat, f);
            assert(Seq::new((i + 1) as nat, f) =~= before.push(f(i as int)));
            before.lemma_flatten_push(f(i as int));
        }
        i = i + 1;
    }
    out
}

/// A device error as the step that failed would report it.
fn device_failure(context: &str, e: &crate::device::DeviceError) -> (r: ApplyError)
    ensures
        r matches ApplyError::Device(s) && (!(*e is Io) ==> s@ == context@ + crate::device::device_error_text(*e)) && (
        *e is Io ==> crate::text::has_prefix(s@, context@ + crate::device::device_error_text(*e))),
{
    let mut s = String::from_str(context);
    let m = e.message();
    s.append(m.as_str());
    proof {
        if e is Io {
            let t = crate::device::device_error_text(*e);
            assert(s@.subrange(0, (context@.len() + t.len()) as int) =~= context@ + t) by {
                assert(m@.subrange(0, t.len() as int) == t);
                assert forall|i: int| 0 <= i < context@.len() + t.len() implies s@.subrange(0, (context@.len() + t.len()) as int)[i]
                    == (context@ + t)[i] by {
                    if i >= context@.len() {
                        assert(s@[i] == m@[i - context@.len()]);
                        assert(m@.subrange(0, t.len() as int)[i - context@.len()] == m@[i - context@.len()]);
                    }
                }
            }
        }
    }
    ApplyError::Device(s)
}

/// Sectors `[first, first + count)` of a volume image, one after another.
#[verifier::opaque]
pub open spec fn rendered(image: Fat32Image, first: int, count: int) -> Seq<u8> {
    Seq::new(count as nat, |k: int| image.sector_content((first + k) as u64)).flatten()
}

/// The requests, from `from` to the end of `h`, that laid `image` down over
/// `area`: its metadata sectors written in order, in batches of `per`
/// sectors (the last one shorter), the `j`-th covering `[offs[j],
/// offs[j + 1])` of the volume, every write accepted; then one flush, also
/// accepted.
pub open spec fn volume_log(h: Seq<DeviceOp>, from: int, image: Fat32Image, area: LbaRange, per: int, offs: Seq<int>) -> bool {
    let nb = offs.len() - 1;
    &&& offs.len() >= 1
    &&& offs[0] == 0
    &&& offs[nb] == image.spec_layout().spec_metadata_sectors()
    &&& h.len() == from + nb + 1
    &&& h[h.len() - 1] == flush_op(true)
    &&& forall|j: int| 0 <= j < nb ==> offs[j] < #[trigger] offs[j + 1] <= offs[j] + per
    &&& forall|j: int| 0 <= j < nb - 1 ==> #[trigger] offs[j + 1] == offs[j] + per
    &&& forall|j: int|
        0 <= j < nb ==> #[trigger] h[from + j] == write_op(
            (area.start() + offs[j]) as u64,
            rendered(image, offs[j], offs[j + 1] - offs[j]),
            true,
        )
}

/// Sectors laid down per write, for a sector size of `ss` bytes.
pub open spec fn batch_sectors(ss: int) -> int {
    if (SPLICED_WRITE_BYTES as int) / ss >= 1 { (SPLICED_WRITE_BYTES as int) / ss } else { 1 }
}

/// Writes a FAT32 volume over `area` whose allocation table withholds every
/// cluster the scan did not approve. Only the metadata is written, in
/// batches of a mebibyte: a cluster nobody allocates is never read.
pub fn write_spliced_volume<D: BlockDevice>(
    dev: &mut D,
    map: &SectorMap,
    area: &LbaRange,
    volume_id: u32,
    label: &str,
) -> (r: Result<ApplyStep, ApplyError>)
    ensures
        final(dev).reported() == old(dev).reported(),
        Fat32Layout::spec_plan(area.len(), map.spec_geometry().sector_size(), volume_id) is Err ==> r is Err,
        r is Ok ==> r->Ok_0 is ClusterMapWritten,
        r is Err ==> r->Err_0 is Device,
        extends(final(dev).history(), old(dev).history()),
        r is Ok ==> exists|image: Fat32Image, offs: Seq<int>|
            image.built_for(*map, *area, volume_id, label@) && #[trigger] volume_log(
                final(dev).history(),
                old(dev).history().len() as int,
                image,
                *area,
                batch_sectors(map.spec_geometry().sector_size() as int),
                offs,
            ),
{
    let ghost h0 = dev.history();
    let image = match Fat32Image::new(map, area, volume_id, label) {
        Ok(i) => i,
        Err(e) => {
            let mut s = String::from_str("could not lay out the volume: ");
            s.append(e.message().as_str());
            return Err(ApplyError::Device(s));
        },
    };
    let ghost layout = image.spec_layout();
    proof {
        Fat32Layout::lemma_plan_spans(area.len(), map.spec_geometry().sector_size(), volume_id);
    }
    let l = image.layout();
    proof {
        use_type_invariant(l);
        l.lemma_valid();
        l.lemma_metadata_fits();
    }
    let sector_size = l.bytes_per_sector() as usize;
    let per = SPLICED_WRITE_BYTES / sector_size;
    let per_batch: usize = if per >= 1 {
        per
    } else {
        1
    };
    let total = image.sectors_to_write();
    let mut written: u64 = 0;
    let ghost mut offs: Seq<int> = seq![0int];
    proof {
        assert(per_batch == batch_sectors(map.spec_geometry().sector_size() as int));
    }
    while written < total
        invariant
            total == layout.spec_metadata_sectors(),
            layout == image.spec_layout(),
            total <= layout.spec_total_sectors(),
            layout.spec_total_sectors() == area.len(),
            written <= total,
            per_batch >= 1,
            dev.reported() == old(dev).reported(),
            h0 == old(dev).history(),
            extends(dev.history(), h0),
            offs.len() >= 1,
            offs[0] == 0,
            offs[offs.len() - 1] == written,
            dev.history().len() == h0.len() + offs.len() - 1,
            forall|j: int| 0 <= j < offs.len() - 1 ==> offs[j] < #[trigger] offs[j + 1] <= offs[j] + per_batch,
            forall|j: int| 0 <= j < offs.len() - 2 ==> #[trigger] offs[j + 1] == offs[j] + per_batch,
            offs.len() >= 2 ==> offs[offs.len() - 1] == offs[offs.len() - 2] + per_batch || written == total,
            forall|j: int|
                0 <= j < offs.len() - 1 ==> #[trigger] dev.history()[h0.len() + j] == write_op(
                    (area.start() + offs[j]) as u64,
                    rendered(image, offs[j], offs[j + 1] - offs[j]),
                    true,
                ),
        decreases total - written,
    {
        let remaining = total - written;
        let count: usize = if remaining < per_batch as u64 {
            remaining as usize
        } else {
            per_batch
        };
        let buf = render_batch(&image, written, count);
        let ghost hb = dev.history();
        match dev.write_at(area.start() + written, buf.as_slice()) {
            Ok(()) => {},
            Err(e) => return Err(device_failure("failed to write the volume: ", &e)),
        }
        proof {
            let o2 = offs.push(written + count);
            assert forall|j: int| 0 <= j < o2.len() - 1 implies #[trigger] dev.history()[h0.len() + j] == write_op(
                (area.start() + o2[j]) as u64,
                rendered(image, o2[j], o2[j + 1] - o2[j]),
                true,
            ) by {
                if j < offs.len() - 1 {
                    assert(o2[j] == offs[j] && o2[j + 1] == offs[j + 1]);
                    assert(dev.history()[h0.len() + j] == hb[h0.len() + j]);
                } else {
                    assert(o2[j] == written && o2[j + 1] == written + count);
                    assert(buf@ == rendered(image, written as int, count as int)) by {
                        reveal(rendered);
                    }
                }
            }
            assert forall|j: int| 0 <= j < o2.len() - 2 implies #[trigger] o2[j + 1] == o2[j] + per_batch by {
                if j < offs.len() - 2 {
                    assert(o2[j] == offs[j] && o2[j + 1] == offs[j + 1]);
                } else {
                    assert(o2[j] == offs[offs.len() - 2] && o2[j + 1] == offs[offs.len() - 1]);
                }
            }
            assert forall|j: int| 0 <= j < o2.len() - 1 implies o2[j] < #[trigger] o2[j + 1] <= o2[j] + per_batch by {
                if j < offs.len() - 1 {
                    assert(o2[j] == offs[j] && o2[j + 1] == offs[j + 1]);
                }
            }
            assert forall|i: int| 0 <= i < h0.len() implies #[trigger] dev.history()[i] == h0[i] by {
                assert(dev.history()[i] == hb[i]);
            }
            offs = o2;
        }
        written = written + count as u64;
    }
    let ghost hf = dev.history();
    match dev.flush() {
        Ok(()) => {},
        Err(e) => return Err(device_failure("", &e)),
    }
    proof {
        assert forall|j: int| 0 <= j < offs.len() - 1 implies #[trigger] dev.history()[h0.len() + j] == write_op(
            (area.start() + offs[j]) as u64,
            rendered(image, offs[j], offs[j + 1] - offs[j]),
            true,
        ) by {
            assert(dev.history()[h0.len() + j] == hf[h0.len() + j]);
        }
        assert forall|i: int| 0 <= i < h0.len() implies #[trigger] dev.history()[i] == h0[i] by {
            assert(dev.history()[i] == hf[i]);
        }
        assert(volume_log(dev.history(), h0.len() as int, image, *area, per_batch as int, offs));
    }
    Ok(ApplyStep::ClusterMapWritten { withheld_clusters: image.condemned_clusters(), usable_bytes: image.usable_bytes() })
}

/// What writing a layout to the card did, and the table it overwrote.
#[derive(Debug, Clone)]
pub struct LayoutWritten {
    /// Ordered record of what was done.
    pub steps: Vec<ApplyStep>,
    /// The first 512 bytes the card held before the new table replaced them.
    pub table_before: Vec<u8>,
}

/// The table a first sector read off the card holds, if it holds one.
pub open spec fn table_of_sector(s: Seq<u8>) -> Option<MasterBootRecord> {
    if s.len() >= 512 && s[510] + 256 * s[511] == 0xAA55 {
        Some(mbr_at(s.subrange(0, 512)))
    } else {
        None
    }
}

/// How the table changes from what the card held, if anything was read, to
/// `after`: every used entry of the old table removed, then every used entry
/// of the new one added.
pub open spec fn table_changes(before: Option<MasterBootRecord>, after: MasterBootRecord) -> Seq<TableChange> {
    (match before {
        Some(b) => changes_of(used_of(b.partitions@, 4), false),
        None => Seq::empty(),
    }) + changes_of(used_of(after.partitions@, 4), true)
}

/// Sectors zeroed at the head of a data partition, for a sector size of
/// `ss` bytes.
pub open spec fn wipe_sectors(ss: u64) -> u64 {
    if WIPE_HEAD_BYTES / ss >= 1 { WIPE_HEAD_BYTES / ss } else { 1 }
}

/// The requests writing a layout made first, from `from` on in `h`: the
/// first sector read from the card, then, for each data partition in
/// order, one write of zeros over the head of it.
pub open spec fn layout_prelude(h: Seq<DeviceOp>, from: int, data: Seq<PlannedPartition>, ss: u64) -> bool {
    &&& h.len() >= from + 1 + data.len()
    &&& h[from].call == DeviceCall::Read
    &&& h[from].lba == 0
    &&& h[from].data.len() == ss
    &&& forall|k: int|
        0 <= k < data.len() ==> #[trigger] h[from + 1 + k] == write_op(
            data[k].range.start(),
            zeros(
                (if wipe_sectors(ss) < data[k].range.len() {
                    wipe_sectors(ss)
                } else {
                    data[k].range.len()
                }) * ss,
            ),
            h[from + 1 + k].ok,
        )
}

/// The first requests of a layout write stay on record as the history grows.
proof fn lemma_prelude_extends(h: Seq<DeviceOp>, h2: Seq<DeviceOp>, from: int, data: Seq<PlannedPartition>, ss: u64)
    requires
        0 <= from,
        extends(h2, h),
        layout_prelude(h, from, data, ss),
    ensures
        layout_prelude(h2, from, data, ss),
{
    assert(h2[from] == h[from]);
    assert forall|k: int| 0 <= k < data.len() implies #[trigger] h2[from + 1 + k] == write_op(
        data[k].range.start(),
        zeros(
            (if wipe_sectors(ss) < data[k].range.len() {
                wipe_sectors(ss)
            } else {
                data[k].range.len()
            }) * ss,
        ),
        h2[from + 1 + k].ok,
    ) by {
        assert(h2[from + 1 + k] == h[from + 1 + k]);
    }
}

/// A step that writing the layout itself records before the table goes down.
pub open spec fn layout_step(s: ApplyStep) -> bool {
    s is TableChanged || s is PartitionHeadWiped || s is ClusterMapWritten
}

/// Writes a validated layout to a card whose volumes are already out of the
/// way: records how the table changes and what it held, zeroes the head of
/// every data partition, lays down a cluster-map volume before any table
/// points at it, and finally writes and flushes the new table. Nothing is
/// ever published pointing at an area that does not yet hold a filesystem.
pub fn apply_layout<D: BlockDevice>(
    dev: &mut D,
    plan: &PartitionPlan,
    map: &SectorMap,
    new_mbr: &MasterBootRecord,
    label: &str,
) -> (r: Result<LayoutWritten, ApplyError>)
    ensures
        final(dev).reported() == old(dev).reported(),
        r is Ok ==> r->Ok_0.table_before@.len() == MBR_SIZE,
        r is Ok ==> r->Ok_0.steps@.len() >= 1 && r->Ok_0.steps@.last() == ApplyStep::TableWritten,
        r is Ok ==> forall|i: int| 0 <= i < r->Ok_0.steps@.len() - 1 ==> #[trigger] layout_step(r->Ok_0.steps@[i]),
        r is Ok && plan.containment == Containment::FilesystemClusterMap ==> forall|k: int|
            0 <= k < crate::planner::with_role(plan.partitions@, crate::planner::PartitionRole::Data).len()
                ==> Fat32Layout::spec_plan(
                #[trigger] crate::planner::with_role(plan.partitions@, crate::planner::PartitionRole::Data)[k].range.len(),
                map.spec_geometry().sector_size(),
                new_mbr.disk_signature,
            ) is Ok,
        r is Err ==> r->Err_0 is Device,
        extends(final(dev).history(), old(dev).history()),
        ({
            let h0 = old(dev).history();
            let h = final(dev).history();
            let ss = old(dev).reported().sector_size();
            let first = h[h0.len() as int];
            r is Ok ==> {
                &&& layout_prelude(h, h0.len() as int, crate::planner::with_role(plan.partitions@, crate::planner::PartitionRole::Data), ss as u64)
                &&& r->Ok_0.table_before@ == first.data.subrange(0, 512)
                &&& forall|j: int| 0 <= j < table_changes(if first.ok { table_of_sector(first.data) } else { None }, *new_mbr).len()
                    ==> #[trigger] r->Ok_0.steps@[j] == ApplyStep::TableChanged(
                    table_changes(if first.ok { table_of_sector(first.data) } else { None }, *new_mbr)[j],
                )
                &&& h.len() >= h0.len() + 3
                &&& h[h.len() - 2] == write_op(0, mbr_bytes(*new_mbr) + zeros(ss - MBR_SIZE), true)
                &&& h[h.len() - 1] == flush_op(true)
            }
        }),
{
    let ghost h0 = dev.history();
    let g = dev.geometry();
    proof {
        use_type_invariant(&g);
        g.lemma_valid();
    }
    let sector_size = g.sector_size() as usize;
    let mut steps: Vec<ApplyStep> = Vec::new();

    // The table being replaced, so that the user sees what changes and the
    // card can be given back its own layout later.
    let mut first_sector = vec![0u8; sector_size];
    let previous = match dev.read_at(0, first_sector.as_mut_slice()) {
        Ok(()) => table_in(first_sector.as_slice()),
        Err(_) => None,
    };
    let ghost first = dev.history()[h0.len() as int];
    proof {
        assert(first == read_op(0, first_sector@, first.ok));
        assert(previous == if first.ok { table_of_sector(first.data) } else { None });
    }
    let changes = describe_change(previous.as_ref(), new_mbr);
    let mut i: usize = 0;
    while i < changes.len()
        invariant
            i <= changes@.len(),
            steps@.len() == i,
            forall|j: int| 0 <= j < steps@.len() ==> #[trigger] layout_step(steps@[j]),
            forall|j: int| 0 <= j < i ==> #[trigger] steps@[j] == ApplyStep::TableChanged(changes@[j]),
        decreases changes@.len() - i,
    {
        steps.push(ApplyStep::TableChanged(changes[i]));
        i = i + 1;
    }
    let ghost nchanges = steps@.len();
    let mut table_before: Vec<u8> = Vec::new();
    push_bytes(&mut table_before, &first_sector[0..MBR_SIZE]);

    // The head of each data partition is zeroed, so that no stale filesystem
    // is recognised over the new layout.
    let wipe = head_wipe_sectors(g.sector_size());
    let ss64 = g.sector_size() as u64;
    assert(WIPE_HEAD_BYTES / ss64 >= 1) by (nonlinear_arith)
        requires
            1 <= ss64 <= 4096,
    ;
    assert(wipe * ss64 <= WIPE_HEAD_BYTES) by (nonlinear_arith)
        requires
            wipe == WIPE_HEAD_BYTES / ss64,
            ss64 >= 1,
    ;
    let zeros_buf = vec![0u8; (wipe * g.sector_size() as u64) as usize];
    assert(zeros_buf@ =~= zeros((wipe * ss64) as int));
    let data = plan.data_partitions();
    let mut k: usize = 0;
    while k < data.len()
        invariant
            k <= data@.len(),
            dev.reported() == old(dev).reported(),
            forall|j: int| 0 <= j < steps@.len() ==> #[trigger] layout_step(steps@[j]),
            h0 == old(dev).history(),
            extends(dev.history(), h0),
            dev.history().len() == h0.len() + 1 + k,
            dev.history()[h0.len() as int] == first,
            first.call == DeviceCall::Read && first.lba == 0 && first.data == first_sector@,
            first_sector@.len() == ss64,
            wipe == wipe_sectors(ss64),
            zeros_buf@ == zeros((wipe * ss64) as int),
            forall|j: int|
                0 <= j < k ==> #[trigger] dev.history()[h0.len() + 1 + j] == write_op(
                    data@[j].range.start(),
                    zeros(
                        (if wipe < data@[j].range.len() {
                            wipe
                        } else {
                            data@[j].range.len()
                        }) * ss64,
                    ),
                    dev.history()[h0.len() + 1 + j].ok,
                ),
            steps@.len() >= nchanges,
            nchanges == changes@.len(),
            forall|j: int| 0 <= j < nchanges ==> #[trigger] steps@[j] == ApplyStep::TableChanged(changes@[j]),
            zeros_buf@.len() == wipe * ss64,
            wipe * ss64 <= WIPE_HEAD_BYTES,
            ss64 == g.sector_size(),
            g == old(dev).reported(),
            1 <= wipe,
        decreases data@.len() - k,
    {
        let p = &data[k];
        let count = if wipe < p.range.len() {
            wipe
        } else {
            p.range.len()
        };
        assert(count * ss64 <= wipe * ss64) by (nonlinear_arith)
            requires
                count <= wipe,
        ;
        let bytes = (count * ss64) as usize;
        let head = &zeros_buf[0..bytes];
        assert(head@ =~= zeros((count * ss64) as int));
        let ghost hb = dev.history();
        if dev.write_at(p.range.start(), head).is_ok() {
            steps.push(ApplyStep::PartitionHeadWiped { label: p.label.clone() });
        }
        proof {
            assert forall|j: int| 0 <= j < k + 1 implies #[trigger] dev.history()[h0.len() + 1 + j] == write_op(
                data@[j].range.start(),
                zeros(
                    (if wipe < data@[j].range.len() {
                        wipe
                    } else {
                        data@[j].range.len()
                    }) * ss64,
                ),
                dev.history()[h0.len() + 1 + j].ok,
            ) by {
                if j < k {
                    assert(dev.history()[h0.len() + 1 + j] == hb[h0.len() + 1 + j]);
                }
            }
            assert forall|i: int| 0 <= i < h0.len() implies #[trigger] dev.history()[i] == h0[i] by {
                assert(dev.history()[i] == hb[i]);
            }
            assert(dev.history()[h0.len() as int] == hb[h0.len() as int]);
        }
        k = k + 1;
    }
    proof {
        assert(layout_prelude(dev.history(), h0.len() as int, data@, ss64));
    }

    // A cluster-map volume goes down before the table that points at it.
    if plan.containment == Containment::FilesystemClusterMap {
        let mut k: usize = 0;
        while k < data.len()
            invariant
                k <= data@.len(),
                dev.reported() == old(dev).reported(),
                forall|j: int| 0 <= j < steps@.len() ==> #[trigger] layout_step(steps@[j]),
                data@ == crate::planner::with_role(plan.partitions@, crate::planner::PartitionRole::Data),
                h0 == old(dev).history(),
                extends(dev.history(), h0),
                layout_prelude(dev.history(), h0.len() as int, data@, ss64),
                dev.history()[h0.len() as int] == first,
                steps@.len() >= nchanges,
                nchanges == changes@.len(),
                forall|j: int| 0 <= j < nchanges ==> #[trigger] steps@[j] == ApplyStep::TableChanged(changes@[j]),
                forall|j: int|
                    0 <= j < k ==> Fat32Layout::spec_plan(
                        #[trigger] data@[j].range.len(),
                        map.spec_geometry().sector_size(),
                        new_mbr.disk_signature,
                    ) is Ok,
            decreases data@.len() - k,
        {
            let ghost hb = dev.history();
            let step = write_spliced_volume(dev, map, &data[k].range, new_mbr.disk_signature, label);
            proof {
                lemma_prelude_extends(hb, dev.history(), h0.len() as int, data@, ss64);
                assert forall|i: int| 0 <= i < h0.len() implies #[trigger] dev.history()[i] == h0[i] by {
                    assert(dev.history()[i] == hb[i]);
                }
                assert(dev.history()[h0.len() as int] == hb[h0.len() as int]);
            }
            match step {
                Ok(s) => steps.push(s),
                Err(e) => return Err(e),
            }
            k = k + 1;
        }
    }

    // The table itself, over a whole sector whose remainder is zeroed.
    let sector = table_sector(new_mbr, sector_size);
    let ghost hb = dev.history();
    match dev.write_at(0, sector.as_slice()) {
        Ok(()) => {},
        Err(e) => return Err(device_failure("failed to write the partition table: ", &e)),
    }
    let ghost hc = dev.history();
    match dev.flush() {
        Ok(()) => {},
        Err(e) => return Err(device_failure("", &e)),
    }
    proof {
        lemma_prelude_extends(hb, dev.history(), h0.len() as int, data@, ss64);
        assert forall|i: int| 0 <= i < h0.len() implies #[trigger] dev.history()[i] == h0[i] by {
            assert(dev.history()[i] == hc[i]);
            assert(hc[i] == hb[i]);
        }
        assert(dev.history()[h0.len() as int] == hb[h0.len() as int]);
        assert(dev.history()[dev.history().len() - 2] == hc[hc.len() - 1]);
    }
    steps.push(ApplyStep::TableWritten);
    Ok(LayoutWritten { steps, table_before })
}

/// Whether `restored` is, byte for byte, the table stored for the card.
pub open spec fn restores_stored(restored: MasterBootRecord, table_before: Option<Seq<u8>>) -> bool {
    match table_before {
        Some(b) => b.len() >= MBR_SIZE && mbr_bytes(restored) == b.subrange(0, MBR_SIZE as int),
        None => false,
    }
}

/// Whether what is about to be written came off the card rather than from
/// here. Compared rather than assumed: a stored table that would not parse is
/// replaced by an invented one, and reporting that as the card's own would be
/// wrong.
pub fn from_card_used(restored: &MasterBootRecord, table_before: Option<&[u8]>) -> (r: bool)
    ensures
        r == restores_stored(
            *restored,
            match table_before {
                Some(b) => Some(b@),
                None => None,
            },
        ),
{
    match table_before {
        Some(bytes) => {
            if bytes.len() < MBR_SIZE {
                return false;
            }
            let own = restored.to_bytes();
            let mut i: usize = 0;
            while i < MBR_SIZE
                invariant
                    i <= MBR_SIZE,
                    table_before == Some(bytes),
                    own@ == mbr_bytes(*restored),
                    own@.len() == MBR_SIZE,
                    bytes@.len() >= MBR_SIZE,
                    forall|k: int| 0 <= k < i ==> own@[k] == bytes@[k],
                decreases MBR_SIZE - i,
            {
                if own[i] != bytes[i] {
                    proof {
                        assert(own@[i as int] != bytes@[i as int]);
                        assert(mbr_bytes(*restored)[i as int] != bytes@.subrange(0, MBR_SIZE as int)[i as int]);
                        assert(mbr_bytes(*restored) != bytes@.subrange(0, MBR_SIZE as int));
                    }
                    return false;
                }
                i = i + 1;
            }
            proof {
                assert(mbr_bytes(*restored) =~= bytes@.subrange(0, MBR_SIZE as int));
            }
            true
        },
        None => false,
    }
}

/// The table stored for a card, when the stored bytes hold one.
pub open spec fn stored_table(table_before: Option<Seq<u8>>) -> Option<MasterBootRecord> {
    match table_before {
        Some(b) => table_of_sector(b),
        None => None,
    }
}

/// How a card is given back: the table to put on it, and what is recorded
/// before anything is written.
pub struct Restoration {
    /// The table the card arrived with, when the stored bytes hold one. When
    /// there is none, a single partition over the card's whole capacity is
    /// what it gets, formatted afterwards; reinstating the card's own table
    /// is never followed by a format.
    pub table: Option<MasterBootRecord>,
    /// Steps recorded so far.
    pub steps: Vec<ApplyStep>,
}

/// Decides how to remove this program's layout and give the card back. It
/// puts back a partition table, not data, and it removes the protection
/// rather than the damage. A stored table that will not parse counts as no
/// table at all, recorded as such, rather than as a failure: refusing to
/// release the card over it would bar the way out.
pub fn restoration(
    device: &DeviceInfo,
    consent: &DestructiveConsent,
    table_before: Option<&[u8]>,
) -> (r: Result<Restoration, ApplyError>)
    ensures
        !consent_covers(*consent, *device) ==> r == Err::<Restoration, ApplyError>(ApplyError::ConsentMismatch),
        consent_covers(*consent, *device) ==> r is Ok,
        ({
            let stored = match table_before {
                Some(b) => Some(b@),
                None => None,
            };
            r is Ok ==> {
                &&& r->Ok_0.table == stored_table(stored)
                &&& stored_table(stored) is None && table_before is Some ==> r->Ok_0.steps@ == seq![
                    ApplyStep::StoredTableUnusable,
                ]
                &&& table_before is None ==> r->Ok_0.steps@.len() == 0
                &&& stored_table(stored) matches Some(t) ==> r->Ok_0.steps@ == seq![
                    ApplyStep::TableRestored { from_card: restores_stored(t, stored) },
                ]
            }
        }),
{
    if !consent.matches(device) {
        return Err(ApplyError::ConsentMismatch);
    }
    let mut steps: Vec<ApplyStep> = Vec::new();
    let from_card = match table_before {
        Some(bytes) => table_in(bytes),
        None => None,
    };
    match from_card {
        Some(mbr) => {
            let own = from_card_used(&mbr, table_before);
            steps.push(ApplyStep::TableRestored { from_card: own });
            Ok(Restoration { table: Some(mbr), steps })
        },
        None => {
            if table_before.is_some() {
                steps.push(ApplyStep::StoredTableUnusable);
            }
            Ok(Restoration { table: None, steps })
        },
    }
}

/// The layout of this program a partition table records, described as
/// `PriorLayout::read` reads it.
pub open spec fn prior_layout_in(m: MasterBootRecord, r: Option<PriorLayout>) -> bool {
    let q = ranges_of(m.partitions@, 4, true);
    let d = ranges_of(m.partitions@, 4, false);
    &&& r is None <==> (q.len() == 0 || d.len() == 0)
    &&& r is Some ==> in_address_order(r->Some_0.quarantined@, q) && in_address_order(r->Some_0.data@, d)
}

/// Reads back the layout an earlier inspection left on the card: one read of
/// its first sector, nothing written. `None` when the read fails, when the
/// sector holds no partition table, or when the table is not one this program
/// wrote.
pub fn read_prior_layout<D: BlockDevice>(dev: &mut D) -> (r: Option<PriorLayout>)
    ensures
        final(dev).reported() == old(dev).reported(),
        ({
            let h = final(dev).history();
            let first = h[h.len() - 1];
            &&& h == old(dev).history().push(read_op(0, first.data, first.ok))
            &&& first.data.len() == old(dev).reported().sector_size()
            &&& !first.ok ==> r is None
            &&& first.ok && table_of_sector(first.data) is None ==> r is None
            &&& first.ok && table_of_sector(first.data) is Some ==> prior_layout_in(
                table_of_sector(first.data)->Some_0,
                r,
            )
        }),
{
    let g = dev.geometry();
    let mut first = vec![0u8; g.sector_size() as usize];
    match dev.read_at(0, first.as_mut_slice()) {
        Ok(()) => {},
        Err(_) => return None,
    }
    match table_in(first.as_slice()) {
        Some(m) => PriorLayout::read(&m),
        None => None,
    }
}

} // verus!
