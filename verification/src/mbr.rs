//! Master Boot Record serialization and parsing.
//!
//! MBR rather than GPT: card readers built into cameras and older devices
//! commonly understand only MBR, and its limits (four primary partitions,
//! 2 TiB) constrain no microSD in existence. The sector is assembled byte by
//! byte.
use vstd::prelude::*;

use crate::bytes::{copy_into, le16, le32, push_bytes, push_le32, push_zeros, read_le16, read_le32, zeros};
use crate::geometry::{sat_sub, LbaRange};
use crate::planner::{
    in_address_order, insert_in_order, PartitionPlan, PlannedPartition, QUARANTINE_MBR_TYPE,
};

verus! {

/// Size of the MBR sector.
pub const MBR_SIZE: usize = 512;

/// Offset of the first partition table entry.
pub const PARTITION_TABLE_OFFSET: usize = 446;

/// Size of each entry.
pub const PARTITION_ENTRY_SIZE: usize = 16;

/// Number of primary entries.
pub const MAX_PRIMARY_PARTITIONS: usize = 4;

/// Offset of the disk signature.
pub const DISK_SIGNATURE_OFFSET: usize = 440;

/// Largest sector count an MBR entry can address (32-bit field).
pub const MAX_ADDRESSABLE_SECTORS: u64 = 0xFFFF_FFFF;

/// Conventional CHS geometry used by practically all firmware.
pub const HEADS_PER_CYLINDER: u64 = 255;

/// Sectors per track of the conventional CHS geometry.
pub const SECTORS_PER_TRACK: u64 = 63;

/// Errors raised while building or parsing an MBR.
#[derive(Debug, Clone, Copy, PartialEq, Eq, Structural)]
pub enum MbrError {
    /// More partitions than the table can hold.
    TooManyPartitions(usize),
    /// A partition exceeds the 32-bit addressing limit.
    ExceedsAddressableRange {
        /// First LBA.
        start: u64,
        /// Last LBA, exclusive.
        end: u64,
    },
    /// The buffer is not 512 bytes.
    WrongSectorSize(usize),
    /// The 0x55AA boot signature is missing.
    MissingBootSignature {
        /// The value read.
        found: u16,
    },
    /// An empty partition reached the table.
    EmptyPartition(usize),
}

/// One partition table entry.
#[derive(Debug, Clone, Copy, PartialEq, Eq, Structural)]
pub struct PartitionEntry {
    /// `0x80` marks the partition as active.
    pub bootable: bool,
    /// Type byte.
    pub partition_type: u8,
    /// First LBA.
    pub start_lba: u32,
    /// Sector count.
    pub sector_count: u32,
}

/// The null entry, representing a free slot.
pub open spec fn empty_entry() -> PartitionEntry {
    PartitionEntry { bootable: false, partition_type: 0, start_lba: 0, sector_count: 0 }
}

/// The interval an entry covers.
pub open spec fn entry_range(e: PartitionEntry) -> LbaRange {
    LbaRange::spec_bounds(e.start_lba as u64, (e.start_lba + e.sector_count) as u64)
}

impl PartitionEntry {
    /// A null entry, representing a free slot.
    pub fn empty() -> (r: PartitionEntry)
        ensures
            r == empty_entry(),
    {
        PartitionEntry { bootable: false, partition_type: 0x00, start_lba: 0, sector_count: 0 }
    }

    pub open spec fn spec_is_empty(&self) -> bool {
        self.partition_type == 0 || self.sector_count == 0
    }

    /// True when the slot is free: no type, or no sectors.
    #[verifier::when_used_as_spec(spec_is_empty)]
    pub fn is_empty(&self) -> (r: bool)
        ensures
            r == self.spec_is_empty(),
    {
        self.partition_type == 0x00 || self.sector_count == 0
    }

    /// LBA interval covered.
    pub fn range(&self) -> (r: LbaRange)
        ensures
            r == entry_range(*self),
            r.start() == self.start_lba,
            r.end() == self.start_lba + self.sector_count,
    {
        let r = LbaRange::new(self.start_lba as u64, self.sector_count as u64);
        proof {
            let s = self.start_lba as u64;
            let e = (self.start_lba + self.sector_count) as u64;
            LbaRange::lemma_spec_bounds(s, e);
            LbaRange::lemma_ext(r, entry_range(*self));
        }
        r
    }
}

/// The three CHS bytes for `lba` under the conventional 255-head, 63-sector
/// geometry: head, then sector (1-based) with the cylinder's two high bits on
/// top, then the cylinder's low byte. Addresses whose cylinder does not fit in
/// ten bits get the saturation value `FE FF FF`, which firmware reads as "use
/// the LBA fields".
pub open spec fn chs(lba: u64) -> Seq<u8> {
    let cylinder = lba as int / (HEADS_PER_CYLINDER as int * SECTORS_PER_TRACK as int);
    if cylinder > 1023 {
        seq![0xFEu8, 0xFFu8, 0xFFu8]
    } else {
        let head = (lba as int / SECTORS_PER_TRACK as int) % HEADS_PER_CYLINDER as int;
        let sector = lba as int % SECTORS_PER_TRACK as int + 1;
        seq![head as u8, (sector + (cylinder / 256) * 64) as u8, (cylinder % 256) as u8]
    }
}

/// Converts an LBA into the MBR's three CHS bytes.
pub fn encode_chs(lba: u64) -> (r: [u8; 3])
    ensures
        r@ == chs(lba),
{
    let cylinder = lba / (HEADS_PER_CYLINDER * SECTORS_PER_TRACK);
    if cylinder > 1023 {
        let r = [0xFE, 0xFF, 0xFF];
        assert(r@ =~= chs(lba));
        return r;
    }
    let head = (lba / SECTORS_PER_TRACK) % HEADS_PER_CYLINDER;
    let sector = (lba % SECTORS_PER_TRACK) + 1;
    let b0 = head as u8;
    let b1 = ((sector as u8) & 0x3F) | (((cylinder >> 2) as u8) & 0xC0);
    let b2 = (cylinder & 0xFF) as u8;
    assert(b1 == (sector + (cylinder / 256) * 64) as u8 && b2 == (cylinder % 256) as u8) by (bit_vector)
        requires
            1 <= sector <= 63,
            cylinder <= 1023,
            b1 == ((sector as u8) & 0x3F) | (((cylinder >> 2) as u8) & 0xC0),
            b2 == (cylinder & 0xFF) as u8,
    ;
    let r = [b0, b1, b2];
    assert(r@ =~= chs(lba));
    r
}

/// The sixteen bytes of an entry. A free slot is sixteen zeros: a residual
/// CHS value in an empty slot reads to some tools as a half-corrupt entry.
#[verifier::opaque]
pub open spec fn entry_bytes(e: PartitionEntry) -> Seq<u8> {
    if e.spec_is_empty() {
        zeros(16)
    } else {
        seq![if e.bootable { 0x80u8 } else { 0u8 }] + chs(e.start_lba as u64) + seq![e.partition_type] + chs(
            sat_sub((e.start_lba + e.sector_count) as u64, 1),
        ) + le32(e.start_lba as int) + le32(e.sector_count as int)
    }
}

/// Every entry takes sixteen bytes.
pub proof fn lemma_entry_len(e: PartitionEntry)
    ensures
        entry_bytes(e).len() == 16,
{
    reveal(entry_bytes);
}

/// The entry read from the sixteen bytes at `at`.
pub open spec fn entry_at(b: Seq<u8>, at: int) -> PartitionEntry {
    PartitionEntry {
        bootable: b[at] == 0x80,
        partition_type: b[at + 4],
        start_lba: read_le32(b, at + 8) as u32,
        sector_count: read_le32(b, at + 12) as u32,
    }
}

/// Appends the sixteen bytes of `e`.
fn push_entry(out: &mut Vec<u8>, e: PartitionEntry)
    ensures
        final(out)@ == old(out)@ + entry_bytes(e),
{
    reveal(entry_bytes);
    if e.is_empty() {
        push_zeros(out, 16);
        return;
    }
    let first: [u8; 1] = [if e.bootable { 0x80 } else { 0x00 }];
    push_bytes(out, &first);
    let ghost f = if e.bootable { 0x80u8 } else { 0u8 };
    assert(first@ =~= seq![f]);
    let start = encode_chs(e.start_lba as u64);
    push_bytes(out, &start);
    let kind: [u8; 1] = [e.partition_type];
    push_bytes(out, &kind);
    assert(kind@ =~= seq![e.partition_type]);
    let sum = e.start_lba as u64 + e.sector_count as u64;
    let last = if sum >= 1 {
        sum - 1
    } else {
        0
    };
    let end = encode_chs(last);
    push_bytes(out, &end);
    push_le32(out, e.start_lba);
    push_le32(out, e.sector_count);
}

/// Reads the entry at `at`.
fn read_entry(src: &[u8], at: usize) -> (r: PartitionEntry)
    requires
        at + 16 <= src@.len(),
    ensures
        r == entry_at(src@, at as int),
{
    PartitionEntry {
        bootable: src[at] == 0x80,
        partition_type: src[at + 4],
        start_lba: crate::bytes::get_le32(src, at + 8),
        sector_count: crate::bytes::get_le32(src, at + 12),
    }
}

/// A complete Master Boot Record.
#[derive(Debug, Clone, Copy, PartialEq, Eq)]
pub struct MasterBootRecord {
    /// 32-bit disk signature, used by Windows to identify the media.
    pub disk_signature: u32,
    /// The four primary entries.
    pub partitions: [PartitionEntry; 4],
}

/// The 512 bytes of an MBR: a blank bootstrap area, the disk signature, two
/// reserved bytes, the four entries and the boot signature.
pub open spec fn mbr_bytes(m: MasterBootRecord) -> Seq<u8> {
    zeros(440) + le32(m.disk_signature as int) + zeros(2) + entry_bytes(m.partitions@[0]) + entry_bytes(
        m.partitions@[1],
    ) + entry_bytes(m.partitions@[2]) + entry_bytes(m.partitions@[3]) + seq![0x55u8, 0xAAu8]
}

/// The record a 512-byte sector holds.
pub open spec fn mbr_at(b: Seq<u8>) -> MasterBootRecord {
    MasterBootRecord {
        disk_signature: read_le32(b, 440) as u32,
        partitions: [entry_at(b, 446), entry_at(b, 462), entry_at(b, 478), entry_at(b, 494)],
    }
}

/// The entry the table holds for a planned partition: never bootable.
pub open spec fn entry_for(p: PlannedPartition) -> PartitionEntry {
    PartitionEntry {
        bootable: false,
        partition_type: p.mbr_type,
        start_lba: p.range.start() as u32,
        sector_count: p.range.len() as u32,
    }
}

/// `p` cannot be entered in the table: it is empty or it reaches past what
/// 32 bits address.
pub open spec fn unentrable(p: PlannedPartition) -> bool {
    p.range.spec_is_empty() || p.range.end() > MAX_ADDRESSABLE_SECTORS
}

impl MasterBootRecord {
    /// An MBR with no partitions.
    pub fn empty(disk_signature: u32) -> (r: Self)
        ensures
            r.disk_signature == disk_signature,
            forall|i: int| 0 <= i < 4 ==> #[trigger] r.partitions@[i] == empty_entry(),
    {
        let e = PartitionEntry::empty();
        let r = Self { disk_signature, partitions: [e, e, e, e] };
        assert(r.partitions@[0] == e && r.partitions@[1] == e && r.partitions@[2] == e && r.partitions@[3] == e);
        r
    }

    /// Builds an MBR from a partition plan. No partition is marked bootable:
    /// the card has no business competing for the machine's boot order.
    pub fn from_plan(plan: &PartitionPlan, disk_signature: u32) -> (r: Result<Self, MbrError>)
        ensures
            ({
                let parts = plan.partitions@;
                &&& parts.len() > 4 ==> r == Err::<Self, MbrError>(MbrError::TooManyPartitions(parts.len() as usize))
                &&& parts.len() <= 4 ==> ({
                    &&& (forall|k: int| 0 <= k < parts.len() ==> !#[trigger] unentrable(parts[k])) ==> r is Ok && ({
                        let m = r->Ok_0;
                        &&& m.disk_signature == disk_signature
                        &&& forall|k: int| 0 <= k < parts.len() ==> #[trigger] m.partitions@[k] == entry_for(parts[k])
                        &&& forall|k: int| parts.len() <= k < 4 ==> #[trigger] m.partitions@[k] == empty_entry()
                    })
                    &&& (exists|k: int| 0 <= k < parts.len() && #[trigger] unentrable(parts[k])) ==> exists|k: int|
                        0 <= k < parts.len() && #[trigger] unentrable(parts[k]) && (forall|k2: int|
                            0 <= k2 < k ==> !#[trigger] unentrable(parts[k2])) && r == Err::<Self, MbrError>(
                            if parts[k].range.spec_is_empty() {
                                MbrError::EmptyPartition(k as usize)
                            } else {
                                MbrError::ExceedsAddressableRange {
                                    start: parts[k].range.start(),
                                    end: parts[k].range.end(),
                                }
                            },
                        )
                })
            }),
    {
        let n = plan.partitions.len();
        if n > MAX_PRIMARY_PARTITIONS {
            return Err(MbrError::TooManyPartitions(n));
        }
        let mut mbr = Self::empty(disk_signature);
        let mut i: usize = 0;
        while i < n
            invariant
                n == plan.partitions@.len(),
                n <= 4,
                i <= n,
                mbr.disk_signature == disk_signature,
                forall|k: int| 0 <= k < i ==> !#[trigger] unentrable(plan.partitions@[k]),
                forall|k: int| 0 <= k < i ==> #[trigger] mbr.partitions@[k] == entry_for(plan.partitions@[k]),
                forall|k: int| i <= k < 4 ==> #[trigger] mbr.partitions@[k] == empty_entry(),
            decreases n - i,
        {
            let p = &plan.partitions[i];
            if p.range.is_empty() {
                proof {
                    assert(unentrable(plan.partitions@[i as int]));
                }
                return Err(MbrError::EmptyPartition(i));
            }
            if p.range.end() > MAX_ADDRESSABLE_SECTORS {
                proof {
                    assert(unentrable(plan.partitions@[i as int]));
                }
                return Err(MbrError::ExceedsAddressableRange { start: p.range.start(), end: p.range.end() });
            }
            mbr.partitions[i] = PartitionEntry {
                bootable: false,
                partition_type: p.mbr_type,
                start_lba: p.range.start() as u32,
                sector_count: p.range.len() as u32,
            };
            i = i + 1;
        }
        Ok(mbr)
    }

    /// Serializes the 512-byte sector. The bootstrap area is left zeroed: the
    /// card boots nothing.
    #[verifier::spinoff_prover]
    pub fn to_bytes(&self) -> (r: [u8; 512])
        ensures
            r@ == mbr_bytes(*self),
    {
        let mut v: Vec<u8> = Vec::new();
        push_zeros(&mut v, DISK_SIGNATURE_OFFSET);
        push_le32(&mut v, self.disk_signature);
        push_zeros(&mut v, 2);
        push_entry(&mut v, self.partitions[0]);
        push_entry(&mut v, self.partitions[1]);
        push_entry(&mut v, self.partitions[2]);
        push_entry(&mut v, self.partitions[3]);
        let sig: [u8; 2] = [0x55, 0xAA];
        push_bytes(&mut v, &sig);
        assert(sig@ =~= seq![0x55u8, 0xAAu8]);
        proof {
            lemma_entry_len(self.partitions@[0]);
            lemma_entry_len(self.partitions@[1]);
            lemma_entry_len(self.partitions@[2]);
            lemma_entry_len(self.partitions@[3]);
        }
        let mut out = [0u8; 512];
        copy_into(&mut out, &v);
        out
    }

    /// Parses an MBR from a raw sector.
    pub fn from_bytes(sector: &[u8]) -> (r: Result<Self, MbrError>)
        ensures
            sector@.len() != 512 ==> r == Err::<Self, MbrError>(MbrError::WrongSectorSize(sector@.len() as usize)),
            sector@.len() == 512 && sector@[510] + 256 * sector@[511] != 0xAA55 ==> r == Err::<Self, MbrError>(
                MbrError::MissingBootSignature { found: (sector@[510] + 256 * sector@[511]) as u16 },
            ),
            sector@.len() == 512 && sector@[510] + 256 * sector@[511] == 0xAA55 ==> r == Ok::<Self, MbrError>(
                mbr_at(sector@),
            ),
    {
        if sector.len() != MBR_SIZE {
            return Err(MbrError::WrongSectorSize(sector.len()));
        }
        let sig = sector[510] as u16 + 256 * (sector[511] as u16);
        if sig != 0xAA55 {
            return Err(MbrError::MissingBootSignature { found: sig });
        }
        let disk_signature = crate::bytes::get_le32(sector, DISK_SIGNATURE_OFFSET);
        let partitions = [
            read_entry(sector, 446),
            read_entry(sector, 462),
            read_entry(sector, 478),
            read_entry(sector, 494),
        ];
        let r = Self { disk_signature, partitions };
        assert(r.partitions =~= mbr_at(sector@).partitions);
        Ok(r)
    }

    /// Entries actually in use, with their slot index.
    pub fn used_partitions(&self) -> (r: Vec<(usize, PartitionEntry)>)
        ensures
            r@ == used_of(self.partitions@, 4),
    {
        let mut out: Vec<(usize, PartitionEntry)> = Vec::new();
        let mut i: usize = 0;
        while i < 4
            invariant
                i <= 4,
                out@ == used_of(self.partitions@, i as nat),
            decreases 4 - i,
        {
            let p = self.partitions[i];
            if !p.is_empty() {
                out.push((i, p));
            }
            i = i + 1;
        }
        out
    }
}

/// The used entries among the first `n` slots, with their slot index.
pub open spec fn used_of(parts: Seq<PartitionEntry>, n: nat) -> Seq<(usize, PartitionEntry)>
    decreases n,
{
    if n == 0 {
        Seq::empty()
    } else if parts[n - 1].spec_is_empty() {
        used_of(parts, (n - 1) as nat)
    } else {
        used_of(parts, (n - 1) as nat).push(((n - 1) as usize, parts[n - 1]))
    }
}

/// The slot as the table keeps it: any free slot reads back as the null entry.
pub open spec fn normalized(e: PartitionEntry) -> PartitionEntry {
    if e.spec_is_empty() {
        empty_entry()
    } else {
        e
    }
}

/// Sixteen bytes that hold an entry's encoding read back as that entry, a
/// free slot as the null entry.
proof fn lemma_entry_read_back(b: Seq<u8>, at: int, e: PartitionEntry)
    requires
        0 <= at,
        at + 16 <= b.len(),
        forall|j: int| 0 <= j < 16 ==> b[at + j] == #[trigger] entry_bytes(e)[j],
    ensures
        entry_at(b, at) == normalized(e),
{
    reveal(entry_bytes);
    let eb = entry_bytes(e);
    assert(b[at] == eb[0]);
    assert(b[at + 4] == eb[4]);
    assert(b[at + 8] == eb[8] && b[at + 9] == eb[9] && b[at + 10] == eb[10] && b[at + 11] == eb[11]);
    assert(b[at + 12] == eb[12] && b[at + 13] == eb[13] && b[at + 14] == eb[14] && b[at + 15] == eb[15]);
    if !e.spec_is_empty() {
        crate::bytes::lemma_le32_round_trip(e.start_lba);
        crate::bytes::lemma_le32_round_trip(e.sector_count);
        assert(chs(e.start_lba as u64).len() == 3);
        assert(chs(sat_sub((e.start_lba + e.sector_count) as u64, 1)).len() == 3);
        let l1 = le32(e.start_lba as int);
        let l2 = le32(e.sector_count as int);
        assert(eb[8] == l1[0] && eb[9] == l1[1] && eb[10] == l1[2] && eb[11] == l1[3]);
        assert(eb[12] == l2[0] && eb[13] == l2[1] && eb[14] == l2[2] && eb[15] == l2[3]);
        assert(read_le32(b, at + 8) == read_le32(l1, 0));
        assert(read_le32(b, at + 12) == read_le32(l2, 0));
    }
}

/// Parsing a serialized record gives it back: the sector carries the boot
/// signature, the disk signature survives, and every slot reads back as it
/// was written, a free slot as the null entry.
pub proof fn lemma_record_round_trip(m: MasterBootRecord)
    ensures
        mbr_bytes(m).len() == 512,
        read_le16(mbr_bytes(m), 510) == 0xAA55,
        mbr_at(mbr_bytes(m)).disk_signature == m.disk_signature,
        forall|i: int| 0 <= i < 4 ==> #[trigger] mbr_at(mbr_bytes(m)).partitions@[i] == normalized(m.partitions@[i]),
{
    let b = mbr_bytes(m);
    lemma_entry_len(m.partitions@[0]);
    lemma_entry_len(m.partitions@[1]);
    lemma_entry_len(m.partitions@[2]);
    lemma_entry_len(m.partitions@[3]);
    crate::bytes::lemma_le32_round_trip(m.disk_signature);
    let head = zeros(440) + le32(m.disk_signature as int) + zeros(2);
    assert(head.len() == 446);
    assert(b.len() == 512);
    assert(b[510] == 0x55u8 && b[511] == 0xAAu8);
    let l = le32(m.disk_signature as int);
    assert(b[440] == l[0] && b[441] == l[1] && b[442] == l[2] && b[443] == l[3]);
    assert(read_le32(b, 440) == read_le32(l, 0));
    assert forall|j: int| 0 <= j < 16 implies b[446 + j] == #[trigger] entry_bytes(m.partitions@[0])[j] by {}
    assert forall|j: int| 0 <= j < 16 implies b[462 + j] == #[trigger] entry_bytes(m.partitions@[1])[j] by {}
    assert forall|j: int| 0 <= j < 16 implies b[478 + j] == #[trigger] entry_bytes(m.partitions@[2])[j] by {}
    assert forall|j: int| 0 <= j < 16 implies b[494 + j] == #[trigger] entry_bytes(m.partitions@[3])[j] by {}
    lemma_entry_read_back(b, 446, m.partitions@[0]);
    lemma_entry_read_back(b, 462, m.partitions@[1]);
    lemma_entry_read_back(b, 478, m.partitions@[2]);
    lemma_entry_read_back(b, 494, m.partitions@[3]);
    let r = mbr_at(b);
    assert(r.partitions@[0] == entry_at(b, 446));
    assert(r.partitions@[1] == entry_at(b, 462));
    assert(r.partitions@[2] == entry_at(b, 478));
    assert(r.partitions@[3] == entry_at(b, 494));
}

/// The ranges of the used entries among the first `n` slots, in slot order:
/// those of quarantine type when `quarantine` holds, the others otherwise.
pub open spec fn ranges_of(parts: Seq<PartitionEntry>, n: nat, quarantine: bool) -> Seq<LbaRange>
    decreases n,
{
    if n == 0 {
        Seq::empty()
    } else {
        let e = parts[n - 1];
        let prev = ranges_of(parts, (n - 1) as nat, quarantine);
        if !e.spec_is_empty() && (e.partition_type == QUARANTINE_MBR_TYPE) == quarantine {
            prev.push(entry_range(e))
        } else {
            prev
        }
    }
}

/// What an earlier run of this program left recorded on the card.
///
/// The partition table is the only thing that survives unplugging the card. A
/// quarantine entry is the signature: finding one beside a data partition
/// means an earlier inspection already condemned what it covers.
#[derive(Debug, Clone, PartialEq, Eq)]
pub struct PriorLayout {
    /// Intervals an earlier layout withheld from data, in address order.
    pub quarantined: Vec<LbaRange>,
    /// Intervals it left available for data, in address order.
    pub data: Vec<LbaRange>,
}

impl PriorLayout {
    /// Reads the layout back out of a partition table: `None` when the table
    /// carries no quarantine, or no data partition beside it, since either way
    /// it is not a layout this program produced.
    pub fn read(mbr: &MasterBootRecord) -> (r: Option<Self>)
        ensures
            ({
                let q = ranges_of(mbr.partitions@, 4, true);
                let d = ranges_of(mbr.partitions@, 4, false);
                &&& r is None <==> (q.len() == 0 || d.len() == 0)
                &&& r is Some ==> in_address_order(r->Some_0.quarantined@, q) && in_address_order(
                    r->Some_0.data@,
                    d,
                )
            }),
    {
        let mut quarantined: Vec<LbaRange> = Vec::new();
        let mut data: Vec<LbaRange> = Vec::new();
        let mut i: usize = 0;
        while i < 4
            invariant
                i <= 4,
                in_address_order(quarantined@, ranges_of(mbr.partitions@, i as nat, true)),
                in_address_order(data@, ranges_of(mbr.partitions@, i as nat, false)),
            decreases 4 - i,
        {
            let p = mbr.partitions[i];
            if !p.is_empty() {
                let range = p.range();
                if p.partition_type == QUARANTINE_MBR_TYPE {
                    insert_in_order(&mut quarantined, range, Ghost(ranges_of(mbr.partitions@, i as nat, true)));
                } else {
                    insert_in_order(&mut data, range, Ghost(ranges_of(mbr.partitions@, i as nat, false)));
                }
            }
            i = i + 1;
        }
        if quarantined.len() == 0 || data.len() == 0 {
            return None;
        }
        Some(Self { quarantined, data })
    }

    /// Smallest interval covering every data partition: from the lowest start
    /// to the highest end. One interval, because that is what an inspection
    /// covers; it may span quarantine lying between data partitions.
    pub fn data_span(&self) -> (r: Option<LbaRange>)
        ensures
            r is None <==> self.data@.len() == 0,
            r is Some ==> ({
                let s = r->Some_0;
                let d = self.data@;
                &&& forall|i: int| 0 <= i < d.len() ==> s.start() <= (#[trigger] d[i]).start() && d[i].end() <= s.end()
                &&& exists|i: int| 0 <= i < d.len() && s.start() == (#[trigger] d[i]).start()
                &&& exists|i: int| 0 <= i < d.len() && s.end() == (#[trigger] d[i]).end()
            }),
    {
        let n = self.data.len();
        if n == 0 {
            return None;
        }
        let mut acc = self.data[0];
        let mut i: usize = 1;
        while i < n
            invariant
                n == self.data@.len(),
                1 <= i <= n,
                forall|k: int| 0 <= k < i ==> acc.start() <= (#[trigger] self.data@[k]).start() && self.data@[k].end() <= acc.end(),
                exists|k: int| 0 <= k < i && acc.start() == (#[trigger] self.data@[k]).start(),
                exists|k: int| 0 <= k < i && acc.end() == (#[trigger] self.data@[k]).end(),
            decreases n - i,
        {
            let next = self.data[i];
            let ghost prev = acc;
            acc = acc.hull(&next);
            proof {
                if prev.start() <= next.start() {
                    let k = choose|k: int| 0 <= k < i && prev.start() == (#[trigger] self.data@[k]).start();
                    assert(acc.start() == self.data@[k].start());
                } else {
                    assert(acc.start() == self.data@[i as int].start());
                }
                if prev.end() >= next.end() {
                    let k = choose|k: int| 0 <= k < i && prev.end() == (#[trigger] self.data@[k]).end();
                    assert(acc.end() == self.data@[k].end());
                } else {
                    assert(acc.end() == self.data@[i as int].end());
                }
            }
            i = i + 1;
        }
        Some(acc)
    }
}

/// One partition table change: an entry added or removed.
#[derive(Debug, Clone, Copy, PartialEq, Eq, Structural)]
pub struct TableChange {
    /// Whether the entry is being added or removed.
    pub added: bool,
    /// One-based slot index in the partition table.
    pub slot: usize,
    /// Partition type byte.
    pub partition_type: u8,
    /// First LBA.
    pub start_lba: u64,
    /// Sector count.
    pub sectors: u64,
}

/// The change line for a used slot.
pub open spec fn change_for(added: bool, x: (usize, PartitionEntry)) -> TableChange {
    TableChange {
        added,
        slot: (x.0 + 1) as usize,
        partition_type: x.1.partition_type,
        start_lba: x.1.start_lba as u64,
        sectors: x.1.sector_count as u64,
    }
}

/// One change line per used slot, in slot order.
pub open spec fn changes_of(used: Seq<(usize, PartitionEntry)>, added: bool) -> Seq<TableChange> {
    Seq::new(used.len(), |k: int| change_for(added, used[k]))
}

/// Appends the change lines for the used slots of `m`.
fn push_changes(out: &mut Vec<TableChange>, m: &MasterBootRecord, added: bool)
    ensures
        final(out)@ == old(out)@ + changes_of(used_of(m.partitions@, 4), added),
{
    let used = m.used_partitions();
    let ghost start = out@;
    let mut k: usize = 0;
    while k < used.len()
        invariant
            k <= used@.len(),
            used@ == used_of(m.partitions@, 4),
            out@ == start + changes_of(used@.subrange(0, k as int), added),
        decreases used@.len() - k,
    {
        let (i, p) = used[k];
        proof {
            lemma_used_slots_small(m.partitions@, 4);
        }
        out.push(
            TableChange {
                added,
                slot: i + 1,
                partition_type: p.partition_type,
                start_lba: p.start_lba as u64,
                sectors: p.sector_count as u64,
            },
        );
        proof {
            assert(changes_of(used@.subrange(0, k + 1), added) =~= changes_of(used@.subrange(0, k as int), added).push(
                change_for(added, used@[k as int]),
            ));
        }
        k = k + 1;
    }
    assert(used@.subrange(0, used@.len() as int) =~= used@);
}

/// The slot indices of the used entries among the first `n` slots are below `n`.
proof fn lemma_used_slots_small(parts: Seq<PartitionEntry>, n: nat)
    ensures
        forall|k: int| 0 <= k < used_of(parts, n).len() ==> (#[trigger] used_of(parts, n)[k]).0 < n,
    decreases n,
{
    if n > 0 {
        lemma_used_slots_small(parts, (n - 1) as nat);
        let prev = used_of(parts, (n - 1) as nat);
        let cur = used_of(parts, n);
        assert forall|k: int| 0 <= k < cur.len() implies (#[trigger] cur[k]).0 < n by {
            if k < prev.len() {
                assert(cur[k] == prev[k]);
            }
        }
    }
}

/// Describes the difference between the current table and the proposed one:
/// first every used entry of `before` as removed, then every used entry of
/// `after` as added. The preview shown before any write.
pub fn describe_change(before: Option<&MasterBootRecord>, after: &MasterBootRecord) -> (r: Vec<TableChange>)
    ensures
        r@ == (match before {
            Some(b) => changes_of(used_of(b.partitions@, 4), false),
            None => Seq::empty(),
        }) + changes_of(used_of(after.partitions@, 4), true),
{
    let mut out: Vec<TableChange> = Vec::new();
    if let Some(b) = before {
        push_changes(&mut out, b, false);
    }
    let ghost mid = out@;
    push_changes(&mut out, after, true);
    out
}

} // verus!
