//! FAT32 image generation with defective clusters marked in the table itself.
//!
//! A partition is an interval, so fencing defects behind partition boundaries
//! can only hand back one contiguous run. A filesystem has no such limit: FAT32
//! reserves the entry value [`BAD_CLUSTER`] for clusters no driver may ever
//! allocate. Building the table here lets one volume span the usable area while
//! every cluster touching a sector the scan did not prove good is withheld.
//!
//! The module is pure: it computes a layout and renders individual sectors on
//! demand. Writing them is the caller's business.
use vstd::prelude::*;
use vstd::string::StringExecFns;
use vstd::std_specs::iter::IteratorSpec;

use crate::bytes::{copy_into, le16, le32, push_bytes, push_le16, push_le32, push_zeros, zeros};
use crate::geometry::{valid_sector_size, LbaRange};
use crate::text::{append_decimal, decimal_chars};
use crate::sector_map::{
    contiguous, lemma_contiguous_at, lemma_runs_ordered, lemma_state_in_run, state_in, tiles, Run,
    SectorMap, SectorState,
};

verus! {

/// FAT entry marking a cluster as defective. Never allocated by any driver.
pub const BAD_CLUSTER: u32 = 0x0FFF_FFF7;

/// FAT entry marking the last cluster of a chain.
pub const END_OF_CHAIN: u32 = 0x0FFF_FFFF;

/// Only the low 28 bits of a FAT32 entry carry the cluster number.
pub const ENTRY_MASK: u32 = 0x0FFF_FFFF;

/// The first cluster number that addresses data. Entries 0 and 1 are reserved.
pub const FIRST_DATA_CLUSTER: u32 = 2;

/// Below this cluster count a volume reads as FAT16: the type is derived from
/// the cluster count, not from a field.
pub const MIN_FAT32_CLUSTERS: u32 = 65525;

/// Reserved sectors before the first FAT; room for the backup boot sector.
pub const RESERVED_SECTORS: u32 = 32;

/// Two copies of the table.
pub const NUM_FATS: u32 = 2;

/// Sector holding the FSInfo structure.
pub const FSINFO_SECTOR: u32 = 1;

/// Sector holding the backup copy of the boot sector.
pub const BACKUP_BOOT_SECTOR: u32 = 6;

/// Reasons a FAT32 volume cannot be produced for a given area.
#[derive(Debug, Clone, PartialEq, Eq, Structural)]
pub enum Fat32Error {
    /// The area is too small to hold a valid FAT32 volume.
    TooSmall {
        /// Clusters the area would yield.
        clusters: u32,
        /// Minimum the format demands.
        minimum: u32,
    },
    /// The area exceeds what a 32-bit sector count can address.
    TooLarge {
        /// Sectors requested.
        sectors: u64,
        /// Largest addressable.
        limit: u64,
    },
    /// A defect falls inside the metadata, which no cluster marking can hide.
    DefectiveMetadata {
        /// Absolute LBA of the offending sector.
        bad_lba: u64,
        /// How many sectors at the start of the area are metadata.
        metadata_sectors: u64,
    },
    /// Sector size the format does not admit.
    UnsupportedSectorSize(u32),
}

/// The description of each reason a volume cannot be produced.
pub open spec fn fat32_error_text(e: Fat32Error) -> Seq<char> {
    match e {
        Fat32Error::TooSmall { clusters, minimum } => "area holds "@ + decimal_chars(clusters as nat)
            + " clusters, and FAT32 requires at least "@ + decimal_chars(minimum as nat),
        Fat32Error::TooLarge { sectors, limit } => "area spans "@ + decimal_chars(sectors as nat)
            + " sectors, beyond the "@ + decimal_chars(limit as nat) + " a FAT32 volume can address"@,
        Fat32Error::DefectiveMetadata { bad_lba, metadata_sectors } => "the area's first "@ + decimal_chars(
            metadata_sectors as nat,
        ) + " sectors hold filesystem metadata, and sector "@ + decimal_chars(bad_lba as nat)
            + " within them is defective"@,
        Fat32Error::UnsupportedSectorSize(size) => "sector size "@ + decimal_chars(size as nat)
            + " is not supported by FAT32"@,
    }
}

impl Fat32Error {
    /// A sentence describing why the volume cannot be produced.
    pub fn message(&self) -> (r: String)
        ensures
            r@ == fat32_error_text(*self),
    {
        match self {
            Fat32Error::TooSmall { clusters, minimum } => {
                let mut s = String::from_str("area holds ");
                append_decimal(&mut s, *clusters as u64);
                s.append(" clusters, and FAT32 requires at least ");
                append_decimal(&mut s, *minimum as u64);
                s
            },
            Fat32Error::TooLarge { sectors, limit } => {
                let mut s = String::from_str("area spans ");
                append_decimal(&mut s, *sectors);
                s.append(" sectors, beyond the ");
                append_decimal(&mut s, *limit);
                s.append(" a FAT32 volume can address");
                s
            },
            Fat32Error::DefectiveMetadata { bad_lba, metadata_sectors } => {
                let mut s = String::from_str("the area's first ");
                append_decimal(&mut s, *metadata_sectors);
                s.append(" sectors hold filesystem metadata, and sector ");
                append_decimal(&mut s, *bad_lba);
                s.append(" within them is defective");
                s
            },
            Fat32Error::UnsupportedSectorSize(size) => {
                let mut s = String::from_str("sector size ");
                append_decimal(&mut s, *size as u64);
                s.append(" is not supported by FAT32");
                s
            },
        }
    }
}

// ---------------------------------------------------------------------------
// Sizing.
// ---------------------------------------------------------------------------

/// Cluster size in bytes for a volume of `bytes`, after the table Windows uses.
pub open spec fn cluster_bytes_for(bytes: int) -> int {
    if bytes <= 8 * 1073741824 {
        4096
    } else if bytes <= 16 * 1073741824 {
        8192
    } else if bytes <= 32 * 1073741824 {
        16384
    } else {
        32768
    }
}

/// Sectors per cluster for a volume of `total_sectors` sectors.
pub open spec fn spec_cluster_size(total_sectors: int, bytes_per_sector: int) -> int {
    let per = cluster_bytes_for(total_sectors * bytes_per_sector) / bytes_per_sector;
    if per >= 1 {
        per
    } else {
        1
    }
}

/// `a * b`, saturating at `u32::MAX`.
pub open spec fn sat_mul32(a: int, b: int) -> int {
    if a * b > u32::MAX {
        u32::MAX as int
    } else {
        a * b
    }
}

/// Clusters left in the data region once `fat` sectors per table are taken
/// out of `usable`.
pub open spec fn data_clusters(usable: int, fat: int, spc: int) -> int {
    let fats = sat_mul32(fat, NUM_FATS as int);
    let data = if usable > fats {
        usable - fats
    } else {
        0
    };
    data / spc
}

/// `n / d` rounded up.
pub open spec fn ceil_div(n: int, d: int) -> int {
    n / d + if n % d == 0 {
        0int
    } else {
        1int
    }
}

/// Table sectors needed to describe `clusters` data clusters plus the two
/// reserved entries, with `eps` entries per sector.
pub open spec fn fat_needed(clusters: int, eps: int) -> int {
    let entries = if clusters + 2 > u32::MAX {
        u32::MAX as int
    } else {
        clusters + 2
    };
    let n = ceil_div(entries, eps);
    if n > u32::MAX {
        u32::MAX as int
    } else {
        n
    }
}

/// The table size reached by growing `fat` until it describes every cluster
/// of the data region that remains.
pub open spec fn settle_fat(usable: int, spc: int, eps: int, fat: int) -> int
    decreases u32::MAX - fat,
{
    let needed = fat_needed(data_clusters(usable, fat, spc), eps);
    if needed <= fat || fat > u32::MAX {
        fat
    } else {
        settle_fat(usable, spc, eps, needed)
    }
}

/// The settled table size describes every cluster it leaves room for.
pub proof fn lemma_settle_fixpoint(usable: int, spc: int, eps: int, fat: int)
    requires
        0 <= fat <= u32::MAX,
    ensures
        fat <= settle_fat(usable, spc, eps, fat) <= u32::MAX,
        fat_needed(data_clusters(usable, settle_fat(usable, spc, eps, fat), spc), eps) <= settle_fat(
            usable,
            spc,
            eps,
            fat,
        ),
    decreases u32::MAX - fat,
{
    let needed = fat_needed(data_clusters(usable, fat, spc), eps);
    if needed > fat {
        lemma_settle_fixpoint(usable, spc, eps, needed);
    }
}

/// `a / b` rounded up, for `b >= 1`.
fn div_ceil_u32(a: u32, b: u32) -> (r: u32)
    requires
        b >= 1,
    ensures
        r == ceil_div(a as int, b as int),
{
    proof {
        vstd::arithmetic::div_mod::lemma_fundamental_div_mod(a as int, b as int);
        let q = a / b;
        let rem = a % b;
        assert(rem != 0 ==> q < u32::MAX) by (nonlinear_arith)
            requires
                a == b * q + rem,
                0 <= rem < b,
                q >= 0,
                a <= u32::MAX,
        ;
    }
    a / b + if a % b == 0 {
        0
    } else {
        1
    }
}

/// Geometry of a FAT32 volume.
#[derive(Debug, Clone, Copy, PartialEq, Eq, Structural)]
pub struct Fat32Layout {
    bytes_per_sector: u32,
    sectors_per_cluster: u32,
    fat_sectors: u32,
    total_sectors: u32,
    cluster_count: u32,
    volume_id: u32,
}

impl Fat32Layout {
    /// A layout is a well-formed FAT32 volume: enough clusters to be FAT32, a
    /// table large enough for all of them, and a data region inside the volume.
    #[verifier::type_invariant]
    pub closed spec fn inv(self) -> bool {
        &&& valid_sector_size(self.bytes_per_sector)
        &&& 1 <= self.sectors_per_cluster <= 64
        &&& self.fat_sectors >= 1
        &&& self.cluster_count >= MIN_FAT32_CLUSTERS
        &&& self.fat_sectors as int * (self.bytes_per_sector / 4) >= self.cluster_count + 2
        &&& RESERVED_SECTORS + NUM_FATS * self.fat_sectors + self.cluster_count * self.sectors_per_cluster
            <= self.total_sectors
        &&& RESERVED_SECTORS + self.cluster_count <= self.total_sectors
    }

    pub closed spec fn spec_bytes_per_sector(&self) -> u32 {
        self.bytes_per_sector
    }

    pub closed spec fn spec_sectors_per_cluster(&self) -> u32 {
        self.sectors_per_cluster
    }

    pub closed spec fn spec_fat_sectors(&self) -> u32 {
        self.fat_sectors
    }

    pub closed spec fn spec_total_sectors(&self) -> u32 {
        self.total_sectors
    }

    pub closed spec fn spec_cluster_count(&self) -> u32 {
        self.cluster_count
    }

    pub closed spec fn spec_volume_id(&self) -> u32 {
        self.volume_id
    }

    /// First data sector, relative to the start of the volume.
    pub open spec fn spec_data_start(&self) -> int {
        RESERVED_SECTORS + NUM_FATS * self.spec_fat_sectors()
    }

    /// Sectors of metadata at the front of the volume, root directory included.
    pub open spec fn spec_metadata_sectors(&self) -> int {
        self.spec_data_start() + self.spec_sectors_per_cluster()
    }

    /// Volume-relative first sector of a cluster.
    pub open spec fn spec_cluster_start(&self, cluster: int) -> int {
        self.spec_data_start() + (cluster - FIRST_DATA_CLUSTER) * self.spec_sectors_per_cluster()
    }

    /// A FAT32 volume fits the layout: enough clusters to be FAT32 at all, a
    /// table with an entry for every cluster and the two reserved ones, and
    /// the reserved area, both tables and every cluster inside the volume.
    pub open spec fn fits(&self) -> bool {
        &&& self.spec_cluster_count() >= MIN_FAT32_CLUSTERS
        &&& self.spec_fat_sectors() as int * (self.spec_bytes_per_sector() / 4) >= self.spec_cluster_count() + 2
        &&& self.spec_cluster_start(self.spec_cluster_count() + FIRST_DATA_CLUSTER) <= self.spec_total_sectors()
    }

    /// The layout `plan` computes, or the reason it refuses.
    pub closed spec fn spec_plan(total_sectors: u64, bytes_per_sector: u32, volume_id: u32) -> Result<
        Fat32Layout,
        Fat32Error,
    > {
        if !valid_sector_size(bytes_per_sector) {
            Err(Fat32Error::UnsupportedSectorSize(bytes_per_sector))
        } else if total_sectors > u32::MAX {
            Err(Fat32Error::TooLarge { sectors: total_sectors, limit: u32::MAX as u64 })
        } else {
            let spc = spec_cluster_size(total_sectors as int, bytes_per_sector as int);
            let usable: int = if total_sectors >= RESERVED_SECTORS {
                total_sectors - RESERVED_SECTORS
            } else {
                0
            };
            let eps: int = (bytes_per_sector / 4) as int;
            let first = ceil_div(usable, eps * spc + NUM_FATS);
            let fat = settle_fat(usable, spc, eps, first);
            let clusters = data_clusters(usable, fat, spc);
            if clusters < MIN_FAT32_CLUSTERS {
                Err(Fat32Error::TooSmall { clusters: clusters as u32, minimum: MIN_FAT32_CLUSTERS })
            } else {
                Ok(
                    Fat32Layout {
                        bytes_per_sector,
                        sectors_per_cluster: spc as u32,
                        fat_sectors: fat as u32,
                        total_sectors: total_sectors as u32,
                        cluster_count: clusters as u32,
                        volume_id,
                    },
                )
            }
        }
    }

    /// The facts the invariant guarantees, stated over the accessors.
    pub proof fn lemma_valid(self)
        requires
            self.inv(),
        ensures
            valid_sector_size(self.spec_bytes_per_sector()),
            1 <= self.spec_sectors_per_cluster() <= 64,
            self.spec_fat_sectors() >= 1,
            self.spec_cluster_count() >= MIN_FAT32_CLUSTERS,
            self.spec_fat_sectors() as int * (self.spec_bytes_per_sector() / 4) >= self.spec_cluster_count()
                + 2,
            self.spec_cluster_start(self.spec_cluster_count() + FIRST_DATA_CLUSTER)
                <= self.spec_total_sectors(),
            RESERVED_SECTORS + self.spec_cluster_count() <= self.spec_total_sectors(),
    {
        assert(self.spec_cluster_start(self.spec_cluster_count() + FIRST_DATA_CLUSTER)
            == RESERVED_SECTORS + NUM_FATS * self.fat_sectors + self.cluster_count * self.sectors_per_cluster);
    }

    /// A planned volume spans exactly the sectors it was planned over.
    pub proof fn lemma_plan_spans(total_sectors: u64, bytes_per_sector: u32, volume_id: u32)
        ensures
            Self::spec_plan(total_sectors, bytes_per_sector, volume_id) is Ok ==> Self::spec_plan(
                total_sectors,
                bytes_per_sector,
                volume_id,
            )->Ok_0.spec_total_sectors() == total_sectors,
            Self::spec_plan(total_sectors, bytes_per_sector, volume_id) is Ok ==> Self::spec_plan(
                total_sectors,
                bytes_per_sector,
                volume_id,
            )->Ok_0.spec_bytes_per_sector() == bytes_per_sector,
    {
    }

    /// The metadata, root directory included, fits inside the volume.
    pub proof fn lemma_metadata_fits(self)
        requires
            self.inv(),
        ensures
            self.spec_metadata_sectors() <= self.spec_total_sectors(),
    {
        self.lemma_valid();
        let spc = self.spec_sectors_per_cluster() as int;
        let n = self.spec_cluster_count() as int;
        assert(n * spc >= spc) by (nonlinear_arith)
            requires
                n >= 1,
                spc >= 1,
        ;
    }

    /// Computes the layout for an area of `total_sectors`, sizing the table
    /// with Microsoft's formula and then growing it until it also describes
    /// the two reserved entries.
    pub fn plan(total_sectors: u64, bytes_per_sector: u32, volume_id: u32) -> (r: Result<Self, Fat32Error>)
        ensures
            r == Self::spec_plan(total_sectors, bytes_per_sector, volume_id),
            r matches Ok(l) ==> l.fits(),
            !valid_sector_size(bytes_per_sector) ==> r == Err::<Self, Fat32Error>(
                Fat32Error::UnsupportedSectorSize(bytes_per_sector),
            ),
            valid_sector_size(bytes_per_sector) && total_sectors > u32::MAX ==> r == Err::<
                Self,
                Fat32Error,
            >(Fat32Error::TooLarge { sectors: total_sectors, limit: u32::MAX as u64 }),
            valid_sector_size(bytes_per_sector) && total_sectors <= u32::MAX ==> ({
                let spc = spec_cluster_size(total_sectors as int, bytes_per_sector as int);
                let usable: int = if total_sectors >= RESERVED_SECTORS {
                    total_sectors - RESERVED_SECTORS
                } else {
                    0
                };
                let eps: int = (bytes_per_sector / 4) as int;
                let first = ceil_div(usable, eps * spc + NUM_FATS);
                let fat = settle_fat(usable, spc, eps, first);
                let clusters = data_clusters(usable, fat, spc);
                &&& clusters < MIN_FAT32_CLUSTERS ==> r == Err::<Self, Fat32Error>(
                    Fat32Error::TooSmall { clusters: clusters as u32, minimum: MIN_FAT32_CLUSTERS },
                )
                &&& clusters >= MIN_FAT32_CLUSTERS ==> r is Ok && ({
                    let l = r->Ok_0;
                    &&& l.spec_bytes_per_sector() == bytes_per_sector
                    &&& l.spec_sectors_per_cluster() == spc
                    &&& l.spec_fat_sectors() == fat
                    &&& l.spec_total_sectors() == total_sectors
                    &&& l.spec_cluster_count() == clusters
                    &&& l.spec_volume_id() == volume_id
                })
            }),
    {
        if !(bytes_per_sector == 512 || bytes_per_sector == 1024 || bytes_per_sector == 2048
            || bytes_per_sector == 4096) {
            return Err(Fat32Error::UnsupportedSectorSize(bytes_per_sector));
        }
        if total_sectors > 0xFFFF_FFFFu64 {
            return Err(Fat32Error::TooLarge { sectors: total_sectors, limit: 0xFFFF_FFFFu64 });
        }
        let total = total_sectors as u32;
        let sectors_per_cluster = Self::cluster_size(total_sectors, bytes_per_sector);
        let usable: u32 = if total >= RESERVED_SECTORS {
            total - RESERVED_SECTORS
        } else {
            0
        };
        let entries_per_sector = bytes_per_sector / 4;
        assert((bytes_per_sector / 4) * sectors_per_cluster <= 1024 * 64) by (nonlinear_arith)
            requires
                bytes_per_sector <= 4096,
                sectors_per_cluster <= 64,
        ;
        let per_fat_sector = entries_per_sector * sectors_per_cluster + NUM_FATS;
        let first = div_ceil_u32(usable, per_fat_sector);
        let mut fat_sectors = first;
        let mut cluster_count: u32 = 0;
        let ghost spc = sectors_per_cluster as int;
        let ghost eps = entries_per_sector as int;
        loop
            invariant
                entries_per_sector >= 128,
                sectors_per_cluster >= 1,
                spc == sectors_per_cluster,
                eps == entries_per_sector,
                settle_fat(usable as int, spc, eps, fat_sectors as int) == settle_fat(
                    usable as int,
                    spc,
                    eps,
                    first as int,
                ),
            ensures
                fat_sectors == settle_fat(usable as int, spc, eps, first as int),
                cluster_count == data_clusters(usable as int, fat_sectors as int, spc),
            decreases u32::MAX - fat_sectors,
        {
            let doubled: u32 = match fat_sectors.checked_mul(NUM_FATS) {
                Some(v) => v,
                None => 0xFFFF_FFFFu32,
            };
            let data_sectors: u32 = if usable > doubled {
                usable - doubled
            } else {
                0
            };
            let clusters = data_sectors / sectors_per_cluster;
            let entries: u32 = match clusters.checked_add(FIRST_DATA_CLUSTER) {
                Some(v) => v,
                None => 0xFFFF_FFFFu32,
            };
            let needed = div_ceil_u32(entries, entries_per_sector);
            proof {
                assert(data_clusters(usable as int, fat_sectors as int, spc) == clusters);
                assert(fat_needed(clusters as int, eps) == needed);
            }
            if needed <= fat_sectors {
                cluster_count = clusters;
                break;
            }
            fat_sectors = needed;
        }
        proof {
            lemma_settle_fixpoint(usable as int, spc, eps, first as int);
        }
        if cluster_count < MIN_FAT32_CLUSTERS {
            return Err(Fat32Error::TooSmall { clusters: cluster_count, minimum: MIN_FAT32_CLUSTERS });
        }
        proof {
            let fats = sat_mul32(fat_sectors as int, 2);
            assert(usable > fats);
            vstd::arithmetic::div_mod::lemma_fundamental_div_mod(
                usable - fats,
                sectors_per_cluster as int,
            );
            assert(cluster_count * sectors_per_cluster <= usable - fats) by (nonlinear_arith)
                requires
                    usable - fats == sectors_per_cluster * cluster_count + (usable - fats)
                        % sectors_per_cluster as int,
                    (usable - fats) % sectors_per_cluster as int >= 0,
            ;
            let entries = cluster_count + 2;
            vstd::arithmetic::div_mod::lemma_fundamental_div_mod(entries, eps);
            assert(fat_sectors as int * eps >= entries) by (nonlinear_arith)
                requires
                    entries == eps * (entries / eps) + entries % eps,
                    0 <= entries % eps < eps,
                    fat_sectors >= entries / eps + (if entries % eps == 0 { 0int } else { 1int }),
                    eps >= 1,
            ;
            assert(fat_sectors >= 1) by (nonlinear_arith)
                requires
                    fat_sectors as int * eps >= entries,
                    entries >= 2,
                    eps >= 1,
                    fat_sectors >= 0,
            ;
            assert(fats == 2 * fat_sectors);
            assert(RESERVED_SECTORS + NUM_FATS * fat_sectors + cluster_count * sectors_per_cluster <= total);
            assert(cluster_count <= cluster_count * sectors_per_cluster) by (nonlinear_arith)
                requires
                    sectors_per_cluster >= 1,
                    cluster_count >= 0,
            ;
            assert(1 <= sectors_per_cluster <= 64);
        }
        let l = Self {
            bytes_per_sector,
            sectors_per_cluster,
            fat_sectors,
            total_sectors: total,
            cluster_count,
            volume_id,
        };
        proof {
            use_type_invariant(&l);
            l.lemma_valid();
        }
        Ok(l)
    }

    /// Cluster size, following the table Windows itself uses.
    fn cluster_size(total_sectors: u64, bytes_per_sector: u32) -> (r: u32)
        requires
            total_sectors <= u32::MAX,
            valid_sector_size(bytes_per_sector),
        ensures
            r == spec_cluster_size(total_sectors as int, bytes_per_sector as int),
            1 <= r <= 64,
    {
        assert(total_sectors * bytes_per_sector <= 0xFFFF_FFFF * 4096) by (nonlinear_arith)
            requires
                total_sectors <= u32::MAX,
                bytes_per_sector <= 4096,
        ;
        let bytes = total_sectors * bytes_per_sector as u64;
        let target_bytes: u64 = if bytes <= 8589934592 {
            4096
        } else if bytes <= 17179869184 {
            8192
        } else if bytes <= 34359738368 {
            16384
        } else {
            32768
        };
        let per = target_bytes / bytes_per_sector as u64;
        assert(per <= 64) by (nonlinear_arith)
            requires
                per == target_bytes / (bytes_per_sector as u64),
                target_bytes <= 32768,
                bytes_per_sector >= 512,
        ;
        if per >= 1 {
            per as u32
        } else {
            1
        }
    }

    /// Bytes in one sector.
    #[verifier::when_used_as_spec(spec_bytes_per_sector)]
    pub fn bytes_per_sector(&self) -> (r: u32)
        ensures
            r == self.spec_bytes_per_sector(),
    {
        self.bytes_per_sector
    }

    /// Sectors in one cluster.
    #[verifier::when_used_as_spec(spec_sectors_per_cluster)]
    pub fn sectors_per_cluster(&self) -> (r: u32)
        ensures
            r == self.spec_sectors_per_cluster(),
    {
        self.sectors_per_cluster
    }

    /// Clusters the data region holds, numbered from 2.
    #[verifier::when_used_as_spec(spec_cluster_count)]
    pub fn cluster_count(&self) -> (r: u32)
        ensures
            r == self.spec_cluster_count(),
    {
        self.cluster_count
    }

    /// Sectors occupied by one copy of the table.
    #[verifier::when_used_as_spec(spec_fat_sectors)]
    pub fn fat_sectors(&self) -> (r: u32)
        ensures
            r == self.spec_fat_sectors(),
    {
        self.fat_sectors
    }

    /// First sector of the data region, relative to the start of the volume.
    pub fn data_start_sector(&self) -> (r: u32)
        ensures
            r == self.spec_data_start(),
    {
        proof {
            use_type_invariant(self);
        }
        RESERVED_SECTORS + self.fat_sectors * NUM_FATS
    }

    /// Sectors of metadata at the front of the volume, including the root
    /// directory's cluster. Every one of them must be defect-free.
    pub fn metadata_sectors(&self) -> (r: u64)
        ensures
            r == self.spec_metadata_sectors(),
    {
        self.data_start_sector() as u64 + self.sectors_per_cluster as u64
    }
}

impl Fat32Layout {
    /// Volume-relative sector where a cluster begins.
    fn cluster_start_sector(&self, cluster: u32) -> (r: u64)
        requires
            FIRST_DATA_CLUSTER <= cluster <= self.spec_cluster_count() + FIRST_DATA_CLUSTER,
        ensures
            r == self.spec_cluster_start(cluster as int),
            r <= self.spec_total_sectors(),
    {
        proof {
            use_type_invariant(self);
            assert((cluster - 2) * self.sectors_per_cluster <= self.cluster_count * self.sectors_per_cluster)
                by (nonlinear_arith)
                requires
                    0 <= cluster - 2 <= self.cluster_count,
                    self.sectors_per_cluster >= 1,
            ;
        }
        self.data_start_sector() as u64 + (cluster - FIRST_DATA_CLUSTER) as u64
            * self.sectors_per_cluster as u64
    }

    /// Cluster containing a volume-relative sector, if it lies in the data
    /// region at all.
    fn cluster_of_sector(&self, sector: u64) -> (r: Option<u32>)
        ensures
            r == spec_cluster_of(*self, sector as int),
    {
        proof {
            use_type_invariant(self);
        }
        let data_start = self.data_start_sector() as u64;
        if sector < data_start {
            return None;
        }
        let index = (sector - data_start) / self.sectors_per_cluster as u64;
        if index >= self.cluster_count as u64 {
            return None;
        }
        Some(index as u32 + FIRST_DATA_CLUSTER)
    }
}

/// The cluster holding volume-relative `sector`, if it is in the data region.
pub open spec fn spec_cluster_of(l: Fat32Layout, sector: int) -> Option<u32> {
    let ds = l.spec_data_start();
    if sector < ds || (sector - ds) / (l.spec_sectors_per_cluster() as int) >= l.spec_cluster_count() {
        None
    } else {
        Some(((sector - ds) / (l.spec_sectors_per_cluster() as int) + FIRST_DATA_CLUSTER) as u32)
    }
}

/// A run of consecutive clusters, half-open.
#[derive(Debug, Clone, Copy, PartialEq, Eq, Structural)]
pub struct ClusterRun {
    /// First cluster in the run.
    pub start: u32,
    /// One past the last cluster.
    pub end: u32,
}

impl ClusterRun {
    /// Clusters in the run.
    pub fn len(&self) -> (r: u32)
        ensures
            r == if self.end > self.start {
                self.end - self.start
            } else {
                0
            },
    {
        if self.end > self.start {
            self.end - self.start
        } else {
            0
        }
    }

    /// Whether the run covers nothing.
    pub fn is_empty(&self) -> (r: bool)
        ensures
            r == (self.end <= self.start),
    {
        self.end <= self.start
    }

    fn contains(&self, cluster: u32) -> (r: bool)
        ensures
            r == (self.start <= cluster < self.end),
    {
        cluster >= self.start && cluster < self.end
    }
}

/// `x` was not proven good: it lies past the device or its state is not `Good`.
pub open spec fn unproven(runs: Seq<Run>, total: u64, x: int) -> bool {
    x >= total || state_in(runs, x) != SectorState::Good
}

/// Cluster `c` of a volume starting at `a` has an unproven sector below `hi`.
pub open spec fn cluster_has_unproven(
    runs: Seq<Run>,
    total: u64,
    l: Fat32Layout,
    a: int,
    hi: int,
    c: int,
) -> bool {
    exists|x: int|
        a + l.spec_cluster_start(c) <= x < a + l.spec_cluster_start(c) + l.spec_sectors_per_cluster()
            && a <= x < hi && #[trigger] unproven(runs, total, x)
}

/// Cluster `c` lies in one of the runs.
pub open spec fn in_runs(out: Seq<ClusterRun>, c: int) -> bool {
    exists|k: int| 0 <= k < out.len() && (#[trigger] out[k]).start <= c < out[k].end
}

/// Runs are non-empty, inside `[lo, hi)`, ascending and separated by at least
/// one cluster.
pub open spec fn runs_sorted(out: Seq<ClusterRun>, lo: int, hi: int) -> bool {
    &&& forall|k: int| 0 <= k < out.len() ==> lo <= (#[trigger] out[k]).start < out[k].end <= hi
    &&& forall|i: int, j: int| 0 <= i < j < out.len() ==> (#[trigger] out[i]).end < (#[trigger] out[j]).start
}

/// `x` is the first unproven sector of `[a, hi)`.
pub open spec fn first_unproven(runs: Seq<Run>, total: u64, a: int, hi: int, x: int) -> bool {
    &&& a <= x < hi
    &&& unproven(runs, total, x)
    &&& forall|y: int| a <= y < x ==> !#[trigger] unproven(runs, total, y)
}

/// Clusters touched by `[rs, last]` are those between the clusters holding
/// its two ends.
proof fn lemma_touch(ds: int, spc: int, count: int, rs: int, last: int, c: int)
    requires
        spc >= 1,
        ds <= rs <= last,
        last <= ds + count * spc - 1,
        2 <= c < count + 2,
    ensures
        (ds + (c - 2) * spc <= last && ds + (c - 2) * spc + spc > rs) <==> ((rs - ds) / spc + 2 <= c
            <= (last - ds) / spc + 2),
{
    vstd::arithmetic::div_mod::lemma_fundamental_div_mod(rs - ds, spc);
    vstd::arithmetic::div_mod::lemma_fundamental_div_mod(last - ds, spc);
    let q1 = (rs - ds) / spc;
    let q2 = (last - ds) / spc;
    let k = c - 2;
    assert((k * spc + spc > rs - ds) <==> (k >= q1)) by (nonlinear_arith)
        requires
            rs - ds == spc * q1 + (rs - ds) % spc,
            0 <= (rs - ds) % spc < spc,
            spc >= 1,
    ;
    assert((k * spc <= last - ds) <==> (k <= q2)) by (nonlinear_arith)
        requires
            last - ds == spc * q2 + (last - ds) % spc,
            0 <= (last - ds) % spc < spc,
            spc >= 1,
    ;
}

/// The first cluster past the data region starts at its end.
proof fn lemma_cluster_of_bounds(l: Fat32Layout, s: int)
    requires
        l.inv(),
    ensures
        s >= l.spec_data_start() ==> (spec_cluster_of(l, s) is Some <==> s < l.spec_cluster_start(
            l.spec_cluster_count() + 2,
        )),
{
    l.lemma_valid();
    let ds = l.spec_data_start();
    let spc = l.spec_sectors_per_cluster() as int;
    let n = l.spec_cluster_count() as int;
    if s >= ds {
        vstd::arithmetic::div_mod::lemma_fundamental_div_mod(s - ds, spc);
        let q = (s - ds) / spc;
        assert((q >= n) <==> (s - ds >= n * spc)) by (nonlinear_arith)
            requires
                s - ds == spc * q + (s - ds) % spc,
                0 <= (s - ds) % spc < spc,
                spc >= 1,
        ;
    }
}

/// Adds clusters `[a, b]` to sorted runs whose last run starts at or before `a`.
fn add_clusters(out: &mut Vec<ClusterRun>, a: u32, b: u32, Ghost(hi): Ghost<int>)
    requires
        a <= b,
        b + 1 <= hi <= u32::MAX,
        runs_sorted(old(out)@, 2, hi),
        2 <= a,
        old(out)@.len() > 0 ==> old(out)@.last().start <= a,
    ensures
        runs_sorted(final(out)@, 2, hi),
        final(out)@.len() > 0,
        final(out)@.last().end == b + 1 || (old(out)@.len() > 0 && final(out)@.last().end == old(
            out,
        )@.last().end),
        forall|c: int| #[trigger] in_runs(final(out)@, c) <==> in_runs(old(out)@, c) || a <= c <= b,
{
    let ghost before = out@;
    let n = out.len();
    if n > 0 && a <= out[n - 1].end {
        let last = out[n - 1];
        let end = if last.end > b + 1 {
            last.end
        } else {
            b + 1
        };
        out.set(n - 1, ClusterRun { start: last.start, end });
        proof {
            assert forall|c: int| #[trigger] in_runs(out@, c) <==> in_runs(before, c) || a <= c <= b by {
                if in_runs(out@, c) {
                    let k = choose|k: int| 0 <= k < out@.len() && (#[trigger] out@[k]).start <= c < out@[k].end;
                    if k < n - 1 {
                        assert(before[k] == out@[k]);
                    } else if c < last.end {
                        assert(before[k] == last);
                    }
                }
                if in_runs(before, c) {
                    let k = choose|k: int| 0 <= k < before.len() && (#[trigger] before[k]).start <= c < before[k].end;
                    if k < n - 1 {
                        assert(before[k] == out@[k]);
                    } else {
                        assert(out@[k].start <= c < out@[k].end);
                    }
                }
                if a <= c <= b {
                    assert(out@[n - 1].start <= c < out@[n - 1].end);
                }
            }
            assert forall|i: int, j: int| 0 <= i < j < out@.len() implies (#[trigger] out@[i]).end
                < (#[trigger] out@[j]).start by {
                assert(before[i].end < before[j].start);
                if j == n - 1 {
                    assert(out@[j].start == before[j].start);
                }
            }
        }
    } else {
        out.push(ClusterRun { start: a, end: b + 1 });
        proof {
            assert forall|c: int| #[trigger] in_runs(out@, c) <==> in_runs(before, c) || a <= c <= b by {
                if in_runs(out@, c) {
                    let k = choose|k: int| 0 <= k < out@.len() && (#[trigger] out@[k]).start <= c < out@[k].end;
                    if k < n {
                        assert(before[k] == out@[k]);
                    }
                }
                if in_runs(before, c) {
                    let k = choose|k: int| 0 <= k < before.len() && (#[trigger] before[k]).start <= c < before[k].end;
                    assert(before[k] == out@[k]);
                }
                if a <= c <= b {
                    assert(out@[n as int].start <= c < out@[n as int].end);
                }
            }
            assert forall|i: int, j: int| 0 <= i < j < out@.len() implies (#[trigger] out@[i]).end
                < (#[trigger] out@[j]).start by {
                if j < n {
                    assert(before[i].end < before[j].start);
                } else {
                    assert(before[i].end <= before.last().end);
                    if i < n - 1 {
                        assert(before[i].end < before[n - 1].start);
                    }
                }
            }
        }
    }
}

/// Whether cluster `c` shares a sector with the volume-relative gap
/// `[rs, re)`.
pub open spec fn touches(l: Fat32Layout, c: int, rs: int, re: int) -> bool {
    l.spec_cluster_start(c) <= re - 1 && l.spec_cluster_start(c) + l.spec_sectors_per_cluster() > rs
}

/// Condemns every cluster sharing a sector with the volume-relative gap
/// `[rel_start, rel_end)`, or refuses when the gap reaches into the metadata.
fn condemn(
    out: &mut Vec<ClusterRun>,
    layout: &Fat32Layout,
    area_start: u64,
    metadata: u64,
    last_data: u64,
    rel_start: u64,
    rel_end: u64,
) -> (r: Result<(), Fat32Error>)
    requires
        rel_start < rel_end,
        area_start + rel_start <= u64::MAX,
        metadata == layout.spec_metadata_sectors(),
        last_data == layout.spec_cluster_start(layout.spec_cluster_count() + 2) - 1,
        runs_sorted(old(out)@, 2, layout.spec_cluster_count() + 2),
        old(out)@.len() > 0 ==> layout.spec_cluster_start(old(out)@.last().end - 1) < rel_start,
    ensures
        rel_start < metadata ==> r == Err::<(), Fat32Error>(
            Fat32Error::DefectiveMetadata { bad_lba: (area_start + rel_start) as u64, metadata_sectors: metadata },
        ) && final(out)@ == old(out)@,
        rel_start >= metadata ==> r is Ok,
        runs_sorted(final(out)@, 2, layout.spec_cluster_count() + 2),
        rel_start >= metadata ==> forall|c: int|
            2 <= c < layout.spec_cluster_count() + 2 ==> (#[trigger] in_runs(final(out)@, c) <==> in_runs(
                old(out)@,
                c,
            ) || touches(*layout, c, rel_start as int, rel_end as int)),
        rel_start >= metadata ==> (final(out)@.len() > 0 ==> layout.spec_cluster_start(
            final(out)@.last().end - 1,
        ) < rel_end),
{
    proof {
        use_type_invariant(layout);
        layout.lemma_valid();
    }
    let ghost ds = layout.spec_data_start();
    let ghost spc = layout.spec_sectors_per_cluster() as int;
    let ghost count = layout.spec_cluster_count() as int;
    if rel_start < metadata {
        return Err(Fat32Error::DefectiveMetadata { bad_lba: area_start + rel_start, metadata_sectors: metadata });
    }
    let last = if rel_end - 1 < last_data {
        rel_end - 1
    } else {
        last_data
    };
    let first_cluster = layout.cluster_of_sector(rel_start);
    let last_cluster = layout.cluster_of_sector(last);
    proof {
        lemma_cluster_of_bounds(*layout, rel_start as int);
        lemma_cluster_of_bounds(*layout, last as int);
    }
    match (first_cluster, last_cluster) {
        (Some(a), Some(b)) => {
            proof {
                vstd::arithmetic::div_mod::lemma_div_is_ordered(rel_start - ds, last - ds, spc);
                assert(a <= b);
                assert forall|c: int| 2 <= c < count + 2 implies touches(*layout, c, rel_start as int, rel_end as int)
                    <==> (a <= c <= b) by {
                    lemma_touch(ds, spc, count, rel_start as int, last as int, c);
                    assert(layout.spec_cluster_start(c) + spc <= ds + count * spc) by (nonlinear_arith)
                        requires
                            layout.spec_cluster_start(c) == ds + (c - 2) * spc,
                            c < count + 2,
                            spc >= 1,
                    ;
                }
                if old(out)@.len() > 0 {
                    let e = old(out)@.last().end - 1;
                    lemma_touch(ds, spc, count, rel_start as int, last as int, e);
                    assert(e < count + 2);
                    assert(old(out)@.last().start <= a) by {
                        vstd::arithmetic::div_mod::lemma_fundamental_div_mod(rel_start - ds, spc);
                        let q = (rel_start - ds) / spc;
                        assert(e - 2 <= q) by (nonlinear_arith)
                            requires
                                ds + (e - 2) * spc < rel_start,
                                rel_start - ds == spc * q + (rel_start - ds) % spc,
                                0 <= (rel_start - ds) % spc < spc,
                                spc >= 1,
                        ;
                    }
                }
                assert(layout.spec_cluster_start(b as int) <= last) by {
                    lemma_touch(ds, spc, count, rel_start as int, last as int, b as int);
                }
            }
            add_clusters(out, a, b, Ghost(count + 2));
        },
        _ => {
            proof {
                assert forall|c: int| 2 <= c < count + 2 implies !touches(*layout, c, rel_start as int, rel_end as int) by {
                    assert(layout.spec_cluster_start(c) + spc <= ds + count * spc) by (nonlinear_arith)
                        requires
                            layout.spec_cluster_start(c) == ds + (c - 2) * spc,
                            c < count + 2,
                            spc >= 1,
                    ;
                }
            }
        },
    }
    Ok(())
}

/// Where the walk over the map's runs may next meet a proven-good sector.
pub open spec fn walk_bound(runs: Seq<Run>, total: u64, i: int) -> int {
    if i < runs.len() {
        runs[i].range.start() as int
    } else {
        total as int
    }
}

/// Translates the map's unproven sectors inside `area` into the clusters
/// covering them.
///
/// A cluster is condemned exactly when one of its sectors inside the area was
/// not proven good: a cluster is the smallest unit a filesystem allocates, and
/// sectors the scan never reached are withheld like defects. The volume's
/// metadata has nowhere else to go, so any unproven sector in it refuses the
/// whole area, naming the first one.
pub fn condemned_clusters(map: &SectorMap, area: &LbaRange, layout: &Fat32Layout) -> (r: Result<
    Vec<ClusterRun>,
    Fat32Error,
>)
    ensures
        ({
            let runs = map.run_seq();
            let total = map.total();
            let a = area.start() as int;
            let h = area.end() as int;
            let meta = layout.spec_metadata_sectors();
            &&& r is Err <==> exists|x: int| a <= x < a + meta && x < h && #[trigger] unproven(runs, total, x)
            &&& r is Err ==> (r->Err_0 matches Fat32Error::DefectiveMetadata { bad_lba, metadata_sectors }
                && metadata_sectors == meta && first_unproven(runs, total, a, h, bad_lba as int))
            &&& r is Ok ==> runs_sorted(r->Ok_0@, 2, layout.spec_cluster_count() + 2)
            &&& r is Ok ==> forall|c: int|
                2 <= c < layout.spec_cluster_count() + 2 ==> (#[trigger] in_runs(r->Ok_0@, c)
                    <==> cluster_has_unproven(runs, total, *layout, a, h, c))
        }),
{
    proof {
        use_type_invariant(map);
        map.lemma_wf();
        use_type_invariant(layout);
        layout.lemma_valid();
    }
    let ghost runs = map.run_seq();
    let ghost total = map.total();
    let ghost a = area.start() as int;
    let ghost h = area.end() as int;
    let ghost spc = layout.spec_sectors_per_cluster() as int;
    let ghost count = layout.spec_cluster_count() as int;
    let metadata = layout.metadata_sectors();
    let last_data = layout.cluster_start_sector(layout.cluster_count() + 1) + layout.sectors_per_cluster() as u64 - 1;
    proof {
        assert(layout.spec_cluster_start(count + 2) == layout.spec_cluster_start(count + 1) + spc) by (nonlinear_arith)
            requires
                layout.spec_cluster_start(count + 2) == layout.spec_data_start() + count * spc,
                layout.spec_cluster_start(count + 1) == layout.spec_data_start() + (count - 1) * spc,
        ;
    }
    let mut out: Vec<ClusterRun> = Vec::new();
    let mut cursor = area.start();
    let map_runs = map.runs();
    let n = map_runs.len();
    let mut i: usize = 0;
    proof {
        assert forall|c: int| 2 <= c < count + 2 implies (#[trigger] in_runs(out@, c)
            <==> cluster_has_unproven(runs, total, *layout, a, cursor as int, c)) by {
        }
    }
    while i < n
        invariant
            map_runs@ == runs,
            runs == map.run_seq(),
            total == map.total(),
            n == runs.len(),
            tiles(runs, total),
            metadata == layout.spec_metadata_sectors(),
            last_data == layout.spec_cluster_start(count + 2) - 1,
            spc == layout.spec_sectors_per_cluster(),
            spc >= 1,
            count == layout.spec_cluster_count(),
            a == area.start(),
            h == area.end(),
            i <= n,
            a <= cursor <= h,
            forall|x: int| cursor <= x < h && x < walk_bound(runs, total, i as int) ==> #[trigger] unproven(runs, total, x),
            forall|x: int| a <= x < cursor && #[trigger] unproven(runs, total, x) ==> x >= a + metadata,
            runs_sorted(out@, 2, count + 2),
            out@.len() > 0 ==> a + layout.spec_cluster_start(out@.last().end - 1) < cursor,
            forall|c: int| 2 <= c < count + 2 ==> (#[trigger] in_runs(out@, c)
                <==> cluster_has_unproven(runs, total, *layout, a, cursor as int, c)),
        decreases n - i,
    {
        let run = map_runs[i];
        let ghost old_cursor = cursor as int;
        let ghost old_out = out@;
        proof {
            lemma_contiguous_at(runs, i as int);
            if i + 1 < n {
                lemma_runs_ordered(runs, i as int, n - 1);
                lemma_contiguous_at(runs, n - 1);
            } else {
                assert(runs.last() == runs[i as int]);
            }
            assert forall|x: int| run.range.start() <= x < run.range.end() implies state_in(runs, x) == run.state by {
                lemma_state_in_run(runs, i as int, x);
            }
        }
        if run.state.is_usable() {
            match run.range.intersection(area) {
                Some(good) => {
                    if good.start() > cursor {
                        let step = condemn(
                            &mut out,
                            layout,
                            area.start(),
                            metadata,
                            last_data,
                            cursor - area.start(),
                            good.start() - area.start(),
                        );
                        match step {
                            Err(e) => {
                                proof {
                                    assert(cursor - area.start() < metadata);
                                    assert(e == Fat32Error::DefectiveMetadata { bad_lba: cursor, metadata_sectors: metadata });
                                    assert(unproven(runs, total, old_cursor));
                                    assert(first_unproven(runs, total, a, h, old_cursor));
                                    assert(a <= old_cursor < a + metadata && old_cursor < h);
                                }
                                return Err(e);
                            },
                            Ok(()) => {},
                        }
                        proof {
                            let gs = good.start() as int;
                            let ge = good.end() as int;
                            assert forall|c: int| 2 <= c < count + 2 implies (#[trigger] in_runs(out@, c)
                                <==> cluster_has_unproven(runs, total, *layout, a, ge, c)) by {
                                let lo = a + layout.spec_cluster_start(c);
                                assert(gs == run.range.start());
                                if touches(*layout, c, old_cursor - a, gs - a) {
                                    let w = if lo > old_cursor { lo } else { old_cursor };
                                    assert(lo <= w < lo + spc);
                                    assert(a <= w < ge);
                                    assert(w < walk_bound(runs, total, i as int));
                                    assert(unproven(runs, total, w));
                                    assert(cluster_has_unproven(runs, total, *layout, a, ge, c));
                                }
                                if cluster_has_unproven(runs, total, *layout, a, ge, c) {
                                    let x = choose|x: int| lo <= x < lo + spc && a <= x < ge && #[trigger] unproven(runs, total, x);
                                    if x < old_cursor {
                                        assert(cluster_has_unproven(runs, total, *layout, a, old_cursor, c));
                                    } else if x < gs {
                                        assert(touches(*layout, c, old_cursor - a, gs - a));
                                    } else {
                                        assert(x < run.range.end());
                                        assert(run.range.end() <= total);
                                        assert(state_in(runs, x) == SectorState::Good);
                                    }
                                }
                                if cluster_has_unproven(runs, total, *layout, a, old_cursor, c) {
                                    let x = choose|x: int| lo <= x < lo + spc && a <= x < old_cursor && #[trigger] unproven(runs, total, x);
                                    assert(lo <= x < lo + spc && a <= x < ge && unproven(runs, total, x));
                                }
                            }
                            assert forall|x: int| a <= x < ge && #[trigger] unproven(runs, total, x) implies x >= a + metadata by {
                                if x >= gs {
                                    assert(state_in(runs, x) == SectorState::Good);
                                }
                            }
                        }
                        cursor = good.end();
                    } else {
                        let ghost ge = good.end() as int;
                        if good.end() > cursor {
                            proof {
                                assert forall|c: int| 2 <= c < count + 2 implies (#[trigger] in_runs(out@, c)
                                    <==> cluster_has_unproven(runs, total, *layout, a, ge, c)) by {
                                    let lo = a + layout.spec_cluster_start(c);
                                    if cluster_has_unproven(runs, total, *layout, a, ge, c) {
                                        let x = choose|x: int| lo <= x < lo + spc && a <= x < ge && #[trigger] unproven(runs, total, x);
                                        if x >= old_cursor {
                                            assert(state_in(runs, x) == SectorState::Good);
                                        }
                                        assert(cluster_has_unproven(runs, total, *layout, a, old_cursor, c));
                                    }
                                    if cluster_has_unproven(runs, total, *layout, a, old_cursor, c) {
                                        let x = choose|x: int| lo <= x < lo + spc && a <= x < old_cursor && #[trigger] unproven(runs, total, x);
                                        assert(lo <= x < lo + spc && a <= x < ge && unproven(runs, total, x));
                                    }
                                }
                                assert forall|x: int| a <= x < ge && #[trigger] unproven(runs, total, x) implies x >= a + metadata by {
                                    if x >= old_cursor {
                                        assert(state_in(runs, x) == SectorState::Good);
                                    }
                                }
                            }
                            cursor = good.end();
                        }
                    }
                },
                None => {},
            }
        }
        i = i + 1;
    }
    if cursor < area.end() {
        let ghost old_cursor = cursor as int;
        let step = condemn(
            &mut out,
            layout,
            area.start(),
            metadata,
            last_data,
            cursor - area.start(),
            area.end() - area.start(),
        );
        match step {
            Err(e) => {
                proof {
                    assert(cursor - area.start() < metadata);
                    assert(e == Fat32Error::DefectiveMetadata { bad_lba: cursor, metadata_sectors: metadata });
                    assert(unproven(runs, total, old_cursor));
                    assert(first_unproven(runs, total, a, h, old_cursor));
                    assert(a <= old_cursor < a + metadata && old_cursor < h);
                }
                return Err(e);
            },
            Ok(()) => {},
        }
        proof {
            assert forall|c: int| 2 <= c < count + 2 implies (#[trigger] in_runs(out@, c)
                <==> cluster_has_unproven(runs, total, *layout, a, h, c)) by {
                let lo = a + layout.spec_cluster_start(c);
                if touches(*layout, c, old_cursor - a, h - a) {
                    let w = if lo > old_cursor { lo } else { old_cursor };
                    assert(unproven(runs, total, w));
                }
                if cluster_has_unproven(runs, total, *layout, a, h, c) {
                    let x = choose|x: int| lo <= x < lo + spc && a <= x < h && #[trigger] unproven(runs, total, x);
                    if x < old_cursor {
                        assert(cluster_has_unproven(runs, total, *layout, a, old_cursor, c));
                    } else {
                        assert(touches(*layout, c, old_cursor - a, h - a));
                    }
                }
                if cluster_has_unproven(runs, total, *layout, a, old_cursor, c) {
                    let x = choose|x: int| lo <= x < lo + spc && a <= x < old_cursor && #[trigger] unproven(runs, total, x);
                    assert(lo <= x < lo + spc && a <= x < h && unproven(runs, total, x));
                }
            }
            assert forall|x: int| a <= x < h && #[trigger] unproven(runs, total, x) implies x >= a + metadata by {
            }
        }
    }
    proof {
        assert forall|x: int| a <= x < a + metadata && x < h implies !#[trigger] unproven(runs, total, x) by {
        }
    }
    Ok(out)
}

/// The byte a label character becomes: upper-cased when it is a letter, kept
/// when it is a digit, `_` or `-`, and `_` otherwise.
pub open spec fn label_byte(ch: char) -> u8 {
    if 'a' <= ch <= 'z' {
        (ch as u32 - 32) as u8
    } else if ('A' <= ch <= 'Z') || ('0' <= ch <= '9') || ch == '_' || ch == '-' {
        ch as u8
    } else {
        95u8
    }
}

/// The 11-byte, space-padded volume label field for `label`.
pub open spec fn label_field(label: Seq<char>) -> Seq<u8> {
    Seq::new(11, |i: int| if i < label.len() { label_byte(label[i]) } else { 32u8 })
}

fn encode_label_char(ch: char) -> (r: u8)
    ensures
        r == label_byte(ch),
{
    if 'a' <= ch && ch <= 'z' {
        (ch as u32 - 32) as u8
    } else if ('A' <= ch && ch <= 'Z') || ('0' <= ch && ch <= '9') || ch == '_' || ch == '-' {
        ch as u8
    } else {
        95
    }
}

/// Encodes a volume label into the 11-byte, space-padded, upper-case field.
pub fn encode_label(label: &str) -> (r: Vec<u8>)
    ensures
        r@ == label_field(label@),
{
    let mut out: Vec<u8> = Vec::new();
    let mut i: usize = 0;
    let mut chars = label.chars();
    while i < 11
        invariant
            i <= 11,
            out@.len() == i,
            forall|j: int| 0 <= j < i ==> #[trigger] out@[j] == label_field(label@)[j],
            i < label@.len() ==> chars.remaining() == label@.skip(i as int),
            i >= label@.len() ==> chars.remaining().len() == 0,
            chars.obeys_prophetic_iter_laws(),
        decreases 11 - i,
    {
        let next = chars.next();
        let b = match next {
            Some(ch) => encode_label_char(ch),
            None => 32u8,
        };
        out.push(b);
        i = i + 1;
    }
    out
}

/// Clusters in a list of runs.
pub open spec fn cluster_total(runs: Seq<ClusterRun>) -> int
    decreases runs.len(),
{
    if runs.len() == 0 {
        0
    } else {
        cluster_total(runs.drop_last()) + (runs.last().end - runs.last().start)
    }
}

/// Sorted runs inside `[lo, hi)` hold at most `hi - lo` clusters, and no more
/// than the span up to the last one's end.
proof fn lemma_cluster_total_bound(runs: Seq<ClusterRun>, lo: int, hi: int)
    requires
        runs_sorted(runs, lo, hi),
    ensures
        0 <= cluster_total(runs),
        runs.len() > 0 ==> cluster_total(runs) <= runs.last().end - lo,
        cluster_total(runs) <= if hi >= lo { hi - lo } else { 0 },
    decreases runs.len(),
{
    if runs.len() > 0 {
        let t = runs.drop_last();
        assert(runs_sorted(t, lo, hi)) by {
            assert forall|k: int| 0 <= k < t.len() implies lo <= (#[trigger] t[k]).start < t[k].end <= hi by {
                assert(t[k] == runs[k]);
            }
            assert forall|i: int, j: int| 0 <= i < j < t.len() implies (#[trigger] t[i]).end < (#[trigger] t[j]).start by {
                assert(t[i] == runs[i] && t[j] == runs[j]);
            }
        }
        lemma_cluster_total_bound(t, lo, hi);
        assert(runs.last() == runs[runs.len() - 1]);
        if t.len() > 0 {
            assert(t.last() == runs[runs.len() - 2]);
            assert(runs[runs.len() - 2].end < runs[runs.len() - 1].start);
        }
    }
}

/// The table entry for `cluster`.
pub open spec fn spec_fat_entry(count: u32, condemned: Seq<ClusterRun>, cluster: u32) -> u32 {
    if cluster == 0 {
        0x0FFF_FFF8
    } else if cluster == 1 {
        END_OF_CHAIN
    } else if cluster >= count + FIRST_DATA_CLUSTER {
        0
    } else if cluster == FIRST_DATA_CLUSTER {
        END_OF_CHAIN
    } else if in_runs(condemned, cluster as int) {
        BAD_CLUSTER
    } else {
        0
    }
}

/// Renders the metadata sectors of a FAT32 volume on demand.
#[derive(Debug)]
pub struct Fat32Image {
    layout: Fat32Layout,
    condemned: Vec<ClusterRun>,
    label: Vec<u8>,
    hidden_sectors: u32,
}

impl Fat32Image {
    /// The withheld clusters are sorted runs of data clusters and the label is
    /// one field long.
    #[verifier::type_invariant]
    pub closed spec fn inv(self) -> bool {
        &&& runs_sorted(self.condemned@, 2, self.layout.spec_cluster_count() + 2)
        &&& self.label@.len() == 11
    }

    pub closed spec fn spec_layout(&self) -> Fat32Layout {
        self.layout
    }

    pub closed spec fn spec_condemned(&self) -> Seq<ClusterRun> {
        self.condemned@
    }

    pub closed spec fn spec_label(&self) -> Seq<u8> {
        self.label@
    }

    pub closed spec fn spec_hidden_sectors(&self) -> u32 {
        self.hidden_sectors
    }

    /// Free clusters the volume reports: data clusters, less the withheld
    /// ones, less the root directory.
    pub open spec fn spec_free_clusters(&self) -> int {
        let free = self.spec_layout().spec_cluster_count() - cluster_total(self.spec_condemned());
        if free >= 1 {
            free - 1
        } else {
            0
        }
    }

    /// This is the volume built for `area` of the card `map` describes: laid
    /// out for the area's size, withholding exactly the clusters with a sector
    /// the map does not prove good, named `label`.
    pub open spec fn built_for(self, map: SectorMap, area: LbaRange, volume_id: u32, label: Seq<char>) -> bool {
        let planned = Fat32Layout::spec_plan(area.len(), map.spec_geometry().sector_size(), volume_id);
        let l = planned->Ok_0;
        &&& planned is Ok
        &&& self.spec_layout() == l
        &&& forall|c: int| 2 <= c < l.spec_cluster_count() + 2 ==> (#[trigger] in_runs(self.spec_condemned(), c)
            <==> cluster_has_unproven(map.run_seq(), map.total(), l, area.start() as int, area.end() as int, c))
        &&& self.spec_label() == label_field(label)
        &&& self.spec_hidden_sectors() == if area.start() <= u32::MAX { area.start() } else { u32::MAX as u64 }
    }

    /// Builds an image for `area`, condemning every cluster with a sector the
    /// map does not prove good.
    pub fn new(map: &SectorMap, area: &LbaRange, volume_id: u32, label: &str) -> (r: Result<Self, Fat32Error>)
        ensures
            ({
                let planned = Fat32Layout::spec_plan(area.len(), map.spec_geometry().sector_size(), volume_id);
                let runs = map.run_seq();
                let total = map.total();
                let a = area.start() as int;
                let h = area.end() as int;
                &&& planned is Err ==> r == Err::<Self, Fat32Error>(planned->Err_0)
                &&& planned is Ok ==> ({
                    let l = planned->Ok_0;
                    &&& r is Err <==> exists|x: int| a <= x < a + l.spec_metadata_sectors() && x < h
                        && #[trigger] unproven(runs, total, x)
                    &&& r is Err ==> (r->Err_0 matches Fat32Error::DefectiveMetadata { bad_lba, metadata_sectors }
                        && metadata_sectors == l.spec_metadata_sectors() && first_unproven(runs, total, a, h, bad_lba as int))
                    &&& r is Ok ==> ({
                        let img = r->Ok_0;
                        &&& img.spec_layout() == l
                        &&& forall|c: int| 2 <= c < l.spec_cluster_count() + 2 ==> (#[trigger] in_runs(img.spec_condemned(), c)
                            <==> cluster_has_unproven(runs, total, l, a, h, c))
                        &&& img.spec_label() == label_field(label@)
                        &&& img.spec_hidden_sectors() == if area.start() <= u32::MAX { area.start() } else { u32::MAX as u64 }
                    })
                })
            }),
            r is Ok ==> r->Ok_0.built_for(*map, *area, volume_id, label@),
            r is Ok <==> crate::planner::cluster_map_builds(*map, *area),
    {
        let sector_size = map.geometry().sector_size();
        let layout = match Fat32Layout::plan(area.len(), sector_size, volume_id) {
            Ok(l) => l,
            Err(e) => return Err(e),
        };
        let condemned = match condemned_clusters(map, area, &layout) {
            Ok(c) => c,
            Err(e) => return Err(e),
        };
        let hidden: u32 = if area.start() <= 0xFFFF_FFFFu64 {
            area.start() as u32
        } else {
            0xFFFF_FFFFu32
        };
        Ok(Self { layout, condemned, label: encode_label(label), hidden_sectors: hidden })
    }

    /// The volume's geometry.
    pub fn layout(&self) -> (r: &Fat32Layout)
        ensures
            *r == self.spec_layout(),
    {
        &self.layout
    }

    /// The withheld runs of clusters, sorted and disjoint.
    pub fn condemned_runs(&self) -> (r: &[ClusterRun])
        ensures
            r@ == self.spec_condemned(),
            runs_sorted(r@, 2, self.spec_layout().spec_cluster_count() + 2),
    {
        proof {
            use_type_invariant(self);
        }
        self.condemned.as_slice()
    }

    /// Clusters withheld from allocation.
    pub fn condemned_clusters(&self) -> (r: u32)
        ensures
            r == cluster_total(self.spec_condemned()),
    {
        proof {
            use_type_invariant(self);
            use_type_invariant(&self.layout);
            self.layout.lemma_valid();
        }
        let ghost runs = self.condemned@;
        let mut sum: u32 = 0;
        let mut i: usize = 0;
        while i < self.condemned.len()
            invariant
                runs == self.condemned@,
                runs_sorted(runs, 2, self.layout.spec_cluster_count() + 2),
                self.layout.spec_cluster_count() + 2 <= u32::MAX,
                i <= runs.len(),
                sum == cluster_total(runs.take(i as int)),
            decreases runs.len() - i,
        {
            proof {
                assert(runs.take(i + 1).drop_last() == runs.take(i as int));
                assert(runs_sorted(runs.take(i + 1), 2, self.layout.spec_cluster_count() + 2)) by {
                    let t = runs.take(i + 1);
                    assert forall|k: int| 0 <= k < t.len() implies 2 <= (#[trigger] t[k]).start < t[k].end
                        <= self.layout.spec_cluster_count() + 2 by {
                        assert(t[k] == runs[k]);
                    }
                    assert forall|p: int, q: int| 0 <= p < q < t.len() implies (#[trigger] t[p]).end < (#[trigger] t[q]).start by {
                        assert(t[p] == runs[p] && t[q] == runs[q]);
                    }
                }
                lemma_cluster_total_bound(runs.take(i + 1), 2, self.layout.spec_cluster_count() + 2);
            }
            sum = sum + self.condemned[i].len();
            i = i + 1;
        }
        proof {
            assert(runs.take(runs.len() as int) == runs);
        }
        sum
    }

    /// Bytes the volume will actually offer, once the defects are withheld.
    pub fn usable_bytes(&self) -> (r: u64)
        ensures
            r == self.spec_free_clusters() * self.spec_layout().spec_sectors_per_cluster()
                * self.spec_layout().spec_bytes_per_sector(),
    {
        proof {
            use_type_invariant(self);
            use_type_invariant(&self.layout);
            self.layout.lemma_valid();
            lemma_cluster_total_bound(self.condemned@, 2, self.layout.spec_cluster_count() + 2);
        }
        let taken = self.condemned_clusters();
        let free = if self.layout.cluster_count > taken {
            self.layout.cluster_count - taken
        } else {
            0
        };
        let free = if free >= 1 {
            free - 1
        } else {
            0
        };
        assert(free as int * self.layout.sectors_per_cluster <= 0xFFFF_FFFFu64 * 64) by (nonlinear_arith)
            requires
                free <= 0xFFFF_FFFFu32,
                self.layout.sectors_per_cluster <= 64,
        ;
        assert(free as int * self.layout.sectors_per_cluster * self.layout.bytes_per_sector
            <= 0xFFFF_FFFFu64 * 64 * 4096) by (nonlinear_arith)
            requires
                free as int * self.layout.sectors_per_cluster <= 0xFFFF_FFFFu64 * 64,
                self.layout.bytes_per_sector <= 4096,
        ;
        free as u64 * self.layout.sectors_per_cluster as u64 * self.layout.bytes_per_sector as u64
    }

    /// Sectors that must be written, counted from the start of the volume.
    pub fn sectors_to_write(&self) -> (r: u64)
        ensures
            r == self.spec_layout().spec_metadata_sectors(),
    {
        self.layout.metadata_sectors()
    }

    /// Whether a cluster is withheld.
    fn is_condemned(&self, cluster: u32) -> (r: bool)
        ensures
            r == in_runs(self.spec_condemned(), cluster as int),
    {
        proof {
            use_type_invariant(self);
        }
        let ghost runs = self.condemned@;
        let mut lo: usize = 0;
        let mut hi: usize = self.condemned.len();
        while lo < hi
            invariant
                runs == self.condemned@,
                runs_sorted(runs, 2, self.layout.spec_cluster_count() + 2),
                0 <= lo <= hi <= runs.len(),
                forall|k: int| 0 <= k < lo ==> (#[trigger] runs[k]).end <= cluster,
                forall|k: int| hi <= k < runs.len() ==> (#[trigger] runs[k]).start > cluster,
            decreases hi - lo,
        {
            let mid = lo + (hi - lo) / 2;
            let run = self.condemned[mid];
            if run.contains(cluster) {
                proof {
                    assert(runs[mid as int].start <= cluster < runs[mid as int].end);
                }
                return true;
            } else if run.end <= cluster {
                proof {
                    assert forall|k: int| 0 <= k <= mid implies (#[trigger] runs[k]).end <= cluster by {
                        if k < mid {
                            assert(runs[k].end < runs[mid as int].start);
                        }
                    }
                }
                lo = mid + 1;
            } else {
                proof {
                    assert forall|k: int| mid <= k < runs.len() implies (#[trigger] runs[k]).start > cluster by {
                        if k > mid {
                            assert(runs[mid as int].end < runs[k].start);
                        }
                    }
                }
                hi = mid;
            }
        }
        proof {
            if in_runs(runs, cluster as int) {
                let k = choose|k: int| 0 <= k < runs.len() && (#[trigger] runs[k]).start <= cluster < runs[k].end;
                assert(k < lo || k >= hi);
            }
        }
        false
    }

    /// The table entry for a cluster.
    fn fat_entry(&self, cluster: u32) -> (r: u32)
        ensures
            r == spec_fat_entry(self.spec_layout().spec_cluster_count(), self.spec_condemned(), cluster),
    {
        proof {
            use_type_invariant(&self.layout);
            self.layout.lemma_valid();
        }
        if cluster == 0 {
            0x0FFF_FFF8
        } else if cluster == 1 {
            END_OF_CHAIN
        } else if cluster >= self.layout.cluster_count + FIRST_DATA_CLUSTER {
            0
        } else if cluster == FIRST_DATA_CLUSTER {
            END_OF_CHAIN
        } else if self.is_condemned(cluster) {
            BAD_CLUSTER
        } else {
            0
        }
    }

    /// The table entry for a cluster, for tests that assert what the volume
    /// will and will not hand out.
    pub fn fat_entry_for_test(&self, cluster: u32) -> (r: u32)
        ensures
            r == spec_fat_entry(self.spec_layout().spec_cluster_count(), self.spec_condemned(), cluster),
    {
        self.fat_entry(cluster)
    }
}

/// The boot sector, field by field at its documented offsets.
pub open spec fn boot_bytes(l: Fat32Layout, hidden: u32, label: Seq<u8>) -> Seq<u8> {
    let bps = l.spec_bytes_per_sector() as int;
    // 0: jump; 3: OEM name "MSWIN4.1"
    seq![0xEBu8, 0x58u8, 0x90u8] + seq![0x4Du8, 0x53u8, 0x57u8, 0x49u8, 0x4Eu8, 0x34u8, 0x2Eu8, 0x31u8]
        // 11: bytes per sector; 13: sectors per cluster; 14: reserved; 16: FATs
        + le16(bps) + seq![l.spec_sectors_per_cluster() as u8] + le16(RESERVED_SECTORS as int) + seq![
        NUM_FATS as u8,
    ]
        // 17: no fixed root directory, no 16-bit count; 21: fixed media; 22: no 16-bit FAT size
        + zeros(4) + seq![0xF8u8] + zeros(2)
        // 24: sectors per track; 26: heads; 28: hidden sectors; 32: total; 36: FAT size
        + le16(63) + le16(255) + le32(hidden as int) + le32(l.spec_total_sectors() as int) + le32(
        l.spec_fat_sectors() as int,
    )
        // 40: flags and version; 44: root cluster; 48: FSInfo; 50: backup boot sector
        + zeros(4) + le32(FIRST_DATA_CLUSTER as int) + le16(FSINFO_SECTOR as int) + le16(
        BACKUP_BOOT_SECTOR as int,
    )
        // 52: reserved; 64: drive number; 66: extended signature; 67: serial; 71: label
        + zeros(12) + seq![0x80u8, 0u8, 0x29u8] + le32(l.spec_volume_id() as int) + label
        // 82: filesystem type "FAT32   "; then padding and the signature
        + seq![0x46u8, 0x41u8, 0x54u8, 0x33u8, 0x32u8, 0x20u8, 0x20u8, 0x20u8] + zeros(bps - 92) + seq![
        0x55u8,
        0xAAu8,
    ]
}

/// The FSInfo sector: its signatures, the free-cluster count and the hint.
pub open spec fn fsinfo_bytes(bps: int, free: int) -> Seq<u8> {
    le32(0x4161_5252) + zeros(480) + le32(0x6141_7272) + le32(free) + le32(
        (FIRST_DATA_CLUSTER + 1) as int,
    ) + zeros(bps - 500) + seq![0u8, 0u8, 0x55u8, 0xAAu8]
}

/// `a + b`, saturating at `u32::MAX`.
pub open spec fn sat_add32(a: int, b: int) -> u32 {
    if a + b > u32::MAX {
        u32::MAX
    } else {
        (a + b) as u32
    }
}

/// The first `n` table entries from cluster `first`, four bytes each.
pub open spec fn fat_bytes(count: u32, condemned: Seq<ClusterRun>, first: u32, n: nat) -> Seq<u8>
    decreases n,
{
    if n == 0 {
        Seq::empty()
    } else {
        fat_bytes(count, condemned, first, (n - 1) as nat) + le32(
            (spec_fat_entry(count, condemned, sat_add32(first as int, n - 1)) & ENTRY_MASK) as int,
        )
    }
}

/// The first sector of the root directory: the volume label entry.
pub open spec fn root_bytes(bps: int, label: Seq<u8>) -> Seq<u8> {
    label + seq![0x08u8] + zeros(bps - 12)
}

impl Fat32Image {
    /// The content of volume-relative sector `sector`.
    pub open spec fn sector_content(&self, sector: u64) -> Seq<u8> {
        let l = self.spec_layout();
        let bps = l.spec_bytes_per_sector() as int;
        let fat = l.spec_fat_sectors() as int;
        if sector == 0 || sector == BACKUP_BOOT_SECTOR {
            boot_bytes(l, self.spec_hidden_sectors(), self.spec_label())
        } else if sector == FSINFO_SECTOR || sector == BACKUP_BOOT_SECTOR + FSINFO_SECTOR {
            fsinfo_bytes(bps, self.spec_free_clusters())
        } else if RESERVED_SECTORS <= sector < RESERVED_SECTORS + fat * NUM_FATS {
            fat_bytes(
                l.spec_cluster_count(),
                self.spec_condemned(),
                (((sector - RESERVED_SECTORS) % fat) * (bps / 4)) as u32,
                (bps / 4) as nat,
            )
        } else if sector == l.spec_cluster_start(FIRST_DATA_CLUSTER as int) {
            root_bytes(bps, self.spec_label())
        } else {
            zeros(bps)
        }
    }

    fn boot_sector(&self) -> (r: Vec<u8>)
        ensures
            r@ == boot_bytes(self.spec_layout(), self.spec_hidden_sectors(), self.spec_label()),
            r@.len() == self.spec_layout().spec_bytes_per_sector(),
    {
        proof {
            use_type_invariant(self);
            use_type_invariant(&self.layout);
            self.layout.lemma_valid();
        }
        let l = &self.layout;
        let mut out: Vec<u8> = Vec::new();
        out.push(0xEB);
        out.push(0x58);
        out.push(0x90);
        let ghost p0 = seq![0xEBu8, 0x58u8, 0x90u8];
        assert(out@ =~= p0);
        let oem: [u8; 8] = [0x4D, 0x53, 0x57, 0x49, 0x4E, 0x34, 0x2E, 0x31];
        push_bytes(&mut out, &oem);
        assert(oem@ =~= seq![0x4Du8, 0x53u8, 0x57u8, 0x49u8, 0x4Eu8, 0x34u8, 0x2Eu8, 0x31u8]);
        push_le16(&mut out, l.bytes_per_sector as u16);
        let one: [u8; 1] = [l.sectors_per_cluster as u8];
        push_bytes(&mut out, &one);
        assert(one@ =~= seq![l.spec_sectors_per_cluster() as u8]);
        push_le16(&mut out, RESERVED_SECTORS as u16);
        let fats: [u8; 1] = [NUM_FATS as u8];
        push_bytes(&mut out, &fats);
        assert(fats@ =~= seq![NUM_FATS as u8]);
        push_zeros(&mut out, 4);
        let media: [u8; 1] = [0xF8];
        push_bytes(&mut out, &media);
        assert(media@ =~= seq![0xF8u8]);
        push_zeros(&mut out, 2);
        push_le16(&mut out, 63);
        push_le16(&mut out, 255);
        push_le32(&mut out, self.hidden_sectors);
        push_le32(&mut out, l.total_sectors);
        push_le32(&mut out, l.fat_sectors);
        push_zeros(&mut out, 4);
        push_le32(&mut out, FIRST_DATA_CLUSTER);
        push_le16(&mut out, FSINFO_SECTOR as u16);
        push_le16(&mut out, BACKUP_BOOT_SECTOR as u16);
        push_zeros(&mut out, 12);
        let drive: [u8; 3] = [0x80, 0x00, 0x29];
        push_bytes(&mut out, &drive);
        assert(drive@ =~= seq![0x80u8, 0u8, 0x29u8]);
        push_le32(&mut out, l.volume_id);
        push_bytes(&mut out, self.label.as_slice());
        let kind: [u8; 8] = [0x46, 0x41, 0x54, 0x33, 0x32, 0x20, 0x20, 0x20];
        push_bytes(&mut out, &kind);
        assert(kind@ =~= seq![0x46u8, 0x41u8, 0x54u8, 0x33u8, 0x32u8, 0x20u8, 0x20u8, 0x20u8]);
        push_zeros(&mut out, l.bytes_per_sector as usize - 92);
        let sig: [u8; 2] = [0x55, 0xAA];
        push_bytes(&mut out, &sig);
        assert(sig@ =~= seq![0x55u8, 0xAAu8]);
        out
    }
}

impl Fat32Image {
    fn fsinfo_sector(&self) -> (r: Vec<u8>)
        ensures
            r@ == fsinfo_bytes(self.spec_layout().spec_bytes_per_sector() as int, self.spec_free_clusters()),
            r@.len() == self.spec_layout().spec_bytes_per_sector(),
    {
        proof {
            use_type_invariant(self);
            use_type_invariant(&self.layout);
            self.layout.lemma_valid();
            lemma_cluster_total_bound(self.condemned@, 2, self.layout.spec_cluster_count() + 2);
        }
        let taken = self.condemned_clusters();
        let free = if self.layout.cluster_count > taken {
            self.layout.cluster_count - taken
        } else {
            0
        };
        let free = if free >= 1 {
            free - 1
        } else {
            0
        };
        let mut out: Vec<u8> = Vec::new();
        push_le32(&mut out, 0x4161_5252);
        assert(out@ =~= le32(0x4161_5252));
        push_zeros(&mut out, 480);
        push_le32(&mut out, 0x6141_7272);
        push_le32(&mut out, free);
        push_le32(&mut out, FIRST_DATA_CLUSTER + 1);
        push_zeros(&mut out, self.layout.bytes_per_sector as usize - 500);
        let tail: [u8; 4] = [0x00, 0x00, 0x55, 0xAA];
        push_bytes(&mut out, &tail);
        assert(tail@ =~= seq![0u8, 0u8, 0x55u8, 0xAAu8]);
        out
    }

    fn fat_sector(&self, first: u32) -> (r: Vec<u8>)
        ensures
            r@ == fat_bytes(
                self.spec_layout().spec_cluster_count(),
                self.spec_condemned(),
                first,
                (self.spec_layout().spec_bytes_per_sector() / 4) as nat,
            ),
            r@.len() == self.spec_layout().spec_bytes_per_sector(),
    {
        proof {
            use_type_invariant(&self.layout);
            self.layout.lemma_valid();
        }
        let entries = self.layout.bytes_per_sector / 4;
        let mut out: Vec<u8> = Vec::new();
        let mut i: u32 = 0;
        while i < entries
            invariant
                entries == self.spec_layout().spec_bytes_per_sector() / 4,
                i <= entries,
                out@ == fat_bytes(self.spec_layout().spec_cluster_count(), self.spec_condemned(), first, i as nat),
                out@.len() == 4 * i,
            decreases entries - i,
        {
            let cluster = match first.checked_add(i) {
                Some(c) => c,
                None => 0xFFFF_FFFFu32,
            };
            let value = self.fat_entry(cluster) & ENTRY_MASK;
            push_le32(&mut out, value);
            i = i + 1;
        }
        out
    }

    fn root_sector(&self) -> (r: Vec<u8>)
        ensures
            r@ == root_bytes(self.spec_layout().spec_bytes_per_sector() as int, self.spec_label()),
            r@.len() == self.spec_layout().spec_bytes_per_sector(),
    {
        proof {
            use_type_invariant(self);
            use_type_invariant(&self.layout);
            self.layout.lemma_valid();
        }
        let mut out: Vec<u8> = Vec::new();
        push_bytes(&mut out, self.label.as_slice());
        let attr: [u8; 1] = [0x08];
        push_bytes(&mut out, &attr);
        assert(attr@ =~= seq![0x08u8]);
        push_zeros(&mut out, self.layout.bytes_per_sector as usize - 12);
        out
    }

    /// Fills `out`, exactly one sector long, with the content of one
    /// volume-relative sector. Sectors outside the metadata read as zeros.
    #[verifier::spinoff_prover]
    pub fn render_sector(&self, sector: u64, out: &mut [u8])
        requires
            old(out)@.len() == self.spec_layout().spec_bytes_per_sector(),
        ensures
            final(out)@ == self.sector_content(sector),
    {
        proof {
            use_type_invariant(&self.layout);
            self.layout.lemma_valid();
        }
        let bps = self.layout.bytes_per_sector as usize;
        let fat_start = RESERVED_SECTORS as u64;
        let fat_len = self.layout.fat_sectors as u64;
        let content = if sector == 0 || sector == BACKUP_BOOT_SECTOR as u64 {
            self.boot_sector()
        } else if sector == FSINFO_SECTOR as u64 || sector == (BACKUP_BOOT_SECTOR + FSINFO_SECTOR) as u64 {
            self.fsinfo_sector()
        } else if sector >= fat_start && sector < fat_start + fat_len * NUM_FATS as u64 {
            let within = (sector - fat_start) % fat_len;
            let entries_per_sector = (bps / 4) as u64;
            assert(within * entries_per_sector <= u64::MAX) by (nonlinear_arith)
                requires
                    within < 0x1_0000_0000,
                    entries_per_sector <= 1024,
            ;
            #[verifier::truncate]
            let first = (within * entries_per_sector) as u32;
            self.fat_sector(first)
        } else if sector == self.layout.cluster_start_sector(FIRST_DATA_CLUSTER) {
            self.root_sector()
        } else {
            let mut z: Vec<u8> = Vec::new();
            push_zeros(&mut z, bps);
            z
        };
        copy_into(out, &content);
    }
}

/// The clusters of a volume at `a` with an unproven sector below `hi`.
pub open spec fn unproven_clusters(runs: Seq<Run>, total: u64, l: Fat32Layout, a: int, hi: int) -> Set<int> {
    Set::new(|c: int| 2 <= c < l.spec_cluster_count() + 2 && cluster_has_unproven(runs, total, l, a, hi, c))
}

/// The clusters a list of runs holds.
pub open spec fn run_clusters(out: Seq<ClusterRun>) -> Set<int> {
    Set::new(|c: int| in_runs(out, c))
}

/// Sorted runs hold as many clusters as their lengths add up to.
proof fn lemma_cluster_total_is_count(out: Seq<ClusterRun>, lo: int, hi: int)
    requires
        runs_sorted(out, lo, hi),
    ensures
        run_clusters(out).finite(),
        cluster_total(out) == run_clusters(out).len(),
    decreases out.len(),
{
    if out.len() == 0 {
        assert(run_clusters(out) =~= Set::<int>::empty());
    } else {
        let t = out.drop_last();
        let last = out.last();
        assert(runs_sorted(t, lo, hi)) by {
            assert forall|k: int| 0 <= k < t.len() implies lo <= (#[trigger] t[k]).start < t[k].end <= hi by {
                assert(t[k] == out[k]);
            }
            assert forall|i: int, j: int| 0 <= i < j < t.len() implies (#[trigger] t[i]).end < (#[trigger] t[j]).start by {
                assert(t[i] == out[i] && t[j] == out[j]);
            }
        }
        lemma_cluster_total_is_count(t, lo, hi);
        assert(last == out[out.len() - 1]);
        let r = vstd::set_lib::set_int_range(last.start as int, last.end as int);
        vstd::set_lib::lemma_int_range(last.start as int, last.end as int);
        assert(run_clusters(out) =~= run_clusters(t) + r) by {
            assert forall|c: int| run_clusters(out).contains(c) implies (run_clusters(t) + r).contains(c) by {
                let k = choose|k: int| 0 <= k < out.len() && (#[trigger] out[k]).start <= c < out[k].end;
                if k < out.len() - 1 {
                    assert(t[k] == out[k]);
                    assert(in_runs(t, c));
                }
            }
            assert forall|c: int| (run_clusters(t) + r).contains(c) implies run_clusters(out).contains(c) by {
                if run_clusters(t).contains(c) {
                    let k = choose|k: int| 0 <= k < t.len() && (#[trigger] t[k]).start <= c < t[k].end;
                    assert(out[k] == t[k]);
                } else {
                    assert(out[out.len() - 1].start <= c < out[out.len() - 1].end);
                }
            }
        }
        assert(run_clusters(t).disjoint(r)) by {
            assert forall|c: int| run_clusters(t).contains(c) implies !r.contains(c) by {
                let k = choose|k: int| 0 <= k < t.len() && (#[trigger] t[k]).start <= c < t[k].end;
                assert(out[k].end < out[out.len() - 1].start);
            }
        }
        vstd::set_lib::lemma_set_disjoint_lens(run_clusters(t), r);
    }
}

/// The volume's copies agree: the backup boot sector and its FSInfo equal
/// the primaries, and each sector of the second table equals the same sector
/// of the first. A driver may read either, and repair compares them.
pub proof fn lemma_copies_agree(img: Fat32Image, k: u64)
    requires
        k < img.spec_layout().spec_fat_sectors(),
    ensures
        img.sector_content(BACKUP_BOOT_SECTOR as u64) == img.sector_content(0),
        img.sector_content((BACKUP_BOOT_SECTOR + FSINFO_SECTOR) as u64) == img.sector_content(FSINFO_SECTOR as u64),
        img.sector_content((RESERVED_SECTORS + img.spec_layout().spec_fat_sectors() + k) as u64) == img.sector_content(
            (RESERVED_SECTORS + k) as u64,
        ),
{
    let fat = img.spec_layout().spec_fat_sectors() as int;
    let ki = k as int;
    assert((fat + ki) % fat == ki % fat) by (nonlinear_arith)
        requires
            0 <= ki < fat,
    ;
    assert((RESERVED_SECTORS + fat + k - RESERVED_SECTORS) == fat + k);
}

/// What the image reports as free is every data cluster without an unproven
/// sector, less the root directory.
pub proof fn lemma_free_clusters(img: Fat32Image, runs: Seq<Run>, total: u64, a: int, h: int)
    requires
        img.inv(),
        forall|c: int| 2 <= c < img.spec_layout().spec_cluster_count() + 2 ==> (#[trigger] in_runs(img.spec_condemned(), c)
            <==> cluster_has_unproven(runs, total, img.spec_layout(), a, h, c)),
    ensures
        unproven_clusters(runs, total, img.spec_layout(), a, h).finite(),
        img.spec_free_clusters() == ({
            let free = img.spec_layout().spec_cluster_count() - unproven_clusters(runs, total, img.spec_layout(), a, h).len();
            if free >= 1 { free - 1 } else { 0 }
        }),
{
    let n = img.spec_layout().spec_cluster_count() + 2;
    lemma_cluster_total_is_count(img.spec_condemned(), 2, n);
    assert(run_clusters(img.spec_condemned()) =~= unproven_clusters(runs, total, img.spec_layout(), a, h)) by {
        assert forall|c: int| run_clusters(img.spec_condemned()).contains(c) implies 2 <= c < n by {
            let k = choose|k: int| 0 <= k < img.spec_condemned().len() && (#[trigger] img.spec_condemned()[k]).start <= c
                < img.spec_condemned()[k].end;
        }
    }
}

} // verus!
