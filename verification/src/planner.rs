//! Partition layouts that fence defects away from user data.
//!
//! The invariant the whole tool rests on: no data partition may contain a
//! sector that was not explicitly approved. Sectors that were never inspected
//! stay out too, because absence of proof is not proof of absence.
//! [`PartitionPlan::validate`] rejects any plan violating this.
//!
//! A defective sector is rarely alone: NAND erases in blocks of several
//! megabytes, so each condemned region is dilated by a guard band and aligned
//! outward to the erase-block boundary.
use vstd::prelude::*;
use vstd::string::StringExecFns;

use crate::fat32::{
    cluster_has_unproven, first_unproven, in_runs, unproven, unproven_clusters, Fat32Error,
    Fat32Image, Fat32Layout,
};
use crate::geometry::{
    max_u64, min_u64, round_down, round_up_sat, sat_add, sat_mul, sat_sub, DeviceGeometry, LbaRange,
};
use crate::sector_map::{ranges_where, state_in, tiles, Run, SectorMap, SectorState};
use crate::text::{append_decimal, decimal_chars};

verus! {

/// Role of a partition in the final layout.
#[derive(Debug, Clone, Copy, PartialEq, Eq, Structural)]
pub enum PartitionRole {
    /// Visible, formatted area where the user stores files.
    Data,
    /// Condemned area, tagged with a type Windows will not mount.
    Quarantine,
}

/// Filesystem for the visible partition.
#[derive(Debug, Clone, Copy, PartialEq, Eq, Structural)]
pub enum FileSystem {
    /// exFAT: files larger than 4 GiB, universal support on modern media.
    ExFat,
    /// FAT32: maximum compatibility, 4 GiB per-file limit.
    Fat32,
}

impl FileSystem {
    pub open spec fn spec_mbr_type(&self) -> u8 {
        match self {
            FileSystem::ExFat => 0x07,
            FileSystem::Fat32 => 0x0C,
        }
    }

    /// MBR partition type byte: 0x07 covers exFAT, 0x0C is FAT32 with LBA.
    #[verifier::when_used_as_spec(spec_mbr_type)]
    pub fn mbr_type(&self) -> (r: u8)
        ensures
            r == self.spec_mbr_type(),
    {
        match self {
            FileSystem::ExFat => 0x07,
            FileSystem::Fat32 => 0x0C,
        }
    }

    /// Name accepted by the Windows format utility.
    pub fn format_name(&self) -> (r: &'static str)
        ensures
            r@ == match self {
                FileSystem::ExFat => "exFAT"@,
                FileSystem::Fat32 => "FAT32"@,
            },
    {
        match self {
            FileSystem::ExFat => "exFAT",
            FileSystem::Fat32 => "FAT32",
        }
    }
}

/// MBR partition type used for quarantine: "non-filesystem data", which
/// Windows neither mounts nor offers as free space.
pub const QUARANTINE_MBR_TYPE: u8 = 0xDA;

/// A planned partition.
#[derive(Debug, PartialEq, Eq)]
pub struct PlannedPartition {
    /// LBA interval occupied.
    pub range: LbaRange,
    /// Role of the partition.
    pub role: PartitionRole,
    /// Type byte written to the partition table.
    pub mbr_type: u8,
    /// Stable identifier used by the presentation layer.
    pub label: String,
}

impl PlannedPartition {
    /// Size in bytes, saturating.
    pub fn byte_len(&self, g: &DeviceGeometry) -> (r: u64)
        ensures
            r == sat_mul(self.range.len(), g.sector_size() as u64),
    {
        self.range.byte_len(g)
    }
}

/// How a plan keeps user data off sectors that were not proven good.
#[derive(Debug, Clone, Copy, PartialEq, Eq, Structural)]
pub enum Containment {
    /// Every sector inside a data partition was proven good, and condemned
    /// regions are dilated by a guard band.
    PartitionBoundary,
    /// The partition spans defects and the filesystem's table withholds each
    /// cluster touching one.
    FilesystemClusterMap,
}

/// Strategy for making use of the surviving space.
#[derive(Debug, Clone, Copy, PartialEq, Eq, Structural)]
pub enum Strategy {
    /// A single partition over the largest contiguous approved area.
    LargestContiguous,
    /// Several partitions over the largest approved areas.
    MaximumSpace,
    /// Like the first, with an enlarged guard band.
    Conservative,
    /// One FAT32 volume spanning the defects, which its own table withholds.
    SplicedFat32,
}

impl Strategy {
    /// Stable identifier for serialization and presentation lookup.
    pub fn kind(&self) -> (r: &'static str)
        ensures
            r@ == match self {
                Strategy::LargestContiguous => "largest_contiguous"@,
                Strategy::MaximumSpace => "maximum_space"@,
                Strategy::Conservative => "conservative"@,
                Strategy::SplicedFat32 => "spliced_fat32"@,
            },
    {
        match self {
            Strategy::LargestContiguous => "largest_contiguous",
            Strategy::MaximumSpace => "maximum_space",
            Strategy::Conservative => "conservative",
            Strategy::SplicedFat32 => "spliced_fat32",
        }
    }
}

/// Planning parameters.
#[derive(Debug, Clone, Copy, PartialEq, Eq, Structural)]
pub struct PlanningPolicy {
    /// Margin, in sectors, applied around every condemned region.
    pub guard_band_sectors: u64,
    /// Boundary alignment, in sectors.
    pub alignment_sectors: u64,
    /// Minimum size of a data partition, in sectors.
    pub min_partition_sectors: u64,
    /// Maximum number of partition table entries.
    pub max_partitions: usize,
    /// Whether never-inspected sectors count as unsafe.
    pub treat_untested_as_unsafe: bool,
}

impl PlanningPolicy {
    /// Default policy for a geometry: guard band of two erase blocks, erase
    /// block alignment, minimum partition of two erase blocks.
    pub fn recommended_for(g: &DeviceGeometry) -> (r: Self)
        ensures
            r.alignment_sectors == 4194304int / (g.sector_size() as int),
            r.guard_band_sectors == 2 * r.alignment_sectors,
            r.min_partition_sectors == 2 * r.alignment_sectors,
            r.max_partitions == 4,
            r.treat_untested_as_unsafe,
            r.alignment_sectors <= 8192,
    {
        proof {
            use_type_invariant(g);
            g.lemma_valid();
        }
        let align = g.default_alignment_sectors();
        proof {
            let ss = g.sector_size();
            assert(ss == 512 || ss == 1024 || ss == 2048 || ss == 4096);
            if ss == 512 {
                assert(align == 8192);
            } else if ss == 1024 {
                assert(align == 4096);
            } else if ss == 2048 {
                assert(align == 2048);
            } else {
                assert(align == 1024);
            }
        }
        Self {
            guard_band_sectors: align * 2,
            alignment_sectors: align,
            min_partition_sectors: align * 2,
            max_partitions: 4,
            treat_untested_as_unsafe: true,
        }
    }

    /// Conservative variant: the recommended policy with its guard band
    /// multiplied by four.
    pub fn conservative_for(g: &DeviceGeometry) -> (r: Self)
        ensures
            r.alignment_sectors == 4194304int / (g.sector_size() as int),
            r.guard_band_sectors == 8 * r.alignment_sectors,
            r.min_partition_sectors == 2 * r.alignment_sectors,
            r.max_partitions == 4,
            r.treat_untested_as_unsafe,
    {
        let base = Self::recommended_for(g);
        Self { guard_band_sectors: base.guard_band_sectors * 4, ..base }
    }
}

/// Reasons a plan can be rejected.
#[derive(Debug, Clone, PartialEq, Eq)]
pub enum PlanError {
    /// A data partition covers a sector that was not approved.
    DataPartitionCoversUnsafeSector {
        /// Label of the offending partition.
        label: String,
        /// First problematic LBA found.
        lba: u64,
        /// State of that LBA.
        state: SectorState,
    },
    /// The filesystem's table cannot express the exclusion this area needs.
    ClusterMapCannotContainDefects {
        /// Label of the offending partition.
        label: String,
        /// Why the image could not be built.
        source: Fat32Error,
    },
    /// Two partitions overlap.
    OverlappingPartitions {
        /// First partition.
        a: String,
        /// Second partition.
        b: String,
    },
    /// A partition extends past the end of the device.
    OutOfBounds {
        /// Label of the partition.
        label: String,
        /// End of the partition.
        end: u64,
        /// Device size.
        total: u64,
    },
    /// More partitions than the table can hold.
    TooManyPartitions {
        /// Number planned.
        count: usize,
        /// The limit.
        max: usize,
    },
    /// An empty partition survived planning.
    EmptyPartition(String),
    /// A partition would sit on the partition table's own sector.
    OverlapsPartitionTable {
        /// Label of the partition.
        label: String,
        /// The invalid start.
        start: u64,
    },
}

/// Complete layout proposed for a device.
#[derive(Debug, Clone, PartialEq, Eq)]
pub struct PartitionPlan {
    /// Strategy that produced this plan.
    pub strategy: Strategy,
    /// Partitions, in ascending LBA order.
    pub partitions: Vec<PlannedPartition>,
    /// Geometry of the target device.
    pub geometry: DeviceGeometry,
    /// Total bytes usable by the user.
    pub usable_bytes: u64,
    /// Approved bytes discarded to margin, alignment, or table capacity.
    pub sacrificed_bytes: u64,
    /// Mechanism that keeps data off unapproved sectors.
    pub containment: Containment,
}

// ---------------------------------------------------------------------------
// What validation checks.
// ---------------------------------------------------------------------------

/// A partition that is empty, runs past the device or sits on the table.
pub open spec fn misplaced(p: PlannedPartition, total: u64) -> bool {
    p.range.spec_is_empty() || p.range.end() > total || p.range.start() == 0
}

/// The error naming a misplaced partition, by the first check it fails.
pub open spec fn misplaced_error(p: PlannedPartition, total: u64) -> PlanError {
    if p.range.spec_is_empty() {
        PlanError::EmptyPartition(p.label)
    } else if p.range.end() > total {
        PlanError::OutOfBounds { label: p.label, end: p.range.end(), total }
    } else {
        PlanError::OverlapsPartitionTable { label: p.label, start: 0 }
    }
}

/// Partitions `i < j` share a sector.
pub open spec fn overlapping(parts: Seq<PlannedPartition>, i: int, j: int) -> bool {
    0 <= i < j < parts.len() && parts[i].range.start() < parts[j].range.end() && parts[j].range.start()
        < parts[i].range.end()
}

/// `(i, j)` is the first overlapping pair in row-major order.
pub open spec fn first_overlap(parts: Seq<PlannedPartition>, i: int, j: int) -> bool {
    &&& overlapping(parts, i, j)
    &&& forall|i2: int, j2: int|
        #![trigger overlapping(parts, i2, j2)]
        overlapping(parts, i2, j2) ==> (i < i2 || (i == i2 && j <= j2))
}

/// Every sector of `r` that the map describes was proven good.
pub open spec fn proven(map: SectorMap, r: LbaRange) -> bool {
    forall|x: int|
        r.start() <= x < r.end() && x < map.total() ==> #[trigger] state_in(map.run_seq(), x)
            == SectorState::Good
}

/// `x` is the first sector of `r` that the map describes and did not prove
/// good.
pub open spec fn first_unapproved(map: SectorMap, r: LbaRange, x: int) -> bool {
    &&& r.start() <= x < r.end()
    &&& x < map.total()
    &&& state_in(map.run_seq(), x) != SectorState::Good
    &&& forall|y: int| r.start() <= y < x ==> #[trigger] state_in(map.run_seq(), y) == SectorState::Good
}

/// The volume the cluster-map strategy would build over `r` can be built:
/// the area is a FAT32 volume and its metadata lies on proven sectors.
pub open spec fn cluster_map_builds(map: SectorMap, r: LbaRange) -> bool {
    let planned = Fat32Layout::spec_plan(r.len(), map.spec_geometry().sector_size(), 0);
    &&& planned is Ok
    &&& forall|x: int|
        r.start() <= x < r.start() + planned->Ok_0.spec_metadata_sectors() && x < r.end()
            ==> !#[trigger] unproven(map.run_seq(), map.total(), x)
}

/// Clusters the volume over `r` would leave free, once every cluster with an
/// unproven sector and the root directory are taken out.
pub open spec fn cluster_map_free(map: SectorMap, r: LbaRange) -> int {
    let l = Fat32Layout::spec_plan(r.len(), map.spec_geometry().sector_size(), 0)->Ok_0;
    let free = l.spec_cluster_count() - unproven_clusters(
        map.run_seq(),
        map.total(),
        l,
        r.start() as int,
        r.end() as int,
    ).len();
    if free >= 1 {
        free - 1
    } else {
        0
    }
}

/// The partitions of `parts` with role `role`, in order.
pub open spec fn with_role(parts: Seq<PlannedPartition>, role: PartitionRole) -> Seq<PlannedPartition>
    decreases parts.len(),
{
    if parts.len() == 0 {
        Seq::empty()
    } else if parts.last().role == role {
        with_role(parts.drop_last(), role).push(parts.last())
    } else {
        with_role(parts.drop_last(), role)
    }
}

impl Clone for PlannedPartition {
    fn clone(&self) -> (r: Self)
        ensures
            r == *self,
    {
        PlannedPartition { range: self.range, role: self.role, mbr_type: self.mbr_type, label: self.label.clone() }
    }
}

impl PartitionPlan {
    fn partitions_with_role(&self, role: PartitionRole) -> (r: Vec<PlannedPartition>)
        ensures
            r@ == with_role(self.partitions@, role),
    {
        let ghost parts = self.partitions@;
        let mut out: Vec<PlannedPartition> = Vec::new();
        let mut i: usize = 0;
        proof {
            assert(parts.take(0) =~= Seq::<PlannedPartition>::empty());
        }
        while i < self.partitions.len()
            invariant
                parts == self.partitions@,
                i <= parts.len(),
                out@ == with_role(parts.take(i as int), role),
            decreases parts.len() - i,
        {
            proof {
                assert(parts.take(i + 1).drop_last() == parts.take(i as int));
                assert(parts.take(i + 1).last() == parts[i as int]);
            }
            if self.partitions[i].role == role {
                out.push(self.partitions[i].clone());
            }
            i = i + 1;
        }
        proof {
            assert(parts.take(parts.len() as int) == parts);
        }
        out
    }

    /// Partitions visible to the user, in table order.
    pub fn data_partitions(&self) -> (r: Vec<PlannedPartition>)
        ensures
            r@ == with_role(self.partitions@, PartitionRole::Data),
    {
        self.partitions_with_role(PartitionRole::Data)
    }

    /// Quarantine partitions, in table order.
    pub fn quarantine_partitions(&self) -> (r: Vec<PlannedPartition>)
        ensures
            r@ == with_role(self.partitions@, PartitionRole::Quarantine),
    {
        self.partitions_with_role(PartitionRole::Quarantine)
    }
}

/// Why the cluster-map volume over `r` cannot be built: the layout's refusal,
/// or the first unproven sector inside its metadata.
pub open spec fn image_refusal(map: SectorMap, r: LbaRange, e: Fat32Error) -> bool {
    let planned = Fat32Layout::spec_plan(r.len(), map.spec_geometry().sector_size(), 0);
    if planned is Err {
        e == planned->Err_0
    } else {
        e matches Fat32Error::DefectiveMetadata { bad_lba, metadata_sectors }
            && metadata_sectors == planned->Ok_0.spec_metadata_sectors() && first_unproven(
            map.run_seq(),
            map.total(),
            r.start() as int,
            r.end() as int,
            bad_lba as int,
        )
    }
}

/// A data partition meets what its containment requires.
pub open spec fn contained(map: SectorMap, c: Containment, p: PlannedPartition) -> bool {
    p.role == PartitionRole::Data ==> match c {
        Containment::PartitionBoundary => proven(map, p.range),
        Containment::FilesystemClusterMap => cluster_map_builds(map, p.range) && cluster_map_free(map, p.range) > 0,
    }
}

/// The error naming the first data partition that its containment fails.
pub open spec fn containment_error(map: SectorMap, c: Containment, p: PlannedPartition, e: PlanError) -> bool {
    match c {
        Containment::PartitionBoundary => exists|x: int|
            #[trigger] first_unapproved(map, p.range, x) && e == PlanError::DataPartitionCoversUnsafeSector {
                label: p.label,
                lba: x as u64,
                state: state_in(map.run_seq(), x),
            },
        Containment::FilesystemClusterMap => if cluster_map_builds(map, p.range) {
            e == PlanError::EmptyPartition(p.label)
        } else {
            e matches PlanError::ClusterMapCannotContainDefects { label, source } && label == p.label
                && image_refusal(map, p.range, source)
        },
    }
}

impl PartitionPlan {
    /// Checks that the plan is safe and structurally valid: the last barrier
    /// before any write.
    ///
    /// In order: the table's capacity; each partition's placement; overlaps;
    /// and then, against every run of the map, that each data partition holds
    /// nothing but proven sectors (or, for a cluster-map volume, that its table
    /// can withhold every cluster that is not).
    pub fn validate(&self, map: &SectorMap, max_partitions: usize) -> (r: Result<(), PlanError>)
        ensures
            validation_outcome(*self, *map, max_partitions, r),
    {
        let ghost parts = self.partitions@;
        let n = self.partitions.len();
        if n > max_partitions {
            return Err(PlanError::TooManyPartitions { count: n, max: max_partitions });
        }
        let total = self.geometry.total_sectors();
        let mut i: usize = 0;
        while i < n
            invariant
                parts == self.partitions@,
                n == parts.len(),
                n <= max_partitions,
                total == self.geometry.total_sectors(),
                i <= n,
                forall|k: int| 0 <= k < i ==> !#[trigger] misplaced(parts[k], total),
            decreases n - i,
        {
            let p = &self.partitions[i];
            proof {
                assert(parts[i as int] == *p);
            }
            if p.range.is_empty() {
                proof {
                    assert(misplaced(parts[i as int], total));
                }
                return Err(PlanError::EmptyPartition(p.label.clone()));
            }
            if p.range.end() > total {
                proof {
                    assert(misplaced(parts[i as int], total));
                }
                return Err(PlanError::OutOfBounds { label: p.label.clone(), end: p.range.end(), total });
            }
            if p.range.start() == 0 {
                proof {
                    assert(misplaced(parts[i as int], total));
                }
                return Err(PlanError::OverlapsPartitionTable { label: p.label.clone(), start: 0 });
            }
            i = i + 1;
        }
        let mut i: usize = 0;
        while i < n
            invariant
                parts == self.partitions@,
                n == parts.len(),
                n <= max_partitions,
                total == self.geometry.total_sectors(),
                i <= n,
                forall|k: int| 0 <= k < n ==> !#[trigger] misplaced(parts[k], total),
                forall|i2: int, j2: int| #[trigger] overlapping(parts, i2, j2) ==> i2 >= i,
            decreases n - i,
        {
            let mut j: usize = i + 1;
            while j < n
                invariant
                    parts == self.partitions@,
                    n == parts.len(),
                    n <= max_partitions,
                    total == self.geometry.total_sectors(),
                    i < n,
                    i + 1 <= j <= n,
                    forall|k: int| 0 <= k < n ==> !#[trigger] misplaced(parts[k], total),
                    forall|i2: int, j2: int| #[trigger] overlapping(parts, i2, j2) ==> i2 > i || (i2 == i && j2 >= j),
                decreases n - j,
            {
                let a = &self.partitions[i];
                let b = &self.partitions[j];
                proof {
                    assert(!misplaced(parts[i as int], total) && !misplaced(parts[j as int], total));
                }
                if a.range.intersects(&b.range) {
                    proof {
                        assert(overlapping(parts, i as int, j as int));
                        assert(first_overlap(parts, i as int, j as int));
                    }
                    return Err(PlanError::OverlappingPartitions { a: a.label.clone(), b: b.label.clone() });
                }
                j = j + 1;
            }
            i = i + 1;
        }
        match self.containment {
            Containment::PartitionBoundary => {
                let runs = map.runs();
                let ghost rs = map.run_seq();
                proof {
                    use_type_invariant(map);
                    map.lemma_wf();
                }
                let mut k: usize = 0;
                while k < n
                    invariant
                        parts == self.partitions@,
                        n == parts.len(),
                        total == self.geometry.total_sectors(),
                        self.containment == Containment::PartitionBoundary,
                        runs@ == rs,
                        rs == map.run_seq(),
                        map.wf(),
                        k <= n,
                        n <= max_partitions,
                        forall|k2: int| 0 <= k2 < n ==> !#[trigger] misplaced(parts[k2], total),
                        forall|i2: int, j2: int| !#[trigger] overlapping(parts, i2, j2),
                        forall|k2: int| 0 <= k2 < k ==> #[trigger] contained(*map, self.containment, parts[k2]),
                    decreases n - k,
                {
                    let p = &self.partitions[k];
                    if p.role == PartitionRole::Data {
                        let mut j: usize = 0;
                        while j < runs.len()
                            invariant
                                runs@ == rs,
                                rs == map.run_seq(),
                                map.wf(),
                                j <= rs.len(),
                                parts == self.partitions@,
                                k < n,
                                n == parts.len(),
                                parts[k as int] == *p,
                                p.role == PartitionRole::Data,
                                self.containment == Containment::PartitionBoundary,
                                n <= max_partitions,
                                total == self.geometry.total_sectors(),
                                forall|k2: int| 0 <= k2 < n ==> !#[trigger] misplaced(parts[k2], total),
                                forall|i2: int, j2: int| !#[trigger] overlapping(parts, i2, j2),
                                forall|k2: int| 0 <= k2 < k ==> #[trigger] contained(*map, self.containment, parts[k2]),
                                forall|x: int| p.range.start() <= x < p.range.end() && x < walk_start(rs, j as int)
                                    && x < map.total() ==> #[trigger] state_in(rs, x) == SectorState::Good,
                            decreases rs.len() - j,
                        {
                            let run = runs[j];
                            proof {
                                crate::sector_map::lemma_contiguous_at(rs, j as int);
                                assert forall|x: int| run.range.start() <= x < run.range.end() implies #[trigger] state_in(rs, x) == run.state by {
                                    crate::sector_map::lemma_state_in_run(rs, j as int, x);
                                }
                            }
                            if !run.state.is_usable() {
                                match run.range.intersection(&p.range) {
                                    Some(bad) => {
                                        proof {
                                            let x = bad.start() as int;
                                            if j + 1 < rs.len() {
                                                crate::sector_map::lemma_runs_ordered(rs, j as int, rs.len() - 1);
                                                crate::sector_map::lemma_contiguous_at(rs, rs.len() - 1);
                                            } else {
                                                assert(rs.last() == rs[j as int]);
                                            }
                                            assert(x < map.total());
                                            assert(state_in(rs, x) == run.state);
                                            assert(first_unapproved(*map, p.range, x));
                                            assert(parts[k as int] == *p);
                                            assert(!proven(*map, p.range));
                                            assert(!contained(*map, self.containment, parts[k as int]));
                                            assert(containment_error(*map, self.containment, parts[k as int], PlanError::DataPartitionCoversUnsafeSector {
                                                label: p.label,
                                                lba: bad.start(),
                                                state: run.state,
                                            }));
                                        }
                                        return Err(PlanError::DataPartitionCoversUnsafeSector {
                                            label: p.label.clone(),
                                            lba: bad.start(),
                                            state: run.state,
                                        });
                                    },
                                    None => {},
                                }
                            }
                            j = j + 1;
                        }
                        proof {
                            assert(proven(*map, p.range));
                        }
                    }
                    k = k + 1;
                }
            },
            Containment::FilesystemClusterMap => {
                let mut k: usize = 0;
                while k < n
                    invariant
                        parts == self.partitions@,
                        n == parts.len(),
                        self.containment == Containment::FilesystemClusterMap,
                        k <= n,
                        n <= max_partitions,
                        total == self.geometry.total_sectors(),
                        forall|k2: int| 0 <= k2 < n ==> !#[trigger] misplaced(parts[k2], total),
                        forall|i2: int, j2: int| !#[trigger] overlapping(parts, i2, j2),
                        forall|k2: int| 0 <= k2 < k ==> #[trigger] contained(*map, self.containment, parts[k2]),
                    decreases n - k,
                {
                    let p = &self.partitions[k];
                    if p.role == PartitionRole::Data {
                        proof {
                            assert(parts[k as int] == *p);
                        }
                        let image = match Fat32Image::new(map, &p.range, 0, "SALVAGE") {
                            Ok(img) => img,
                            Err(source) => {
                                proof {
                                    assert(!cluster_map_builds(*map, p.range));
                                    assert(image_refusal(*map, p.range, source));
                                    assert(!contained(*map, self.containment, parts[k as int]));
                                }
                                return Err(PlanError::ClusterMapCannotContainDefects { label: p.label.clone(), source });
                            },
                        };
                        let layout = image.layout();
                        proof {
                            use_type_invariant(&image);
                            use_type_invariant(layout);
                            layout.lemma_valid();
                            crate::fat32::lemma_free_clusters(
                                image,
                                map.run_seq(),
                                map.total(),
                                p.range.start() as int,
                                p.range.end() as int,
                            );
                        }
                        proof {
                            assert(cluster_map_builds(*map, p.range));
                        }
                        if image.usable_bytes() == 0 {
                            proof {
                                assert(image.spec_free_clusters() == 0) by (nonlinear_arith)
                                    requires
                                        image.spec_free_clusters() * layout.spec_sectors_per_cluster()
                                            * layout.spec_bytes_per_sector() == 0,
                                        layout.spec_sectors_per_cluster() >= 1,
                                        layout.spec_bytes_per_sector() >= 512,
                                        image.spec_free_clusters() >= 0,
                                ;
                                assert(!contained(*map, self.containment, parts[k as int]));
                            }
                            return Err(PlanError::EmptyPartition(p.label.clone()));
                        }
                        proof {
                            assert(image.spec_free_clusters() != 0) by (nonlinear_arith)
                                requires
                                    image.spec_free_clusters() * layout.spec_sectors_per_cluster()
                                        * layout.spec_bytes_per_sector() != 0,
                            ;
                            assert(contained(*map, self.containment, parts[k as int]));
                        }
                    }
                    k = k + 1;
                }
            },
        }
        Ok(())
    }
}

/// Where the walk over the map's runs has reached: the start of run `j`, or
/// past every run.
pub open spec fn walk_start(runs: Seq<crate::sector_map::Run>, j: int) -> int {
    if j < runs.len() {
        runs[j].range.start() as int
    } else {
        u64::MAX as int + 1
    }
}

// ---------------------------------------------------------------------------
// Interval sets.
// ---------------------------------------------------------------------------

/// Some range of `rs` holds `x`.
pub open spec fn covered(rs: Seq<LbaRange>, x: int) -> bool {
    exists|i: int| 0 <= i < rs.len() && (#[trigger] rs[i]).start() <= x < rs[i].end()
}

/// Non-empty ranges in ascending order, each ending strictly before the next
/// begins: the one canonical way to list a set of sectors.
pub open spec fn separated(rs: Seq<LbaRange>) -> bool {
    &&& forall|i: int| 0 <= i < rs.len() ==> (#[trigger] rs[i]).start() < rs[i].end()
    &&& forall|i: int, j: int| 0 <= i < j < rs.len() ==> (#[trigger] rs[i]).end() < (#[trigger] rs[j]).start()
}

/// Ranges in ascending order of start.
pub open spec fn sorted_by_start(rs: Seq<LbaRange>) -> bool {
    forall|i: int, j: int| 0 <= i < j < rs.len() ==> (#[trigger] rs[i]).start() <= (#[trigger] rs[j]).start()
}

/// `s` holds the ranges of `t`, as many of them, in address order.
pub open spec fn in_address_order(s: Seq<LbaRange>, t: Seq<LbaRange>) -> bool {
    &&& sorted_by_start(s)
    &&& s.len() == t.len()
    &&& forall|x: LbaRange| s.contains(x) <==> t.contains(x)
}

/// Inserts `r` in address order into `v`, which holds the ranges of `t`.
pub(crate) fn insert_in_order(v: &mut Vec<LbaRange>, r: LbaRange, Ghost(t): Ghost<Seq<LbaRange>>)
    requires
        in_address_order(old(v)@, t),
    ensures
        in_address_order(final(v)@, t.push(r)),
        forall|x: LbaRange| final(v)@.contains(x) <==> old(v)@.contains(x) || x == r,
        (forall|i: int, j: int| 0 <= i < old(v)@.len() && 0 <= j < old(v)@.len() && i != j ==> disjoint(
            #[trigger] old(v)@[i],
            #[trigger] old(v)@[j],
        )) && (forall|k: int| 0 <= k < old(v)@.len() ==> disjoint(#[trigger] old(v)@[k], r)) ==> forall|i: int, j: int|
            0 <= i < final(v)@.len() && 0 <= j < final(v)@.len() && i != j ==> disjoint(
                #[trigger] final(v)@[i],
                #[trigger] final(v)@[j],
            ),
{
    insert_by_start(v, r);
    proof {
        let t1 = t.push(r);
        assert forall|x: LbaRange| t1.contains(x) <==> (t.contains(x) || x == r) by {
            if t1.contains(x) && x != r {
                let k = choose|k: int| 0 <= k < t1.len() && t1[k] == x;
                assert(t[k] == x);
            }
            if t.contains(x) {
                let k = choose|k: int| 0 <= k < t.len() && t[k] == x;
                assert(t1[k] == x);
            }
            if x == r {
                assert(t1[t.len() as int] == x);
            }
        }
    }
}

/// Inserts `r` after every range starting at or before it.
#[verifier::spinoff_prover]
#[verifier::rlimit(40)]
pub(crate) fn insert_by_start(v: &mut Vec<LbaRange>, r: LbaRange)
    requires
        sorted_by_start(old(v)@),
    ensures
        sorted_by_start(final(v)@),
        final(v)@.len() == old(v)@.len() + 1,
        forall|x: LbaRange| final(v)@.contains(x) <==> old(v)@.contains(x) || x == r,
        (forall|i: int, j: int| 0 <= i < old(v)@.len() && 0 <= j < old(v)@.len() && i != j ==> disjoint(
            #[trigger] old(v)@[i],
            #[trigger] old(v)@[j],
        )) && (forall|k: int| 0 <= k < old(v)@.len() ==> disjoint(#[trigger] old(v)@[k], r)) ==> forall|i: int, j: int|
            0 <= i < final(v)@.len() && 0 <= j < final(v)@.len() && i != j ==> disjoint(
                #[trigger] final(v)@[i],
                #[trigger] final(v)@[j],
            ),
{
    let ghost before = v@;
    let mut pos: usize = 0;
    while pos < v.len() && v[pos].start() <= r.start()
        invariant
            v@ == before,
            pos <= v@.len(),
            forall|i: int| 0 <= i < pos ==> (#[trigger] v@[i]).start() <= r.start(),
        decreases v@.len() - pos,
    {
        pos = pos + 1;
    }
    v.insert(pos, r);
    proof {
        before.insert_ensures(pos as int, r);
        let after = v@;
        assert forall|i: int, j: int| 0 <= i < j < after.len() implies (#[trigger] after[i]).start()
            <= (#[trigger] after[j]).start() by {
            if j < pos {
            } else if j == pos {
            } else if i < pos {
                assert(after[j] == before[j - 1]);
                if pos < before.len() {
                    assert(before[pos as int].start() > r.start());
                    assert(before[i].start() <= before[j - 1].start());
                }
            } else if i == pos {
                assert(after[j] == before[j - 1]);
                assert(before[pos as int].start() > r.start());
                if j - 1 > pos {
                    assert(before[pos as int].start() <= before[j - 1].start());
                }
            } else {
                assert(after[i] == before[i - 1] && after[j] == before[j - 1]);
            }
        }
        assert forall|x: LbaRange| after.contains(x) <==> before.contains(x) || x == r by {
            if after.contains(x) {
                let k = choose|k: int| 0 <= k < after.len() && after[k] == x;
                if k < pos {
                    assert(before[k] == x);
                } else if k > pos {
                    assert(before[k - 1] == x);
                }
            }
            if before.contains(x) {
                let k = choose|k: int| 0 <= k < before.len() && before[k] == x;
                if k < pos {
                    assert(after[k] == x);
                } else {
                    assert(after[k + 1] == x);
                }
            }
            if x == r {
                assert(after[pos as int] == x);
            }
        }
        if (forall|i: int, j: int| 0 <= i < before.len() && 0 <= j < before.len() && i != j ==> disjoint(
            #[trigger] before[i],
            #[trigger] before[j],
        )) && (forall|k: int| 0 <= k < before.len() ==> disjoint(#[trigger] before[k], r)) {
            assert forall|i: int, j: int| 0 <= i < after.len() && 0 <= j < after.len() && i != j implies disjoint(
                #[trigger] after[i],
                #[trigger] after[j],
            ) by {
                let ii = if i < pos { i } else if i == pos { -1 } else { i - 1 };
                let jj = if j < pos { j } else if j == pos { -1 } else { j - 1 };
                if ii >= 0 && jj >= 0 {
                    assert(after[i] == before[ii] && after[j] == before[jj]);
                } else if ii < 0 {
                    assert(after[i] == r && after[j] == before[jj]);
                    assert(disjoint(before[jj], r));
                } else {
                    assert(after[j] == r && after[i] == before[ii]);
                    assert(disjoint(before[ii], r));
                }
            }
        }
    }
}

/// Merges ranges that overlap or abut into the canonical list of the sectors
/// they cover. Input may be in any order.
pub fn merge_ranges(ranges: Vec<LbaRange>) -> (out: Vec<LbaRange>)
    ensures
        separated(out@),
        forall|x: int| #[trigger] covered(out@, x) <==> covered(ranges@, x),
{
    let mut sorted: Vec<LbaRange> = Vec::new();
    let mut i: usize = 0;
    while i < ranges.len()
        invariant
            i <= ranges@.len(),
            sorted_by_start(sorted@),
            forall|k: int| 0 <= k < sorted@.len() ==> (#[trigger] sorted@[k]).start() < sorted@[k].end(),
            forall|x: int| #[trigger] covered(sorted@, x) <==> covered(ranges@.take(i as int), x),
        decreases ranges@.len() - i,
    {
        let r = ranges[i];
        let ghost before = sorted@;
        if !r.is_empty() {
            insert_by_start(&mut sorted, r);
        }
        proof {
            let t = ranges@.take(i + 1);
            assert forall|k: int| 0 <= k < sorted@.len() implies (#[trigger] sorted@[k]).start() < sorted@[k].end() by {
                assert(sorted@.contains(sorted@[k]));
                if before.contains(sorted@[k]) {
                    let m = choose|m: int| 0 <= m < before.len() && before[m] == sorted@[k];
                }
            }
            assert forall|x: int| #[trigger] covered(sorted@, x) <==> covered(t, x) by {
                if covered(sorted@, x) {
                    let k = choose|k: int| 0 <= k < sorted@.len() && (#[trigger] sorted@[k]).start() <= x < sorted@[k].end();
                    assert(sorted@.contains(sorted@[k]));
                    if before.contains(sorted@[k]) {
                        let m = choose|m: int| 0 <= m < before.len() && before[m] == sorted@[k];
                        assert(covered(before, x));
                        let q = choose|q: int| 0 <= q < ranges@.take(i as int).len() && (#[trigger] ranges@.take(i as int)[q]).start() <= x < ranges@.take(i as int)[q].end();
                        assert(t[q] == ranges@.take(i as int)[q]);
                    } else {
                        assert(t[i as int] == r);
                    }
                }
                if covered(t, x) {
                    let q = choose|q: int| 0 <= q < t.len() && (#[trigger] t[q]).start() <= x < t[q].end();
                    if q < i {
                        assert(ranges@.take(i as int)[q] == t[q]);
                        assert(covered(before, x));
                        let m = choose|m: int| 0 <= m < before.len() && (#[trigger] before[m]).start() <= x < before[m].end();
                        assert(before.contains(before[m]));
                        assert(sorted@.contains(before[m]));
                        let k = choose|k: int| 0 <= k < sorted@.len() && sorted@[k] == before[m];
                    } else {
                        assert(t[q] == r);
                        assert(sorted@.contains(r));
                        let k = choose|k: int| 0 <= k < sorted@.len() && sorted@[k] == r;
                    }
                }
            }
        }
        i = i + 1;
    }
    proof {
        assert(ranges@.take(ranges@.len() as int) == ranges@);
    }
    let mut out: Vec<LbaRange> = Vec::new();
    let mut j: usize = 0;
    while j < sorted.len()
        invariant
            j <= sorted@.len(),
            sorted_by_start(sorted@),
            forall|k: int| 0 <= k < sorted@.len() ==> (#[trigger] sorted@[k]).start() < sorted@[k].end(),
            forall|x: int| #[trigger] covered(sorted@, x) <==> covered(ranges@, x),
            separated(out@),
            j > 0 ==> out@.len() > 0 && out@.last().start() <= sorted@[j - 1].start(),
            j == 0 ==> out@.len() == 0,
            forall|k: int| j <= k < sorted@.len() && out@.len() > 0 ==> out@.last().start() <= (#[trigger] sorted@[k]).start(),
            forall|x: int| #[trigger] covered(out@, x) <==> covered(sorted@.take(j as int), x),
        decreases sorted@.len() - j,
    {
        let r = sorted[j];
        let ghost before = out@;
        let n = out.len();
        if n > 0 && out[n - 1].touches_or_intersects(&r) {
            let last = out[n - 1];
            let merged = last.hull(&r);
            out.set(n - 1, merged);
            proof {
                assert forall|x: int| #[trigger] covered(out@, x) <==> covered(sorted@.take(j + 1), x) by {
                    let t = sorted@.take(j + 1);
                    assert(t[j as int] == r);
                    if covered(out@, x) {
                        let k = choose|k: int| 0 <= k < out@.len() && (#[trigger] out@[k]).start() <= x < out@[k].end();
                        if k < n - 1 {
                            assert(out@[k] == before[k]);
                            assert(covered(before, x));
                        } else if x < last.end() {
                            assert(before[n - 1] == last);
                            assert(covered(before, x));
                        } else {
                            assert(r.start() <= x);
                        }
                        if covered(before, x) {
                            let q = choose|q: int| 0 <= q < sorted@.take(j as int).len() && (#[trigger] sorted@.take(j as int)[q]).start() <= x < sorted@.take(j as int)[q].end();
                            assert(t[q] == sorted@.take(j as int)[q]);
                        }
                    }
                    if covered(t, x) {
                        let q = choose|q: int| 0 <= q < t.len() && (#[trigger] t[q]).start() <= x < t[q].end();
                        if q < j {
                            assert(sorted@.take(j as int)[q] == t[q]);
                            assert(covered(before, x));
                            let k = choose|k: int| 0 <= k < before.len() && (#[trigger] before[k]).start() <= x < before[k].end();
                            if k < n - 1 {
                                assert(out@[k] == before[k]);
                            } else {
                                assert(out@[n - 1].start() <= x < out@[n - 1].end());
                            }
                        } else {
                            assert(out@[n - 1].start() <= x < out@[n - 1].end());
                        }
                    }
                }
                assert forall|i2: int, j2: int| 0 <= i2 < j2 < out@.len() implies (#[trigger] out@[i2]).end() < (#[trigger] out@[j2]).start() by {
                    assert(before[i2].end() < before[j2].start());
                }
            }
        } else {
            out.push(r);
            proof {
                assert forall|x: int| #[trigger] covered(out@, x) <==> covered(sorted@.take(j + 1), x) by {
                    let t = sorted@.take(j + 1);
                    assert(t[j as int] == r);
                    if covered(out@, x) {
                        let k = choose|k: int| 0 <= k < out@.len() && (#[trigger] out@[k]).start() <= x < out@[k].end();
                        if k < n {
                            assert(out@[k] == before[k]);
                            assert(covered(before, x));
                            let q = choose|q: int| 0 <= q < sorted@.take(j as int).len() && (#[trigger] sorted@.take(j as int)[q]).start() <= x < sorted@.take(j as int)[q].end();
                            assert(t[q] == sorted@.take(j as int)[q]);
                        }
                    }
                    if covered(t, x) {
                        let q = choose|q: int| 0 <= q < t.len() && (#[trigger] t[q]).start() <= x < t[q].end();
                        if q < j {
                            assert(sorted@.take(j as int)[q] == t[q]);
                            assert(covered(before, x));
                            let k = choose|k: int| 0 <= k < before.len() && (#[trigger] before[k]).start() <= x < before[k].end();
                            assert(out@[k] == before[k]);
                        } else {
                            assert(out@[n as int] == r);
                        }
                    }
                }
                assert forall|i2: int, j2: int| 0 <= i2 < j2 < out@.len() implies (#[trigger] out@[i2]).end() < (#[trigger] out@[j2]).start() by {
                    if j2 < n {
                        assert(before[i2].end() < before[j2].start());
                    } else if i2 < n - 1 {
                        assert(before[i2].end() < before[n - 1].start());
                        assert(before[n - 1].start() <= r.start());
                    }
                }
            }
        }
        j = j + 1;
    }
    proof {
        assert(sorted@.take(sorted@.len() as int) == sorted@);
    }
    out
}

/// The sectors of `bounds` that no range of `ranges` covers, listed
/// canonically. `ranges` must already be merged.
pub fn complement(bounds: LbaRange, ranges: &[LbaRange]) -> (out: Vec<LbaRange>)
    requires
        separated(ranges@),
    ensures
        separated(out@),
        forall|x: int| #[trigger] covered(out@, x) <==> bounds.start() <= x < bounds.end() && !covered(ranges@, x),
{
    let ghost rs = ranges@;
    let mut out: Vec<LbaRange> = Vec::new();
    let mut cursor = bounds.start();
    let mut i: usize = 0;
    let mut done = false;
    while i < ranges.len() && !done
        invariant
            rs == ranges@,
            separated(rs),
            i <= rs.len(),
            bounds.start() <= cursor,
            done ==> cursor >= bounds.end(),
            forall|k: int| 0 <= k < i ==> (#[trigger] rs[k]).end() <= cursor,
            separated(out@),
            out@.len() > 0 ==> out@.last().end() < cursor,
            out@.len() > 0 ==> out@.last().end() <= bounds.end(),
            forall|x: int| #[trigger] covered(out@, x) <==> bounds.start() <= x < cursor && x < bounds.end() && !covered(rs, x),
        decreases rs.len() - i,
    {
        let r = ranges[i];
        let ghost old_cursor = cursor as int;
        let ghost before = out@;
        if r.end() > cursor {
            if r.start() > cursor {
                let stop = if r.start() < bounds.end() {
                    r.start()
                } else {
                    bounds.end()
                };
                let gap = LbaRange::from_bounds(cursor, stop);
                if !gap.is_empty() {
                    out.push(gap);
                }
                proof {
                    assert forall|x: int| #[trigger] covered(out@, x) <==> bounds.start() <= x < r.start() && x < bounds.end() && !covered(rs, x) by {
                        if covered(rs, x) && old_cursor <= x < r.start() {
                            let k = choose|k: int| 0 <= k < rs.len() && (#[trigger] rs[k]).start() <= x < rs[k].end();
                            if k < i {
                            } else if k > i {
                                assert(rs[i as int].end() < rs[k].start());
                            }
                        }
                        if covered(out@, x) {
                            let k = choose|k: int| 0 <= k < out@.len() && (#[trigger] out@[k]).start() <= x < out@[k].end();
                            if k < before.len() {
                                assert(out@[k] == before[k]);
                                assert(covered(before, x));
                            }
                        }
                        if bounds.start() <= x < old_cursor && x < bounds.end() && !covered(rs, x) {
                            assert(covered(before, x));
                            let k = choose|k: int| 0 <= k < before.len() && (#[trigger] before[k]).start() <= x < before[k].end();
                            assert(out@[k] == before[k]);
                        }
                        if old_cursor <= x < r.start() && x < bounds.end() && !covered(rs, x) {
                            assert(out@[before.len() as int] == gap);
                        }
                    }
                    assert forall|i2: int, j2: int| 0 <= i2 < j2 < out@.len() implies (#[trigger] out@[i2]).end() < (#[trigger] out@[j2]).start() by {
                        if j2 < before.len() {
                            assert(before[i2].end() < before[j2].start());
                        } else {
                            assert(out@[i2] == before[i2]);
                            if i2 < before.len() - 1 {
                                assert(before[i2].end() < before[before.len() - 1].start());
                            }
                        }
                    }
                }
            }
            let ghost mid_out = out@;
            cursor = if cursor > r.end() {
                cursor
            } else {
                r.end()
            };
            proof {
                assert forall|x: int| #[trigger] covered(out@, x) <==> bounds.start() <= x < cursor && x < bounds.end() && !covered(rs, x) by {
                    if r.start() <= x < r.end() {
                        assert(covered(rs, x)) by {
                            assert(rs[i as int].start() <= x < rs[i as int].end());
                        }
                    }
                }
                assert forall|k: int| 0 <= k < i + 1 implies (#[trigger] rs[k]).end() <= cursor by {
                }
            }
            if cursor >= bounds.end() {
                done = true;
            }
        } else {
            proof {
                assert forall|k: int| 0 <= k < i + 1 implies (#[trigger] rs[k]).end() <= cursor by {
                }
            }
        }
        i = i + 1;
    }
    let ghost before = out@;
    if cursor < bounds.end() {
        let tail = LbaRange::from_bounds(cursor, bounds.end());
        out.push(tail);
        proof {
            assert forall|x: int| #[trigger] covered(out@, x) <==> bounds.start() <= x < bounds.end() && !covered(rs, x) by {
                if cursor <= x < bounds.end() {
                    assert(out@[before.len() as int] == tail);
                    if covered(rs, x) {
                        let k = choose|k: int| 0 <= k < rs.len() && (#[trigger] rs[k]).start() <= x < rs[k].end();
                        assert(k < i);
                    }
                }
                if covered(out@, x) {
                    let k = choose|k: int| 0 <= k < out@.len() && (#[trigger] out@[k]).start() <= x < out@[k].end();
                    if k < before.len() {
                        assert(out@[k] == before[k]);
                        assert(covered(before, x));
                    }
                }
                if bounds.start() <= x < cursor && !covered(rs, x) {
                    assert(covered(before, x));
                    let k = choose|k: int| 0 <= k < before.len() && (#[trigger] before[k]).start() <= x < before[k].end();
                    assert(out@[k] == before[k]);
                }
            }
            assert forall|i2: int, j2: int| 0 <= i2 < j2 < out@.len() implies (#[trigger] out@[i2]).end() < (#[trigger] out@[j2]).start() by {
                if j2 < before.len() {
                    assert(before[i2].end() < before[j2].start());
                } else {
                    assert(out@[i2] == before[i2]);
                    if i2 < before.len() - 1 {
                        assert(before[i2].end() < before[before.len() - 1].start());
                    }
                }
            }
        }
    }
    out
}

// ---------------------------------------------------------------------------
// Condemned area.
// ---------------------------------------------------------------------------

/// A state the policy keeps data away from: anything not proven good, except
/// never-inspected area when the policy allows it.
pub open spec fn condemns(p: PlanningPolicy, s: SectorState) -> bool {
    !s.spec_is_usable() && (s == SectorState::Untested ==> p.treat_untested_as_unsafe)
}

/// `r` dilated by the guard band and grown to alignment boundaries.
pub open spec fn fence(r: LbaRange, p: PlanningPolicy) -> (u64, u64) {
    let s = sat_sub(r.start(), p.guard_band_sectors);
    let e = sat_add(r.end(), p.guard_band_sectors);
    if p.alignment_sectors <= 1 {
        (s, e)
    } else {
        (round_down(s, p.alignment_sectors), round_up_sat(e, p.alignment_sectors))
    }
}

/// `x` lies inside the fence of some condemned run.
pub open spec fn condemned_at(runs: Seq<Run>, p: PlanningPolicy, x: int) -> bool {
    exists|i: int|
        0 <= i < runs.len() && condemns(p, (#[trigger] runs[i]).state) && fence(runs[i].range, p).0 <= x
            < fence(runs[i].range, p).1
}

/// Regions that may not receive data, already dilated, aligned outward and
/// merged, in ascending order.
pub fn condemned_ranges(map: &SectorMap, policy: &PlanningPolicy) -> (out: Vec<LbaRange>)
    ensures
        separated(out@),
        forall|x: int| #[trigger] covered(out@, x) <==> condemned_at(map.run_seq(), *policy, x),
{
    let runs = map.runs();
    let ghost rs = map.run_seq();
    let mut raw: Vec<LbaRange> = Vec::new();
    let mut i: usize = 0;
    while i < runs.len()
        invariant
            runs@ == rs,
            i <= rs.len(),
            forall|x: int| #[trigger] covered(raw@, x) <==> condemned_at(rs.take(i as int), *policy, x),
        decreases rs.len() - i,
    {
        let run = runs[i];
        let ghost before = raw@;
        let wanted = if run.state.is_usable() {
            false
        } else if run.state == SectorState::Untested {
            policy.treat_untested_as_unsafe
        } else {
            true
        };
        if wanted {
            let fenced = run.range.expanded_by(policy.guard_band_sectors).aligned_outward(policy.alignment_sectors);
            raw.push(fenced);
            proof {
                assert(fenced.start() == fence(run.range, *policy).0 && fenced.end() == fence(run.range, *policy).1);
            }
        }
        proof {
            let t = rs.take(i + 1);
            assert(t[i as int] == run);
            assert(wanted == condemns(*policy, run.state));
            assert(wanted ==> raw@ == before.push(raw@[before.len() as int]));
            assert(!wanted ==> raw@ == before);
            assert forall|x: int| #[trigger] covered(raw@, x) <==> condemned_at(t, *policy, x) by {
                let pre = rs.take(i as int);
                assert(covered(before, x) <==> condemned_at(pre, *policy, x));
                if covered(raw@, x) {
                    let k = choose|k: int| 0 <= k < raw@.len() && (#[trigger] raw@[k]).start() <= x < raw@[k].end();
                    if k < before.len() {
                        assert(raw@[k] == before[k]);
                        assert(covered(before, x));
                        let q = choose|q: int| 0 <= q < pre.len() && condemns(*policy, (#[trigger] pre[q]).state)
                            && fence(pre[q].range, *policy).0 <= x < fence(pre[q].range, *policy).1;
                        assert(t[q] == pre[q]);
                    } else {
                        assert(condemns(*policy, t[i as int].state));
                    }
                }
                if condemned_at(t, *policy, x) {
                    let q = choose|q: int| 0 <= q < t.len() && condemns(*policy, (#[trigger] t[q]).state)
                        && fence(t[q].range, *policy).0 <= x < fence(t[q].range, *policy).1;
                    if q < i {
                        assert(pre[q] == t[q]);
                        assert(condemned_at(pre, *policy, x));
                        let k = choose|k: int| 0 <= k < before.len() && (#[trigger] before[k]).start() <= x < before[k].end();
                        assert(raw@[k] == before[k]);
                    } else {
                        assert(raw@[before.len() as int].start() <= x < raw@[before.len() as int].end());
                    }
                }
            }
        }
        i = i + 1;
    }
    proof {
        assert(rs.take(rs.len() as int) == rs);
    }
    merge_ranges(raw)
}

/// A copy of the map in which every proven-good sector inside a condemned
/// region reads as fenced: it shows what the guard band costs. The measured
/// map stays the evidence of what was measured.
pub fn fenced_view(map: &SectorMap, policy: &PlanningPolicy) -> (r: SectorMap)
    ensures
        fenced_view_of(r, *map, *policy),
        r.spec_geometry() == map.spec_geometry(),
        r.alias_seq() == map.alias_seq(),
        forall|x: int|
            0 <= x < map.total() ==> #[trigger] r.state(x) == if map.state(x) == SectorState::Good
                && condemned_at(map.run_seq(), *policy, x) {
                SectorState::Fenced
            } else {
                map.state(x)
            },
{
    proof {
        use_type_invariant(map);
        map.lemma_wf();
    }
    let mut out = map.clone();
    let regions = condemned_ranges(map, policy);
    let runs = map.runs();
    let ghost rs = map.run_seq();
    let mut a: usize = 0;
    while a < regions.len()
        invariant
            runs@ == rs,
            rs == map.run_seq(),
            map.wf(),
            a <= regions@.len(),
            out.spec_geometry() == map.spec_geometry(),
            out.alias_seq() == map.alias_seq(),
            forall|x: int|
                0 <= x < map.total() ==> #[trigger] out.state(x) == if map.state(x) == SectorState::Good
                    && covered(regions@.take(a as int), x) {
                    SectorState::Fenced
                } else {
                    map.state(x)
                },
        decreases regions@.len() - a,
    {
        let region = regions[a];
        let mut j: usize = 0;
        while j < runs.len()
            invariant
                runs@ == rs,
                rs == map.run_seq(),
                map.wf(),
                a < regions@.len(),
                region == regions@[a as int],
                j <= rs.len(),
                out.spec_geometry() == map.spec_geometry(),
                out.alias_seq() == map.alias_seq(),
                forall|x: int|
                    0 <= x < map.total() ==> #[trigger] out.state(x) == if map.state(x) == SectorState::Good
                        && (covered(regions@.take(a as int), x) || (region.start() <= x < region.end() && x
                        < crate::fat32::walk_bound(rs, map.total(), j as int))) {
                        SectorState::Fenced
                    } else {
                        map.state(x)
                    },
            decreases rs.len() - j,
        {
            let run = runs[j];
            proof {
                crate::sector_map::lemma_contiguous_at(rs, j as int);
                assert forall|x: int| run.range.start() <= x < run.range.end() implies #[trigger] state_in(rs, x) == run.state by {
                    crate::sector_map::lemma_state_in_run(rs, j as int, x);
                }
                if j + 1 < rs.len() {
                    crate::sector_map::lemma_contiguous_at(rs, j + 1);
                }
            }
            let ghost before = out;
            if run.state == SectorState::Good {
                match run.range.intersection(&region) {
                    Some(overlap) => {
                        out.mark(overlap, SectorState::Fenced);
                    },
                    None => {},
                }
            }
            proof {
                assert forall|x: int|
                    0 <= x < map.total() implies #[trigger] out.state(x) == if map.state(x) == SectorState::Good
                        && (covered(regions@.take(a as int), x) || (region.start() <= x < region.end() && x
                        < crate::fat32::walk_bound(rs, map.total(), j + 1))) {
                        SectorState::Fenced
                    } else {
                        map.state(x)
                    } by {
                    if j + 1 >= rs.len() {
                        assert(rs.last() == rs[j as int]);
                    }
                    if run.range.start() <= x < run.range.end() {
                        assert(map.state(x) == run.state);
                    }
                    assert(before.state(x) == if map.state(x) == SectorState::Good
                        && (covered(regions@.take(a as int), x) || (region.start() <= x < region.end() && x
                        < crate::fat32::walk_bound(rs, map.total(), j as int))) {
                        SectorState::Fenced
                    } else {
                        map.state(x)
                    });
                }
            }
            j = j + 1;
        }
        proof {
            assert forall|x: int| 0 <= x < map.total() implies #[trigger] covered(regions@.take(a + 1), x)
                <==> covered(regions@.take(a as int), x) || (region.start() <= x < region.end()) by {
                let t = regions@.take(a + 1);
                assert(t[a as int] == region);
                if covered(t, x) {
                    let k = choose|k: int| 0 <= k < t.len() && (#[trigger] t[k]).start() <= x < t[k].end();
                    if k < a {
                        assert(regions@.take(a as int)[k] == t[k]);
                    }
                }
                if covered(regions@.take(a as int), x) {
                    let k = choose|k: int| 0 <= k < regions@.take(a as int).len() && (#[trigger] regions@.take(a as int)[k]).start() <= x < regions@.take(a as int)[k].end();
                    assert(t[k] == regions@.take(a as int)[k]);
                }
            }
        }
        a = a + 1;
    }
    proof {
        assert(regions@.take(regions@.len() as int) == regions@);
    }
    out
}

// ---------------------------------------------------------------------------
// Candidate data areas.
// ---------------------------------------------------------------------------

/// `a` comes no later than `b` when ranking areas: larger first, then earlier.
pub open spec fn ranks_before(a: LbaRange, b: LbaRange) -> bool {
    a.len() > b.len() || (a.len() == b.len() && a.start() <= b.start())
}

/// Ranges ranked largest first, ties by address.
pub open spec fn ranked(rs: Seq<LbaRange>) -> bool {
    forall|i: int, j: int| 0 <= i < j < rs.len() ==> ranks_before(#[trigger] rs[i], #[trigger] rs[j])
}

/// `g` is a maximal interval of `span` free of condemned sectors.
pub open spec fn free_gap(runs: Seq<Run>, p: PlanningPolicy, lo: int, hi: int, g: LbaRange) -> bool {
    &&& lo <= g.start() < g.end() <= hi
    &&& forall|x: int| g.start() <= x < g.end() ==> !#[trigger] condemned_at(runs, p, x)
    &&& (g.start() == lo || condemned_at(runs, p, g.start() - 1))
    &&& (g.end() == hi || condemned_at(runs, p, g.end() as int))
}

/// The first sector of the data area: past the partition table, on the first
/// alignment multiple and never before sector 2048.
pub open spec fn data_head(p: PlanningPolicy) -> u64 {
    if p.alignment_sectors >= 2048 {
        p.alignment_sectors
    } else {
        2048
    }
}

/// The span data may occupy on a device of `total` sectors.
pub open spec fn data_span(p: PlanningPolicy, total: u64) -> (u64, u64) {
    (if data_head(p) <= total {
        data_head(p)
    } else {
        total
    }, total)
}

/// The members of a canonical list are the maximal intervals of what it covers.
proof fn lemma_canonical_members(rs: Seq<LbaRange>, runs: Seq<Run>, p: PlanningPolicy, span: LbaRange)
    requires
        separated(rs),
        forall|x: int| #[trigger] covered(rs, x) <==> span.start() <= x < span.end() && !condemned_at(runs, p, x),
    ensures
        forall|g: LbaRange| rs.contains(g) <==> free_gap(runs, p, span.start() as int, span.end() as int, g),
{
    assert forall|g: LbaRange| rs.contains(g) <==> free_gap(runs, p, span.start() as int, span.end() as int, g) by {
        if rs.contains(g) {
            let k = choose|k: int| 0 <= k < rs.len() && rs[k] == g;
            assert forall|x: int| g.start() <= x < g.end() implies !#[trigger] condemned_at(runs, p, x) by {
                assert(covered(rs, x));
            }
            assert(span.start() <= g.start() < g.end() <= span.end()) by {
                assert(covered(rs, g.start() as int));
                assert(covered(rs, g.end() - 1));
            }
            if g.start() != span.start() {
                let y = g.start() - 1;
                if !condemned_at(runs, p, y) {
                    assert(covered(rs, y));
                    let m = choose|m: int| 0 <= m < rs.len() && (#[trigger] rs[m]).start() <= y < rs[m].end();
                    if m < k {
                        assert(rs[m].end() < rs[k].start());
                    } else if m > k {
                        assert(rs[k].end() < rs[m].start());
                    }
                }
            }
            if g.end() != span.end() {
                let y = g.end() as int;
                if !condemned_at(runs, p, y) {
                    assert(covered(rs, y));
                    let m = choose|m: int| 0 <= m < rs.len() && (#[trigger] rs[m]).start() <= y < rs[m].end();
                    if m < k {
                        assert(rs[m].end() < rs[k].start());
                    } else if m > k {
                        assert(rs[k].end() < rs[m].start());
                    }
                }
            }
        }
        if free_gap(runs, p, span.start() as int, span.end() as int, g) {
            assert(covered(rs, g.start() as int));
            let k = choose|k: int| 0 <= k < rs.len() && (#[trigger] rs[k]).start() <= g.start() < rs[k].end();
            let r = rs[k];
            if r.start() < g.start() {
                assert(covered(rs, g.start() - 1)) by {
                    assert(rs[k].start() <= g.start() - 1 < rs[k].end());
                }
            }
            if r.start() > g.start() {
            }
            assert(r.start() == g.start());
            if r.end() < g.end() {
                assert(!covered(rs, r.end() as int)) by {
                    if covered(rs, r.end() as int) {
                        let m = choose|m: int| 0 <= m < rs.len() && (#[trigger] rs[m]).start() <= r.end() < rs[m].end();
                        if m < k {
                            assert(rs[m].end() < rs[k].start());
                        } else if m > k {
                            assert(rs[k].end() < rs[m].start());
                        }
                    }
                }
            }
            if r.end() > g.end() {
                assert(covered(rs, g.end() as int)) by {
                    assert(rs[k].start() <= g.end() < rs[k].end());
                }
            }
            assert(r.end() == g.end());
            assert(r == g) by {
                crate::geometry::LbaRange::lemma_ext(r, g);
            }
        }
    }
}

/// Inserts `r` after every range ranking at or before it.
#[verifier::spinoff_prover]
#[verifier::rlimit(40)]
fn insert_ranked(v: &mut Vec<LbaRange>, r: LbaRange)
    requires
        ranked(old(v)@),
    ensures
        ranked(final(v)@),
        final(v)@.len() == old(v)@.len() + 1,
        forall|x: LbaRange| final(v)@.contains(x) <==> old(v)@.contains(x) || x == r,
        (forall|p: int, q: int| 0 <= p < q < old(v)@.len() && (#[trigger] old(v)@[p]).len() > 0 ==> old(v)@[p] != #[trigger] old(v)@[q])
            && (r.len() > 0 ==> !old(v)@.contains(r)) ==> forall|p: int, q: int|
            0 <= p < q < final(v)@.len() && (#[trigger] final(v)@[p]).len() > 0 ==> final(v)@[p] != #[trigger] final(v)@[q],
{
    let ghost before = v@;
    let mut pos: usize = 0;
    while pos < v.len() && (v[pos].len() > r.len() || (v[pos].len() == r.len() && v[pos].start() <= r.start()))
        invariant
            v@ == before,
            pos <= v@.len(),
            forall|i: int| 0 <= i < pos ==> ranks_before(#[trigger] v@[i], r),
        decreases v@.len() - pos,
    {
        pos = pos + 1;
    }
    v.insert(pos, r);
    proof {
        before.insert_ensures(pos as int, r);
        let after = v@;
        assert forall|i: int, j: int| 0 <= i < j < after.len() implies ranks_before(#[trigger] after[i], #[trigger] after[j]) by {
            if j < pos {
            } else if j == pos {
            } else if i < pos {
                assert(after[j] == before[j - 1]);
                if pos < before.len() {
                    assert(!ranks_before(before[pos as int], r));
                    assert(ranks_before(before[i], before[j - 1]));
                }
            } else if i == pos {
                assert(after[j] == before[j - 1]);
                assert(!ranks_before(before[pos as int], r));
                if j - 1 > pos {
                    assert(ranks_before(before[pos as int], before[j - 1]));
                }
            } else {
                assert(after[i] == before[i - 1] && after[j] == before[j - 1]);
            }
        }
        assert forall|x: LbaRange| after.contains(x) <==> before.contains(x) || x == r by {
            if after.contains(x) {
                let k = choose|k: int| 0 <= k < after.len() && after[k] == x;
                if k < pos {
                    assert(before[k] == x);
                } else if k > pos {
                    assert(before[k - 1] == x);
                }
            }
            if before.contains(x) {
                let k = choose|k: int| 0 <= k < before.len() && before[k] == x;
                if k < pos {
                    assert(after[k] == x);
                } else {
                    assert(after[k + 1] == x);
                }
            }
            if x == r {
                assert(after[pos as int] == x);
            }
        }
        if (forall|p: int, q: int| 0 <= p < q < before.len() && (#[trigger] before[p]).len() > 0 ==> before[p] != #[trigger] before[q])
            && (r.len() > 0 ==> !before.contains(r)) {
            assert forall|p: int, q: int| 0 <= p < q < after.len() && (#[trigger] after[p]).len() > 0 implies after[p] != #[trigger] after[q] by {
                let pp = if p < pos { p } else if p == pos { -1 } else { p - 1 };
                let qq = if q < pos { q } else if q == pos { -1 } else { q - 1 };
                if pp >= 0 && qq >= 0 {
                    assert(after[p] == before[pp] && after[q] == before[qq]);
                    if pp < qq {
                        assert(before[pp] != before[qq]);
                    }
                } else if pp < 0 {
                    assert(after[p] == r);
                    assert(after[q] == before[qq]);
                    assert(before.contains(before[qq]));
                } else {
                    assert(after[q] == r);
                    assert(after[p] == before[pp]);
                    if after[p] == after[q] {
                        assert(before.contains(before[pp]));
                    }
                }
            }
        }
    }
}

/// `g` shrunk inward to alignment boundaries, as `LbaRange::aligned_inward`
/// computes it.
pub open spec fn inward(g: LbaRange, a: u64) -> (u64, u64) {
    if a <= 1 {
        (g.start(), g.end())
    } else {
        let s = round_up_sat(g.start(), a);
        let e = round_down(g.end(), a);
        (s, if e <= s {
            s
        } else {
            e
        })
    }
}

/// `c` is the aligned part of a maximal free interval of the data span, large
/// enough to hold a partition.
pub open spec fn candidate(map: SectorMap, p: PlanningPolicy, c: LbaRange) -> bool {
    let (lo, hi) = data_span(p, map.total());
    exists|g: LbaRange|
        #[trigger] free_gap(map.run_seq(), p, lo as int, hi as int, g) && c.start() == inward(
            g,
            p.alignment_sectors,
        ).0 && c.end() == inward(g, p.alignment_sectors).1 && c.len() >= p.min_partition_sectors
}

/// Every sector of `c` lies in the data span and outside every condemned region.
pub open spec fn clear_of_condemned(map: SectorMap, p: PlanningPolicy, c: LbaRange) -> bool {
    forall|x: int|
        c.start() <= x < c.end() ==> data_head(p) <= x && x < map.total() && !#[trigger] condemned_at(
            map.run_seq(),
            p,
            x,
        )
}

/// Areas eligible to hold data: the maximal free intervals of the data span,
/// aligned inward, at least the minimum partition size, ranked largest first
/// and then by address.
#[verifier::spinoff_prover]
pub fn candidate_ranges(map: &SectorMap, policy: &PlanningPolicy) -> (out: Vec<LbaRange>)
    ensures
        ranked(out@),
        forall|c: LbaRange| #[trigger] out@.contains(c) <==> candidate(*map, *policy, c),
        forall|i: int, j: int|
            0 <= i < j < out@.len() && (#[trigger] out@[i]).len() > 0 ==> out@[i] != #[trigger] out@[j],
        forall|i: int, j: int|
            0 <= i < out@.len() && 0 <= j < out@.len() && (#[trigger] out@[i]) != (#[trigger] out@[j]) && out@[i].len()
                > 0 && out@[j].len() > 0 ==> out@[i].end() <= out@[j].start() || out@[j].end() <= out@[i].start(),
        forall|k: int| 0 <= k < out@.len() ==> #[trigger] clear_of_condemned(*map, *policy, out@[k]),
{
    proof {
        use_type_invariant(map);
        map.lemma_wf();
    }
    let total = map.geometry().total_sectors();
    let condemned = condemned_ranges(map, policy);
    let head = if policy.alignment_sectors >= 2048 {
        policy.alignment_sectors
    } else {
        2048
    };
    let lo = if head <= total {
        head
    } else {
        total
    };
    let span = LbaRange::from_bounds(lo, total);
    let comp = complement(span, condemned.as_slice());
    let ghost runs = map.run_seq();
    proof {
        lemma_canonical_members(comp@, runs, *policy, span);
    }
    let ghost a = policy.alignment_sectors;
    let ghost min = policy.min_partition_sectors;
    // The qualifying pieces, in address order.
    let mut pieces: Vec<LbaRange> = Vec::new();
    let ghost mut src: Seq<int> = Seq::empty();
    let mut i: usize = 0;
    while i < comp.len()
        invariant
            i <= comp@.len(),
            separated(comp@),
            a == policy.alignment_sectors,
            min == policy.min_partition_sectors,
            src.len() == pieces@.len(),
            forall|k: int| 0 <= k < src.len() ==> 0 <= #[trigger] src[k] < i,
            forall|k: int, l: int| 0 <= k < l < src.len() ==> #[trigger] src[k] < #[trigger] src[l],
            forall|k: int|
                0 <= k < pieces@.len() ==> (#[trigger] pieces@[k]).start() == inward(comp@[src[k]], a).0
                    && pieces@[k].end() == inward(comp@[src[k]], a).1 && pieces@[k].len() >= min,
            forall|k: int|
                0 <= k < pieces@.len() && (#[trigger] pieces@[k]).len() > 0 ==> comp@[src[k]].start()
                    <= pieces@[k].start() && pieces@[k].end() <= comp@[src[k]].end(),
            forall|m: int|
                0 <= m < i && inward(#[trigger] comp@[m], a).1 - inward(comp@[m], a).0 >= min ==> exists|k: int|
                    0 <= k < src.len() && src[k] == m,
        decreases comp@.len() - i,
    {
        let g = comp[i];
        let r = g.aligned_inward(policy.alignment_sectors);
        let ghost old_src = src;
        if r.len() >= policy.min_partition_sectors {
            pieces.push(r);
            proof {
                src = src.push(i as int);
                assert(src[src.len() - 1] == i);
            }
        }
        proof {
            assert forall|m: int|
                0 <= m < i + 1 && inward(#[trigger] comp@[m], a).1 - inward(comp@[m], a).0 >= min implies exists|k: int|
                    0 <= k < src.len() && src[k] == m by {
                if m < i {
                    let k = choose|k: int| 0 <= k < old_src.len() && old_src[k] == m;
                    assert(src[k] == m);
                } else {
                    assert(src[src.len() - 1] == i);
                }
            }
        }
        i = i + 1;
    }
    // Distinct pieces come from distinct, hence disjoint, free intervals.
    proof {
        assert forall|k: int, l: int| 0 <= k < l < pieces@.len() && (#[trigger] pieces@[k]).len() > 0 implies pieces@[k]
            != #[trigger] pieces@[l] by {
            assert(src[k] < src[l]);
            assert(comp@[src[k]].end() < comp@[src[l]].start());
        }
    }
    let mut out: Vec<LbaRange> = Vec::new();
    let mut j: usize = 0;
    while j < pieces.len()
        invariant
            j <= pieces@.len(),
            ranked(out@),
            forall|c: LbaRange| #[trigger] out@.contains(c) <==> pieces@.take(j as int).contains(c),
            forall|p: int, q: int| 0 <= p < q < out@.len() && (#[trigger] out@[p]).len() > 0 ==> out@[p] != #[trigger] out@[q],
            forall|k: int, l: int| 0 <= k < l < pieces@.len() && (#[trigger] pieces@[k]).len() > 0 ==> pieces@[k] != #[trigger] pieces@[l],
        decreases pieces@.len() - j,
    {
        let r = pieces[j];
        let ghost before = out@;
        proof {
            assert forall|p: int| 0 <= p < before.len() && before[p].len() > 0 implies before[p] != r by {
                assert(before.contains(before[p]));
                let k = choose|k: int| 0 <= k < j && pieces@.take(j as int)[k] == before[p];
                assert(pieces@[k] == before[p]);
            }
        }
        insert_ranked(&mut out, r);
        proof {
            assert forall|c: LbaRange| #[trigger] out@.contains(c) <==> pieces@.take(j + 1).contains(c) by {
                let t = pieces@.take(j + 1);
                assert(t[j as int] == r);
                if pieces@.take(j as int).contains(c) {
                    let k = choose|k: int| 0 <= k < j && pieces@.take(j as int)[k] == c;
                    assert(t[k] == c);
                }
                if t.contains(c) {
                    let k = choose|k: int| 0 <= k < t.len() && t[k] == c;
                    if k < j {
                        assert(pieces@.take(j as int)[k] == c);
                    }
                }
            }
            assert forall|p: int, q: int| 0 <= p < q < out@.len() && (#[trigger] out@[p]).len() > 0 implies out@[p] != #[trigger] out@[q] by {
                if out@[p] == out@[q] {
                    if out@[p] != r {
                        assert(before.contains(out@[p]));
                    }
                }
            }
        }
        j = j + 1;
    }
    proof {
        assert(pieces@.take(pieces@.len() as int) == pieces@);
        assert forall|c: LbaRange| #[trigger] out@.contains(c) <==> candidate(*map, *policy, c) by {
            if out@.contains(c) {
                assert(pieces@.contains(c));
                let k = choose|k: int| 0 <= k < pieces@.len() && pieces@[k] == c;
                let m = src[k];
                assert(0 <= m < comp@.len());
                assert(comp@.contains(comp@[m]));
                assert(free_gap(runs, *policy, span.start() as int, span.end() as int, comp@[m]));
                assert(c.start() == inward(comp@[m], a).0 && c.end() == inward(comp@[m], a).1 && c.len() >= min);
                assert(data_span(*policy, map.total()).0 == span.start());
                assert(data_span(*policy, map.total()).1 == span.end());
                assert(candidate(*map, *policy, c));
            }
            if candidate(*map, *policy, c) {
                let g = choose|g: LbaRange| #[trigger] free_gap(runs, *policy, span.start() as int, span.end() as int, g)
                    && c.start() == inward(g, a).0 && c.end() == inward(g, a).1 && c.len() >= min;
                assert(comp@.contains(g));
                let m = choose|m: int| 0 <= m < comp@.len() && comp@[m] == g;
                let k = choose|k: int| 0 <= k < src.len() && src[k] == m;
                crate::geometry::LbaRange::lemma_ext(c, pieces@[k]);
                assert(pieces@.contains(pieces@[k]));
            }
        }
        assert forall|k: int| 0 <= k < out@.len() implies #[trigger] clear_of_condemned(*map, *policy, out@[k]) by {
            assert(out@.contains(out@[k]));
            let q = choose|q: int| 0 <= q < pieces@.len() && pieces@[q] == out@[k];
            assert forall|x: int| out@[k].start() <= x < out@[k].end() implies data_head(*policy) <= x && x < map.total()
                && !#[trigger] condemned_at(map.run_seq(), *policy, x) by {
                assert(covered(comp@, x)) by {
                    assert(comp@[src[q]].start() <= x < comp@[src[q]].end());
                }
            }
        }
        assert forall|i2: int, j2: int|
            0 <= i2 < out@.len() && 0 <= j2 < out@.len() && (#[trigger] out@[i2]) != (#[trigger] out@[j2]) && out@[i2].len()
                > 0 && out@[j2].len() > 0 implies out@[i2].end() <= out@[j2].start() || out@[j2].end() <= out@[i2].start() by {
            assert(out@.contains(out@[i2]) && out@.contains(out@[j2]));
            let k = choose|k: int| 0 <= k < pieces@.len() && pieces@[k] == out@[i2];
            let l = choose|l: int| 0 <= l < pieces@.len() && pieces@[l] == out@[j2];
            if src[k] < src[l] {
                assert(comp@[src[k]].end() < comp@[src[l]].start());
            } else if src[l] < src[k] {
                assert(comp@[src[l]].end() < comp@[src[k]].start());
            } else {
                if k < l {
                    assert(src[k] < src[l]);
                } else if l < k {
                    assert(src[l] < src[k]);
                }
            }
        }
    }
    out
}

// ---------------------------------------------------------------------------
// Labels.
// ---------------------------------------------------------------------------

/// `prefix` followed by `n` in decimal.
fn numbered(prefix: &str, n: usize) -> (r: String)
    ensures
        r@ == prefix@ + decimal_chars(n as nat),
{
    let mut s = String::from_str(prefix);
    append_decimal(&mut s, n as u64);
    s
}

// ---------------------------------------------------------------------------
// Assembling a plan.
// ---------------------------------------------------------------------------

/// The ranges share no sector.
pub open spec fn disjoint(a: LbaRange, b: LbaRange) -> bool {
    a.end() <= b.start() || b.end() <= a.start()
}

/// No two partitions share a sector.
pub open spec fn pairwise_disjoint(parts: Seq<PlannedPartition>) -> bool {
    forall|i: int, j: int|
        0 <= i < parts.len() && 0 <= j < parts.len() && i != j ==> disjoint(
            #[trigger] parts[i].range,
            #[trigger] parts[j].range,
        )
}

/// Partitions in ascending order of start.
pub open spec fn sorted_parts(parts: Seq<PlannedPartition>) -> bool {
    forall|i: int, j: int|
        0 <= i < j < parts.len() ==> (#[trigger] parts[i]).range.start() <= (#[trigger] parts[j]).range.start()
}

/// The label of data partition `i` of `count`.
pub open spec fn data_label(count: int, i: int) -> Seq<char> {
    if count == 1 {
        "data"@
    } else {
        "data-"@ + decimal_chars((i + 1) as nat)
    }
}

/// Sum of the lengths of `rs`.
pub open spec fn len_sum(rs: Seq<LbaRange>) -> int
    decreases rs.len(),
{
    if rs.len() == 0 {
        0
    } else {
        len_sum(rs.drop_last()) + rs.last().len()
    }
}

/// Inserts `p` after every partition starting at or before it.
#[verifier::spinoff_prover]
#[verifier::rlimit(40)]
fn insert_partition(v: &mut Vec<PlannedPartition>, p: PlannedPartition)
    requires
        sorted_parts(old(v)@),
    ensures
        sorted_parts(final(v)@),
        final(v)@.len() == old(v)@.len() + 1,
        forall|x: PlannedPartition| final(v)@.contains(x) <==> old(v)@.contains(x) || x == p,
        pairwise_disjoint(old(v)@) && (forall|k: int| 0 <= k < old(v)@.len() ==> disjoint(#[trigger] old(v)@[k].range, p.range))
            ==> pairwise_disjoint(final(v)@),
{
    let ghost before = v@;
    let ghost r = p;
    let mut pos: usize = 0;
    while pos < v.len() && v[pos].range.start() <= p.range.start()
        invariant
            v@ == before,
            pos <= v@.len(),
            forall|i: int| 0 <= i < pos ==> (#[trigger] v@[i]).range.start() <= p.range.start(),
        decreases v@.len() - pos,
    {
        pos = pos + 1;
    }
    v.insert(pos, p);
    proof {
        before.insert_ensures(pos as int, r);
        let after = v@;
        assert forall|i: int, j: int| 0 <= i < j < after.len() implies (#[trigger] after[i]).range.start()
            <= (#[trigger] after[j]).range.start() by {
            if j < pos {
            } else if j == pos {
            } else if i < pos {
                assert(after[j] == before[j - 1]);
                if pos < before.len() {
                    assert(before[pos as int].range.start() > r.range.start());
                    assert(before[i].range.start() <= before[j - 1].range.start());
                }
            } else if i == pos {
                assert(after[j] == before[j - 1]);
                assert(before[pos as int].range.start() > r.range.start());
                if j - 1 > pos {
                    assert(before[pos as int].range.start() <= before[j - 1].range.start());
                }
            } else {
                assert(after[i] == before[i - 1] && after[j] == before[j - 1]);
            }
        }
        assert forall|x: PlannedPartition| after.contains(x) <==> before.contains(x) || x == r by {
            if after.contains(x) {
                let k = choose|k: int| 0 <= k < after.len() && after[k] == x;
                if k < pos {
                    assert(before[k] == x);
                } else if k > pos {
                    assert(before[k - 1] == x);
                }
            }
            if before.contains(x) {
                let k = choose|k: int| 0 <= k < before.len() && before[k] == x;
                if k < pos {
                    assert(after[k] == x);
                } else {
                    assert(after[k + 1] == x);
                }
            }
            if x == r {
                assert(after[pos as int] == x);
            }
        }
        if pairwise_disjoint(before) && (forall|k: int| 0 <= k < before.len() ==> disjoint(#[trigger] before[k].range, r.range)) {
            assert forall|i: int, j: int|
                0 <= i < after.len() && 0 <= j < after.len() && i != j implies disjoint(
                    #[trigger] after[i].range,
                    #[trigger] after[j].range,
                ) by {
                let ii = if i < pos { i } else if i == pos { -1 } else { i - 1 };
                let jj = if j < pos { j } else if j == pos { -1 } else { j - 1 };
                if ii >= 0 && jj >= 0 {
                    assert(after[i] == before[ii] && after[j] == before[jj]);
                } else if ii < 0 {
                    assert(after[i] == r && after[j] == before[jj]);
                    assert(disjoint(before[jj].range, r.range));
                } else {
                    assert(after[j] == r && after[i] == before[ii]);
                    assert(disjoint(before[ii].range, r.range));
                }
            }
        }
    }
}

/// Number of quarantine partitions among `parts`.
fn quarantine_count(parts: &Vec<PlannedPartition>) -> (n: usize)
    ensures
        n == with_role(parts@, PartitionRole::Quarantine).len(),
        n <= parts@.len(),
{
    let mut n: usize = 0;
    let mut i: usize = 0;
    proof {
        assert(parts@.take(0) =~= Seq::<PlannedPartition>::empty());
    }
    while i < parts.len()
        invariant
            i <= parts@.len(),
            n == with_role(parts@.take(i as int), PartitionRole::Quarantine).len(),
            n <= i,
        decreases parts@.len() - i,
    {
        proof {
            assert(parts@.take(i + 1).drop_last() == parts@.take(i as int));
            assert(parts@.take(i + 1).last() == parts@[i as int]);
        }
        if parts[i].role == PartitionRole::Quarantine {
            n = n + 1;
        }
        i = i + 1;
    }
    proof {
        assert(parts@.take(parts@.len() as int) == parts@);
    }
    n
}

/// Adds up the lengths of address-ordered, disjoint ranges inside the device.
fn len_sum_exec(rs: &Vec<LbaRange>, total: u64) -> (r: u64)
    requires
        sorted_by_start(rs@),
        forall|i: int| 0 <= i < rs@.len() ==> (#[trigger] rs@[i]).start() < rs@[i].end() <= total,
        forall|i: int, j: int| 0 <= i < rs@.len() && 0 <= j < rs@.len() && i != j
            ==> disjoint(#[trigger] rs@[i], #[trigger] rs@[j]),
    ensures
        r == len_sum(rs@),
{
    let mut sum: u64 = 0;
    let mut i: usize = 0;
    proof {
        assert(rs@.take(0) =~= Seq::<LbaRange>::empty());
    }
    while i < rs.len()
        invariant
            i <= rs@.len(),
            sorted_by_start(rs@),
            forall|k: int| 0 <= k < rs@.len() ==> (#[trigger] rs@[k]).start() < rs@[k].end() <= total,
            forall|k: int, j: int| 0 <= k < rs@.len() && 0 <= j < rs@.len() && k != j
                ==> disjoint(#[trigger] rs@[k], #[trigger] rs@[j]),
            sum == len_sum(rs@.take(i as int)),
            i > 0 ==> sum <= rs@[i - 1].end(),
        decreases rs@.len() - i,
    {
        proof {
            assert(rs@.take(i + 1).drop_last() == rs@.take(i as int));
            assert(rs@.take(i + 1).last() == rs@[i as int]);
            if i > 0 {
                assert(disjoint(rs@[i - 1], rs@[i as int]));
                assert(rs@[i - 1].start() <= rs@[i as int].start());
            }
        }
        sum = sum + rs[i].len();
        i = i + 1;
    }
    proof {
        assert(rs@.take(rs@.len() as int) == rs@);
    }
    sum
}

/// Assembles a plan from the chosen data areas: one data partition per area,
/// then quarantine over the largest condemned regions while table slots
/// remain, all in address order.
fn assemble(
    strategy: Strategy,
    map: &SectorMap,
    policy: &PlanningPolicy,
    data_ranges: Vec<LbaRange>,
    filesystem: FileSystem,
) -> (plan: PartitionPlan)
    requires
        sorted_by_start(data_ranges@),
        forall|i: int| 0 <= i < data_ranges@.len() ==> 1 <= (#[trigger] data_ranges@[i]).start() < data_ranges@[i].end() <= map.total(),
        forall|i: int, j: int| 0 <= i < data_ranges@.len() && 0 <= j < data_ranges@.len() && i != j
            ==> disjoint(#[trigger] data_ranges@[i], #[trigger] data_ranges@[j]),
    ensures
        plan.strategy == strategy,
        plan.geometry == map.spec_geometry(),
        plan.containment == Containment::PartitionBoundary,
        sorted_parts(plan.partitions@),
        pairwise_disjoint(plan.partitions@),
        plan.partitions@.len() <= if data_ranges@.len() >= policy.max_partitions {
            data_ranges@.len() as int
        } else {
            policy.max_partitions as int
        },
        forall|k: int| 0 <= k < plan.partitions@.len() ==> #[trigger] placed(plan.partitions@[k], map.total()),
        forall|k: int|
            0 <= k < plan.partitions@.len() ==> #[trigger] assembled_entry(
                *map,
                *policy,
                data_ranges@,
                filesystem,
                plan.partitions@[k],
            ),
        forall|i: int| 0 <= i < data_ranges@.len() ==> #[trigger] holds_data(plan.partitions@, data_ranges@, filesystem, i),
        plan.usable_bytes == sat_mul(len_sum(data_ranges@) as u64, map.spec_geometry().sector_size() as u64),
        plan.sacrificed_bytes == sat_mul(
            sat_sub(crate::sector_map::counts_of(map.run_seq(), 0, map.total() as int).good, len_sum(data_ranges@) as u64),
            map.spec_geometry().sector_size() as u64,
        ),
{
    proof {
        use_type_invariant(map);
        map.lemma_wf();
    }
    let g = *map.geometry();
    let total = g.total_sectors();
    let n = data_ranges.len();
    let mut partitions: Vec<PlannedPartition> = Vec::new();
    let mut i: usize = 0;
    while i < n
        invariant
            n == data_ranges@.len(),
            i <= n,
            partitions@.len() == i,
            forall|k: int| 0 <= k < i ==> {
                let d = #[trigger] partitions@[k];
                &&& d.range == data_ranges@[k]
                &&& d.role == PartitionRole::Data
                &&& d.mbr_type == filesystem.spec_mbr_type()
                &&& d.label@ == data_label(n as int, k)
            },
        decreases n - i,
    {
        proof {
            reveal_strlit("data");
        }
        let label = if n == 1 {
            String::from_str("data")
        } else {
            numbered("data-", i + 1)
        };
        partitions.push(PlannedPartition {
            range: data_ranges[i],
            role: PartitionRole::Data,
            mbr_type: filesystem.mbr_type(),
            label,
        });
        i = i + 1;
    }
    let mut condemned_ranked: Vec<LbaRange> = Vec::new();
    let condemned = condemned_ranges(map, policy);
    let mut c: usize = 0;
    while c < condemned.len()
        invariant
            c <= condemned@.len(),
            ranked(condemned_ranked@),
            forall|r: LbaRange| #[trigger] condemned_ranked@.contains(r) ==> condemned@.contains(r),
        decreases condemned@.len() - c,
    {
        proof {
            assert(condemned@.contains(condemned@[c as int]));
        }
        insert_ranked(&mut condemned_ranked, condemned[c]);
        c = c + 1;
    }
    let bounds = LbaRange::from_bounds(1, total);
    let mut q: usize = 0;
    while q < condemned_ranked.len()
        invariant
            n == data_ranges@.len(),
            q <= condemned_ranked@.len(),
            forall|r: LbaRange| #[trigger] condemned_ranked@.contains(r) ==> condemned@.contains(r),
            forall|x: int| #[trigger] covered(condemned@, x) <==> condemned_at(map.run_seq(), *policy, x),
            partitions@.len() <= if n >= policy.max_partitions { n as int } else { policy.max_partitions as int },
            partitions@.len() >= n,
            forall|k: int| 0 <= k < n ==> {
                let d = #[trigger] partitions@[k];
                &&& d.range == data_ranges@[k]
                &&& d.role == PartitionRole::Data
                &&& d.mbr_type == filesystem.spec_mbr_type()
                &&& d.label@ == data_label(n as int, k)
            },
            forall|k: int| 0 <= k < partitions@.len() ==> #[trigger] assembled_entry(*map, *policy, data_ranges@, filesystem, partitions@[k]),
            forall|k: int| 0 <= k < partitions@.len() ==> 1 <= (#[trigger] partitions@[k]).range.start() < partitions@[k].range.end() <= total,
            forall|i2: int, j2: int| 0 <= i2 < partitions@.len() && 0 <= j2 < partitions@.len() && i2 != j2
                ==> disjoint(#[trigger] partitions@[i2].range, #[trigger] partitions@[j2].range),
            total == map.total(),
            bounds.start() == 1,
            bounds.end() == if total <= 1 { 1 } else { total },
        decreases condemned_ranked@.len() - q,
    {
        if partitions.len() >= policy.max_partitions {
            break;
        }
        let r = condemned_ranked[q];
        let clipped = r.clamped_to(&bounds);
        let mut clash = clipped.is_empty();
        let mut k: usize = 0;
        while k < partitions.len() && !clash
            invariant
                k <= partitions@.len(),
                clipped.spec_is_empty() ==> clash,
                !clash ==> forall|m: int| 0 <= m < k ==> disjoint(#[trigger] partitions@[m].range, clipped),
            decreases partitions@.len() - k,
        {
            let held = partitions[k].range;
            if held.start() < clipped.end() && clipped.start() < held.end() {
                clash = true;
            }
            k = k + 1;
        }
        if !clash {
            let number = quarantine_count(&partitions) + 1;
            let ghost before = partitions@;
            proof {
                assert(!clipped.spec_is_empty());
                assert(max_u64(r.start(), bounds.start()) < min_u64(r.end(), bounds.end()));
                assert(1 <= clipped.start() < clipped.end() <= total);
                assert(condemned_ranked@.contains(r)) by {
                    assert(condemned_ranked@[q as int] == r);
                }
                assert(condemned@.contains(r));
                let ci = choose|ci: int| 0 <= ci < condemned@.len() && condemned@[ci] == r;
                assert forall|x: int| clipped.start() <= x < clipped.end() implies #[trigger] condemned_at(map.run_seq(), *policy, x) by {
                    assert(covered(condemned@, x)) by {
                        assert(condemned@[ci].start() <= x < condemned@[ci].end());
                    }
                }
            }
            partitions.push(PlannedPartition {
                range: clipped,
                role: PartitionRole::Quarantine,
                mbr_type: QUARANTINE_MBR_TYPE,
                label: numbered("quarantine-", number),
            });
            proof {
                assert forall|i2: int, j2: int| 0 <= i2 < partitions@.len() && 0 <= j2 < partitions@.len() && i2 != j2
                    implies disjoint(#[trigger] partitions@[i2].range, #[trigger] partitions@[j2].range) by {
                    if i2 < before.len() && j2 < before.len() {
                        assert(partitions@[i2] == before[i2] && partitions@[j2] == before[j2]);
                    } else if i2 == before.len() {
                        assert(disjoint(before[j2].range, clipped));
                    } else {
                        assert(disjoint(before[i2].range, clipped));
                    }
                }
                assert forall|k2: int| 0 <= k2 < partitions@.len() implies #[trigger] assembled_entry(*map, *policy, data_ranges@, filesystem, partitions@[k2]) by {
                    if k2 < before.len() {
                        assert(partitions@[k2] == before[k2]);
                    }
                }
            }
        }
        q = q + 1;
    }
    // Address order for the table.
    let ghost unsorted = partitions@;
    let mut sorted: Vec<PlannedPartition> = Vec::new();
    let mut s: usize = 0;
    while s < partitions.len()
        invariant
            unsorted == partitions@,
            s <= unsorted.len(),
            sorted@.len() == s,
            sorted_parts(sorted@),
            pairwise_disjoint(sorted@),
            forall|i2: int, j2: int| 0 <= i2 < unsorted.len() && 0 <= j2 < unsorted.len() && i2 != j2
                ==> disjoint(#[trigger] unsorted[i2].range, #[trigger] unsorted[j2].range),
            forall|x: PlannedPartition| #[trigger] sorted@.contains(x) <==> unsorted.take(s as int).contains(x),
        decreases unsorted.len() - s,
    {
        let p = partitions[s].clone();
        proof {
            assert forall|k2: int| 0 <= k2 < sorted@.len() implies disjoint(#[trigger] sorted@[k2].range, p.range) by {
                assert(sorted@.contains(sorted@[k2]));
                let j2 = choose|j2: int| 0 <= j2 < s && unsorted.take(s as int)[j2] == sorted@[k2];
                assert(unsorted[j2] == sorted@[k2]);
            }
        }
        insert_partition(&mut sorted, p);
        proof {
            assert forall|x: PlannedPartition| #[trigger] sorted@.contains(x) <==> unsorted.take(s + 1).contains(x) by {
                let t = unsorted.take(s + 1);
                assert(t[s as int] == unsorted[s as int]);
                if unsorted.take(s as int).contains(x) {
                    let j2 = choose|j2: int| 0 <= j2 < s && unsorted.take(s as int)[j2] == x;
                    assert(t[j2] == x);
                }
                if t.contains(x) {
                    let j2 = choose|j2: int| 0 <= j2 < s + 1 && t[j2] == x;
                    if j2 < s {
                        assert(unsorted.take(s as int)[j2] == x);
                    }
                }
            }
        }
        s = s + 1;
    }
    proof {
        assert(unsorted.take(unsorted.len() as int) == unsorted);
        assert forall|k2: int| 0 <= k2 < sorted@.len() implies #[trigger] assembled_entry(*map, *policy, data_ranges@, filesystem, sorted@[k2])
            && placed(sorted@[k2], map.total()) by {
            assert(sorted@.contains(sorted@[k2]));
            let j2 = choose|j2: int| 0 <= j2 < unsorted.len() && unsorted[j2] == sorted@[k2];
            assert(assembled_entry(*map, *policy, data_ranges@, filesystem, unsorted[j2]));
            assert(1 <= unsorted[j2].range.start() < unsorted[j2].range.end() <= total);
        }
        assert forall|k2: int| 0 <= k2 < sorted@.len() implies #[trigger] placed(sorted@[k2], map.total()) by {
            assert(assembled_entry(*map, *policy, data_ranges@, filesystem, sorted@[k2]));
        }
        assert forall|i2: int| 0 <= i2 < data_ranges@.len() implies #[trigger] holds_data(sorted@, data_ranges@, filesystem, i2) by {
            assert(unsorted.contains(unsorted[i2]));
            assert(sorted@.contains(unsorted[i2]));
            let k = choose|k: int| 0 <= k < sorted@.len() && sorted@[k] == unsorted[i2];
        }
    }
    let usable_sectors = len_sum_exec(&data_ranges, total);
    let counts = map.counts();
    let total_good = counts.good;
    let sacrificed_sectors = if total_good > usable_sectors {
        total_good - usable_sectors
    } else {
        0
    };
    let ss = g.sector_size() as u64;
    PartitionPlan {
        strategy,
        partitions: sorted,
        geometry: g,
        usable_bytes: crate::geometry::saturating_mul_u64(usable_sectors, ss),
        sacrificed_bytes: crate::geometry::saturating_mul_u64(sacrificed_sectors, ss),
        containment: Containment::PartitionBoundary,
    }
}

/// The partition is non-empty, past the partition table and on the device.
pub open spec fn placed(e: PlannedPartition, total: u64) -> bool {
    1 <= e.range.start() && e.range.start() < e.range.end() && e.range.end() <= total
}

/// Data area `i` appears among `parts` as a data partition with its label
/// and type.
pub open spec fn holds_data(parts: Seq<PlannedPartition>, data: Seq<LbaRange>, fs: FileSystem, i: int) -> bool {
    exists|k: int|
        0 <= k < parts.len() && #[trigger] parts[k].range == data[i] && parts[k].role == PartitionRole::Data
            && parts[k].label@ == data_label(data.len() as int, i) && parts[k].mbr_type == fs.spec_mbr_type()
}

/// A partition `assemble` may produce: one of the data areas with its label
/// and type, or quarantine lying wholly inside condemned area.
pub open spec fn assembled_entry(
    map: SectorMap,
    p: PlanningPolicy,
    data: Seq<LbaRange>,
    fs: FileSystem,
    e: PlannedPartition,
) -> bool {
    ||| (e.role == PartitionRole::Data && e.mbr_type == fs.spec_mbr_type() && exists|i: int|
        0 <= i < data.len() && #[trigger] data[i] == e.range && e.label@ == data_label(data.len() as int, i))
    ||| (e.role == PartitionRole::Quarantine && e.mbr_type == QUARANTINE_MBR_TYPE && forall|x: int|
        e.range.start() <= x < e.range.end() ==> #[trigger] condemned_at(map.run_seq(), p, x))
}

// ---------------------------------------------------------------------------
// The spliced volume.
// ---------------------------------------------------------------------------

/// Where a spliced volume could start for proven run `r`: at the run or the
/// data head, whichever is later, rounded up to the alignment.
pub open spec fn splice_start(r: LbaRange, p: PlanningPolicy) -> int {
    let s = if r.start() >= data_head(p) {
        r.start() as int
    } else {
        data_head(p) as int
    };
    let a = if p.alignment_sectors >= 1 {
        p.alignment_sectors as int
    } else {
        1
    };
    if s % a == 0 {
        s
    } else {
        s + (a - s % a)
    }
}

/// One past the last proven-good sector of the map, if any.
pub open spec fn proven_end(runs: Seq<Run>) -> Option<u64>
    decreases runs.len(),
{
    if runs.len() == 0 {
        None
    } else if runs.last().state.spec_is_usable() {
        Some(runs.last().range.end())
    } else {
        proven_end(runs.drop_last())
    }
}

/// The last proven sector lies on the device.
proof fn lemma_proven_end_within(runs: Seq<Run>, total: u64)
    requires
        forall|i: int| 0 <= i < runs.len() ==> (#[trigger] runs[i]).range.end() <= total,
    ensures
        proven_end(runs) is Some ==> proven_end(runs)->Some_0 <= total,
    decreases runs.len(),
{
    if runs.len() > 0 {
        let t = runs.drop_last();
        assert forall|i: int| 0 <= i < t.len() implies (#[trigger] t[i]).range.end() <= total by {
            assert(t[i] == runs[i]);
        }
        lemma_proven_end_within(t, total);
        assert(runs.last() == runs[runs.len() - 1]);
    }
}

/// `s` is where some proven run would start a spliced volume ending at `end`.
pub open spec fn splice_candidate(runs: Seq<Run>, p: PlanningPolicy, end: int, s: int) -> bool {
    exists|i: int|
        0 <= i < runs.len() && (#[trigger] runs[i]).state.spec_is_usable() && splice_start(runs[i].range, p) == s
            && s < end
}

/// A spliced volume over `[s, end)` can be built, offers free space and is
/// large enough.
pub open spec fn splice_works(map: SectorMap, p: PlanningPolicy, s: int, end: int) -> bool {
    let area = LbaRange::spec_bounds(s as u64, end as u64);
    &&& cluster_map_builds(map, area)
    &&& cluster_map_free(map, area) > 0
    &&& end - s >= p.min_partition_sectors
}

/// The plan a spliced volume over `[s, end)` yields: fenced ground ahead of it
/// when it does not start at the data head, then the volume itself.
pub open spec fn spliced_plan(map: SectorMap, p: PlanningPolicy, s: int, end: int, plan: PartitionPlan) -> bool {
    let area = LbaRange::spec_bounds(s as u64, end as u64);
    let l = Fat32Layout::spec_plan(area.len(), map.spec_geometry().sector_size(), 0)->Ok_0;
    let parts = plan.partitions@;
    let data = parts.last();
    &&& plan.strategy == Strategy::SplicedFat32
    &&& plan.containment == Containment::FilesystemClusterMap
    &&& plan.geometry == map.spec_geometry()
    &&& parts.len() == if s > data_head(p) { 2int } else { 1int }
    &&& data.range == area && data.role == PartitionRole::Data && data.mbr_type == FileSystem::Fat32.spec_mbr_type()
        && data.label@ == "spliced"@
    &&& s > data_head(p) ==> parts[0].range == LbaRange::spec_bounds(data_head(p), s as u64) && parts[0].role
        == PartitionRole::Quarantine && parts[0].mbr_type == QUARANTINE_MBR_TYPE && parts[0].label@ == "quarantine-head"@
    &&& plan.usable_bytes == cluster_map_free(map, area) * l.spec_sectors_per_cluster() * l.spec_bytes_per_sector()
    &&& plan.sacrificed_bytes == sat_sub(
        sat_mul(
            crate::sector_map::counts_of(map.run_seq(), s, end).good,
            map.spec_geometry().sector_size() as u64,
        ),
        plan.usable_bytes,
    )
}

/// What the spliced strategy yields: nothing when no sector was proven or no
/// candidate start works; otherwise the plan from the earliest start that does.
pub open spec fn splice_outcome(map: SectorMap, p: PlanningPolicy, r: Option<PartitionPlan>) -> bool {
    let runs = map.run_seq();
    match proven_end(runs) {
        None => r is None,
        Some(end) => {
            &&& r is Some <==> exists|s: int| #[trigger] splice_candidate(runs, p, end as int, s) && splice_works(
                map,
                p,
                s,
                end as int,
            )
            &&& r is Some ==> exists|s: int|
                #[trigger] first_working_start(map, p, end as int, s) && spliced_plan(map, p, s, end as int, r->Some_0)
        },
    }
}

/// `s` is a start that works while every earlier one fails.
pub open spec fn first_working_start(map: SectorMap, p: PlanningPolicy, end: int, s: int) -> bool {
    &&& splice_candidate(map.run_seq(), p, end, s)
    &&& splice_works(map, p, s, end)
    &&& forall|s2: int|
        #[trigger] splice_candidate(map.run_seq(), p, end, s2) && s2 < s ==> !splice_works(map, p, s2, end)
}

/// Finding a working start whose predecessors all fail yields its plan.
proof fn lemma_splice_found(map: SectorMap, p: PlanningPolicy, end: u64, s: int, plan: PartitionPlan)
    requires
        proven_end(map.run_seq()) == Some(end),
        splice_candidate(map.run_seq(), p, end as int, s),
        splice_works(map, p, s, end as int),
        forall|s2: int|
            #[trigger] splice_candidate(map.run_seq(), p, end as int, s2) && s2 < s ==> !splice_works(map, p, s2, end as int),
        spliced_plan(map, p, s, end as int, plan),
    ensures
        splice_outcome(map, p, Some(plan)),
{
    let r = Some(plan);
    assert(r->Some_0 == plan);
    assert(first_working_start(map, p, end as int, s));
    let runs = map.run_seq();
    let e = proven_end(runs)->Some_0;
    assert(e == end);
    assert(exists|s3: int| #[trigger] splice_candidate(runs, p, e as int, s3) && splice_works(map, p, s3, e as int));
    assert(exists|s3: int| #[trigger] first_working_start(map, p, e as int, s3) && spliced_plan(map, p, s3, e as int, r->Some_0));
}

/// Inserts `v` into a strictly ascending list unless already present.
fn insert_unique(list: &mut Vec<u64>, v: u64)
    requires
        forall|i: int, j: int| 0 <= i < j < old(list)@.len() ==> #[trigger] old(list)@[i] < #[trigger] old(list)@[j],
    ensures
        forall|i: int, j: int| 0 <= i < j < final(list)@.len() ==> #[trigger] final(list)@[i] < #[trigger] final(list)@[j],
        forall|x: u64| final(list)@.contains(x) <==> old(list)@.contains(x) || x == v,
{
    let ghost before = list@;
    let mut pos: usize = 0;
    while pos < list.len() && list[pos] < v
        invariant
            list@ == before,
            pos <= list@.len(),
            forall|i: int| 0 <= i < pos ==> #[trigger] list@[i] < v,
        decreases list@.len() - pos,
    {
        pos = pos + 1;
    }
    if pos < list.len() && list[pos] == v {
        return;
    }
    list.insert(pos, v);
    proof {
        before.insert_ensures(pos as int, v);
        let after = list@;
        assert forall|i: int, j: int| 0 <= i < j < after.len() implies #[trigger] after[i] < #[trigger] after[j] by {
            if j < pos {
            } else if j == pos {
            } else if i < pos {
                assert(after[j] == before[j - 1]);
                if pos < before.len() {
                    assert(before[i] < before[j - 1] || i == j - 1);
                }
            } else if i == pos {
                assert(after[j] == before[j - 1]);
                assert(before[pos as int] > v);
                if j - 1 > pos {
                    assert(before[pos as int] < before[j - 1]);
                }
            } else {
                assert(after[i] == before[i - 1] && after[j] == before[j - 1]);
            }
        }
        assert forall|x: u64| after.contains(x) <==> before.contains(x) || x == v by {
            if after.contains(x) {
                let k = choose|k: int| 0 <= k < after.len() && after[k] == x;
                if k < pos {
                    assert(before[k] == x);
                } else if k > pos {
                    assert(before[k - 1] == x);
                }
            }
            if before.contains(x) {
                let k = choose|k: int| 0 <= k < before.len() && before[k] == x;
                if k < pos {
                    assert(after[k] == x);
                } else {
                    assert(after[k + 1] == x);
                }
            }
            if x == v {
                assert(after[pos as int] == x);
            }
        }
    }
}

/// Builds the spliced plan: one FAT32 volume ending at the last proven sector,
/// starting at the earliest place where its own table can police everything it
/// spans. Ground ahead of the volume is fenced the usual way.
#[verifier::spinoff_prover]
#[verifier::rlimit(50)]
fn spliced_layout(map: &SectorMap, policy: &PlanningPolicy) -> (r: Option<PartitionPlan>)
    ensures
        splice_outcome(*map, *policy, r),
{
    proof {
        use_type_invariant(map);
        map.lemma_wf();
    }
    let g = *map.geometry();
    let head = if policy.alignment_sectors >= 2048 {
        policy.alignment_sectors
    } else {
        2048
    };
    let align = if policy.alignment_sectors >= 1 {
        policy.alignment_sectors
    } else {
        1
    };
    let runs = map.runs();
    let ghost rs = map.run_seq();
    // The volume stops at the last proven sector.
    let mut end_opt: Option<u64> = None;
    let mut i: usize = 0;
    proof {
        assert(rs.take(0) =~= Seq::<Run>::empty());
    }
    while i < runs.len()
        invariant
            runs@ == rs,
            i <= rs.len(),
            end_opt == proven_end(rs.take(i as int)),
        decreases rs.len() - i,
    {
        proof {
            assert(rs.take(i + 1).drop_last() == rs.take(i as int));
            assert(rs.take(i + 1).last() == rs[i as int]);
        }
        if runs[i].state.is_usable() {
            end_opt = Some(runs[i].range.end());
        }
        i = i + 1;
    }
    proof {
        assert(rs.take(rs.len() as int) == rs);
    }
    let end = match end_opt {
        Some(e) => e,
        None => return None,
    };
    proof {
        assert forall|q: int| 0 <= q < rs.len() implies (#[trigger] rs[q]).range.end() <= map.total() by {
            crate::sector_map::lemma_contiguous_at(rs, q);
            crate::sector_map::lemma_contiguous_at(rs, rs.len() - 1);
            if q < rs.len() - 1 {
                crate::sector_map::lemma_runs_ordered(rs, q, rs.len() - 1);
            }
            assert(rs.last() == rs[rs.len() - 1]);
        }
        lemma_proven_end_within(rs, map.total());
    }
    let ghost gend = end as int;
    // Candidate starts, ascending and without repeats.
    let mut starts: Vec<u64> = Vec::new();
    let mut k: usize = 0;
    while k < runs.len()
        invariant
            runs@ == rs,
            k <= rs.len(),
            head == data_head(*policy),
            align == if policy.alignment_sectors >= 1 { policy.alignment_sectors } else { 1 },
            forall|a: int, b: int| 0 <= a < b < starts@.len() ==> #[trigger] starts@[a] < #[trigger] starts@[b],
            forall|x: u64| #[trigger] starts@.contains(x) <==> exists|j: int|
                0 <= j < k && (#[trigger] rs[j]).state.spec_is_usable() && splice_start(rs[j].range, *policy) == x
                    && x < end,
        decreases rs.len() - k,
    {
        let run = runs[k];
        let ghost before = starts@;
        if run.state.is_usable() {
            let s0 = if run.range.start() >= head {
                run.range.start()
            } else {
                head
            };
            let rem = s0 % align;
            let rounded = if rem == 0 {
                Some(s0)
            } else {
                s0.checked_add(align - rem)
            };
            match rounded {
                Some(s) => {
                    if s < end {
                        insert_unique(&mut starts, s);
                    }
                },
                None => {},
            }
            proof {
                assert(splice_start(run.range, *policy) == match rounded {
                    Some(s) => s as int,
                    None => splice_start(run.range, *policy),
                });
                assert(rounded is None ==> splice_start(run.range, *policy) > u64::MAX);
            }
        }
        proof {
            assert forall|x: u64| #[trigger] starts@.contains(x) <==> exists|j: int|
                0 <= j < k + 1 && (#[trigger] rs[j]).state.spec_is_usable() && splice_start(rs[j].range, *policy) == x
                    && x < end by {
                if exists|j: int| 0 <= j < k + 1 && (#[trigger] rs[j]).state.spec_is_usable() && splice_start(rs[j].range, *policy) == x
                    && x < end {
                    let j = choose|j: int| 0 <= j < k + 1 && (#[trigger] rs[j]).state.spec_is_usable() && splice_start(rs[j].range, *policy) == x
                        && x < end;
                    if j < k {
                        assert(before.contains(x));
                    }
                }
                if before.contains(x) {
                    let j = choose|j: int| 0 <= j < k && (#[trigger] rs[j]).state.spec_is_usable() && splice_start(rs[j].range, *policy) == x
                        && x < end;
                }
            }
        }
        k = k + 1;
    }
    // Earliest start first: an earlier start spans more of the card.
    let mut j: usize = 0;
    while j < starts.len()
        invariant
            runs@ == rs,
            rs == map.run_seq(),
            j <= starts@.len(),
            head == data_head(*policy),
            proven_end(rs) == Some(end),
            end <= map.total(),
            g == map.spec_geometry(),
            forall|a: int, b: int| 0 <= a < b < starts@.len() ==> #[trigger] starts@[a] < #[trigger] starts@[b],
            forall|x: u64| #[trigger] starts@.contains(x) <==> splice_candidate(rs, *policy, end as int, x as int),
            forall|a: int| 0 <= a < j ==> !splice_works(*map, *policy, #[trigger] starts@[a] as int, end as int),
        decreases starts@.len() - j,
    {
        let start = starts[j];
        let area = LbaRange::from_bounds(start, end);
        proof {
            assert(starts@.contains(start));
            assert(start < end);
            LbaRange::lemma_spec_bounds(start, end);
        }
        match Fat32Image::new(map, &area, 0, "SALVAGE") {
            Err(_) => {
                proof {
                    assert(!cluster_map_builds(*map, area));
                }
            },
            Ok(image) => {
                let layout = image.layout();
                proof {
                    use_type_invariant(&image);
                    use_type_invariant(layout);
                    layout.lemma_valid();
                    crate::fat32::lemma_free_clusters(
                        image,
                        map.run_seq(),
                        map.total(),
                        area.start() as int,
                        area.end() as int,
                    );
                    assert(cluster_map_builds(*map, area));
                }
                let usable_bytes = image.usable_bytes();
                if usable_bytes != 0 && area.len() >= policy.min_partition_sectors {
                    proof {
                        assert(image.spec_free_clusters() != 0) by (nonlinear_arith)
                            requires
                                image.spec_free_clusters() * layout.spec_sectors_per_cluster()
                                    * layout.spec_bytes_per_sector() != 0,
                        ;
                        assert(splice_works(*map, *policy, start as int, end as int));
                    }
                    let good = map.counts_in(area).good;
                    let approved = crate::geometry::saturating_mul_u64(good, g.sector_size() as u64);
                    proof {
                        reveal_strlit("spliced");
                        reveal_strlit("quarantine-head");
                    }
                    let mut partitions: Vec<PlannedPartition> = Vec::new();
                    if start > head {
                        partitions.push(PlannedPartition {
                            range: LbaRange::from_bounds(head, start),
                            role: PartitionRole::Quarantine,
                            mbr_type: QUARANTINE_MBR_TYPE,
                            label: String::from_str("quarantine-head"),
                        });
                    }
                    partitions.push(PlannedPartition {
                        range: area,
                        role: PartitionRole::Data,
                        mbr_type: FileSystem::Fat32.mbr_type(),
                        label: String::from_str("spliced"),
                    });
                    let plan = PartitionPlan {
                        strategy: Strategy::SplicedFat32,
                        partitions,
                        geometry: g,
                        usable_bytes,
                        sacrificed_bytes: if approved > usable_bytes {
                            approved - usable_bytes
                        } else {
                            0
                        },
                        containment: Containment::FilesystemClusterMap,
                    };
                    proof {
                        assert forall|s2: int| #[trigger] splice_candidate(rs, *policy, end as int, s2) && s2 < start implies !splice_works(
                            *map,
                            *policy,
                            s2,
                            end as int,
                        ) by {
                            let jj = choose|jj: int| 0 <= jj < rs.len() && (#[trigger] rs[jj]).state.spec_is_usable()
                                && splice_start(rs[jj].range, *policy) == s2 && s2 < end;
                            assert(0 <= s2 <= u64::MAX);
                            assert(starts@.contains(s2 as u64));
                            let a = choose|a: int| 0 <= a < starts@.len() && starts@[a] == s2 as u64;
                            if a >= j {
                                if a > j {
                                    assert(starts@[j as int] < starts@[a]);
                                }
                            }
                        }
                        let l = Fat32Layout::spec_plan(area.len(), map.spec_geometry().sector_size(), 0)->Ok_0;
                        assert(image.spec_layout() == l);
                        assert(plan.usable_bytes == cluster_map_free(*map, area) * l.spec_sectors_per_cluster() * l.spec_bytes_per_sector());
                        assert(good == crate::sector_map::counts_of(map.run_seq(), start as int, end as int).good);
                        assert(plan.partitions@.last().label@ == "spliced"@);
                        assert(plan.partitions@.last().range == area);
                        assert(plan.partitions@.len() == if start > head { 2int } else { 1int });
                        if start > head {
                            assert(plan.partitions@[0].range == LbaRange::spec_bounds(head, start));
                            assert(plan.partitions@[0].label@ == "quarantine-head"@);
                        }
                        assert(plan.sacrificed_bytes == sat_sub(sat_mul(good, g.sector_size() as u64), plan.usable_bytes));
                        assert(plan.geometry == map.spec_geometry());
                        assert(spliced_plan(*map, *policy, start as int, end as int, plan));
                        assert(splice_candidate(rs, *policy, end as int, start as int));
                        assert forall|s2: int| #[trigger] splice_candidate(map.run_seq(), *policy, end as int, s2) && s2 < start implies !splice_works(
                            *map,
                            *policy,
                            s2,
                            end as int,
                        ) by {
                            assert(splice_candidate(rs, *policy, end as int, s2));
                        }
                        let rr = Some(plan);
                        assert(rr->Some_0 == plan);
                        assert(proven_end(map.run_seq()) == Some(end));
                        assert(splice_candidate(map.run_seq(), *policy, end as int, start as int));
                        lemma_splice_found(*map, *policy, end, start as int, plan);
                    }
                    return Some(plan);
                }
                proof {
                    if usable_bytes == 0 {
                        assert(image.spec_free_clusters() == 0) by (nonlinear_arith)
                            requires
                                image.spec_free_clusters() * layout.spec_sectors_per_cluster()
                                    * layout.spec_bytes_per_sector() == 0,
                                layout.spec_sectors_per_cluster() >= 1,
                                layout.spec_bytes_per_sector() >= 512,
                                image.spec_free_clusters() >= 0,
                        ;
                    }
                }
            },
        }
        j = j + 1;
    }
    proof {
        assert forall|s: int| #[trigger] splice_candidate(rs, *policy, end as int, s) implies !splice_works(*map, *policy, s, end as int) by {
            let jj = choose|jj: int| 0 <= jj < rs.len() && (#[trigger] rs[jj]).state.spec_is_usable()
                && splice_start(rs[jj].range, *policy) == s && s < end;
            assert(starts@.contains(s as u64));
            let a = choose|a: int| 0 <= a < starts@.len() && starts@[a] == s as u64;
        }
    }
    None
}

// ---------------------------------------------------------------------------
// Generating the plans.
// ---------------------------------------------------------------------------

/// A fence always contains the run it was drawn around.
proof fn lemma_fence_contains(r: LbaRange, p: PlanningPolicy)
    ensures
        fence(r, p).0 <= r.start(),
        r.end() <= fence(r, p).1,
{
    let s = sat_sub(r.start(), p.guard_band_sectors);
    let e = sat_add(r.end(), p.guard_band_sectors);
    if p.alignment_sectors > 1 {
        let a = p.alignment_sectors;
        assert(s % a <= s) by (nonlinear_arith)
            requires
                a > 1,
        ;
        assert(round_down(s, a) <= s);
        assert(round_up_sat(e, a) >= e);
    }
}

/// A non-empty area clear of condemned ground sits past the partition table
/// and on the device.
proof fn lemma_clear_placed(map: SectorMap, p: PlanningPolicy, c: LbaRange)
    requires
        clear_of_condemned(map, p, c),
        c.start() < c.end(),
    ensures
        1 <= c.start() < c.end() <= map.total(),
{
    let x = c.start() as int;
    let y = c.end() - 1;
    assert(c.start() <= x < c.end());
    assert(!condemned_at(map.run_seq(), p, x));
    assert(c.start() <= y < c.end());
    assert(!condemned_at(map.run_seq(), p, y));
}

/// A table holding a data partition has a data partition.
proof fn lemma_has_data(parts: Seq<PlannedPartition>, k: int)
    requires
        0 <= k < parts.len(),
        parts[k].role == PartitionRole::Data,
    ensures
        with_role(parts, PartitionRole::Data).len() > 0,
    decreases parts.len(),
{
    if k < parts.len() - 1 {
        let t = parts.drop_last();
        assert(t[k] == parts[k]);
        lemma_has_data(t, k);
    }
}

/// What `candidate_ranges` guarantees of its non-empty members, stated over
/// membership.
proof fn lemma_candidates(map: SectorMap, p: PlanningPolicy, ranked_all: Seq<LbaRange>, cands: Seq<LbaRange>)
    requires
        forall|k: int| 0 <= k < ranked_all.len() ==> #[trigger] clear_of_condemned(map, p, ranked_all[k]),
        forall|i: int, j: int|
            0 <= i < ranked_all.len() && 0 <= j < ranked_all.len() && (#[trigger] ranked_all[i]) != (#[trigger] ranked_all[j])
                && ranked_all[i].len() > 0 && ranked_all[j].len() > 0 ==> ranked_all[i].end() <= ranked_all[j].start()
                || ranked_all[j].end() <= ranked_all[i].start(),
        forall|c: LbaRange| #[trigger] cands.contains(c) <==> ranked_all.contains(c) && c.len() > 0,
    ensures
        forall|c: LbaRange| #[trigger] cands.contains(c) ==> clear_of_condemned(map, p, c) && 1 <= c.start() < c.end() <= map.total(),
        forall|a: int, b: int|
            0 <= a < cands.len() && 0 <= b < cands.len() && (#[trigger] cands[a]) != (#[trigger] cands[b]) ==> disjoint(
                cands[a],
                cands[b],
            ),
{
    assert forall|c: LbaRange| #[trigger] cands.contains(c) implies clear_of_condemned(map, p, c) && 1 <= c.start() < c.end() <= map.total() by {
        assert(ranked_all.contains(c));
        let k = choose|k: int| 0 <= k < ranked_all.len() && ranked_all[k] == c;
        assert(clear_of_condemned(map, p, ranked_all[k]));
        lemma_clear_placed(map, p, c);
    }
    assert forall|a: int, b: int|
        0 <= a < cands.len() && 0 <= b < cands.len() && (#[trigger] cands[a]) != (#[trigger] cands[b]) implies disjoint(
            cands[a],
            cands[b],
        ) by {
        assert(cands.contains(cands[a]) && cands.contains(cands[b]));
        let ka = choose|ka: int| 0 <= ka < ranked_all.len() && ranked_all[ka] == cands[a];
        let kb = choose|kb: int| 0 <= kb < ranked_all.len() && ranked_all[kb] == cands[b];
    }
}

/// With never-inspected area condemned, an area clear of every condemned
/// region holds nothing but proven sectors.
proof fn lemma_clear_is_proven(map: SectorMap, p: PlanningPolicy, c: LbaRange)
    requires
        map.wf(),
        p.treat_untested_as_unsafe,
        clear_of_condemned(map, p, c),
    ensures
        proven(map, c),
{
    let runs = map.run_seq();
    assert forall|x: int| c.start() <= x < c.end() && x < map.total() implies #[trigger] state_in(map.run_seq(), x)
        == SectorState::Good by {
        crate::sector_map::lemma_contiguous_at(runs, 0);
        let k = crate::sector_map::lemma_lba_in_some_run(runs, x);
        crate::sector_map::lemma_state_in_run(runs, k, x);
        lemma_fence_contains(runs[k].range, p);
        if runs[k].state != SectorState::Good {
            assert(condemns(p, runs[k].state));
            assert(condemned_at(runs, p, x));
        }
    }
}

/// What validation answers for `plan` against `map`: the first structural
/// fault found, in the order the checks run, or else whether every data
/// partition is contained, naming the first that is not.
pub open spec fn validation_outcome(plan: PartitionPlan, map: SectorMap, max: usize, r: Result<(), PlanError>) -> bool
{
    let parts = plan.partitions@;
    let total = plan.geometry.total_sectors();
    let c = plan.containment;
    &&& parts.len() > max ==> r == Err::<(), PlanError>(
        PlanError::TooManyPartitions { count: parts.len() as usize, max },
    )
    &&& parts.len() <= max ==> ({
        &&& (exists|k: int| 0 <= k < parts.len() && #[trigger] misplaced(parts[k], total)) ==> exists|k: int|
            0 <= k < parts.len() && #[trigger] misplaced(parts[k], total) && (forall|k2: int|
                0 <= k2 < k ==> !#[trigger] misplaced(parts[k2], total)) && r == Err::<(), PlanError>(
                misplaced_error(parts[k], total),
            )
        &&& (forall|k: int| 0 <= k < parts.len() ==> !#[trigger] misplaced(parts[k], total)) ==> ({
            &&& (exists|i: int, j: int| #[trigger] overlapping(parts, i, j)) ==> exists|i: int, j: int|
                #[trigger] first_overlap(parts, i, j) && r == Err::<(), PlanError>(
                    PlanError::OverlappingPartitions { a: parts[i].label, b: parts[j].label },
                )
            &&& (forall|i: int, j: int| !#[trigger] overlapping(parts, i, j)) ==> ({
                &&& r is Ok <==> forall|k: int| 0 <= k < parts.len() ==> #[trigger] contained(map, c, parts[k])
                &&& r is Err ==> exists|k: int|
                    0 <= k < parts.len() && !#[trigger] contained(map, c, parts[k]) && (forall|k2: int|
                        0 <= k2 < k ==> #[trigger] contained(map, c, parts[k2])) && containment_error(
                        map,
                        c,
                        parts[k],
                        r->Err_0,
                    )
            })
        })
    })
}

/// The plan passes every check `validate` makes against `map` with a table of
/// `max` entries.
pub open spec fn passes_validation(map: SectorMap, plan: PartitionPlan, max: usize) -> bool {
    let parts = plan.partitions@;
    &&& parts.len() <= max
    &&& forall|k: int| 0 <= k < parts.len() ==> !#[trigger] misplaced(parts[k], plan.geometry.total_sectors())
    &&& forall|i: int, j: int| !#[trigger] overlapping(parts, i, j)
    &&& forall|k: int| 0 <= k < parts.len() ==> #[trigger] contained(map, plan.containment, parts[k])
}

/// The strategies in the order plans are offered.
pub open spec fn strategy_rank(s: Strategy) -> int {
    match s {
        Strategy::LargestContiguous => 0,
        Strategy::MaximumSpace => 1,
        Strategy::Conservative => 2,
        Strategy::SplicedFat32 => 3,
    }
}

/// An assembled plan over nonempty data areas that are clear of condemned
/// ground passes validation.
proof fn lemma_assembled_passes(
    map: SectorMap,
    p: PlanningPolicy,
    data: Seq<LbaRange>,
    fs: FileSystem,
    plan: PartitionPlan,
)
    requires
        map.wf(),
        p.treat_untested_as_unsafe,
        data.len() <= p.max_partitions,
        forall|i: int| 0 <= i < data.len() ==> #[trigger] clear_of_condemned(map, p, data[i]),
        plan.geometry == map.spec_geometry(),
        plan.containment == Containment::PartitionBoundary,
        pairwise_disjoint(plan.partitions@),
        plan.partitions@.len() <= p.max_partitions,
        forall|k: int| 0 <= k < plan.partitions@.len() ==> #[trigger] placed(plan.partitions@[k], map.total()),
        forall|k: int| 0 <= k < plan.partitions@.len() ==> #[trigger] assembled_entry(map, p, data, fs, plan.partitions@[k]),
    ensures
        passes_validation(map, plan, p.max_partitions),
{
    let parts = plan.partitions@;
    assert forall|k: int| 0 <= k < parts.len() implies !#[trigger] misplaced(parts[k], plan.geometry.total_sectors()) by {
        assert(placed(parts[k], map.total()));
    }
    assert forall|i: int, j: int| !#[trigger] overlapping(parts, i, j) by {
        if 0 <= i < j < parts.len() {
            assert(disjoint(parts[i].range, parts[j].range));
            assert(placed(parts[i], map.total()) && placed(parts[j], map.total()));
        }
    }
    assert forall|k: int| 0 <= k < parts.len() implies #[trigger] contained(map, plan.containment, parts[k]) by {
        assert(assembled_entry(map, p, data, fs, parts[k]));
        if parts[k].role == PartitionRole::Data {
            let i = choose|i: int| 0 <= i < data.len() && #[trigger] data[i] == parts[k].range && parts[k].label@ == data_label(data.len() as int, i);
            lemma_clear_is_proven(map, p, data[i]);
        }
    }
}

/// The non-empty ranges of `rs`, in order.
fn nonempty(rs: &Vec<LbaRange>) -> (out: Vec<LbaRange>)
    ensures
        forall|c: LbaRange| #[trigger] out@.contains(c) <==> rs@.contains(c) && c.len() > 0,
        forall|k: int| 0 <= k < out@.len() ==> (#[trigger] out@[k]).len() > 0,
        (forall|a: int, b: int| 0 <= a < b < rs@.len() && (#[trigger] rs@[a]).len() > 0 ==> rs@[a] != #[trigger] rs@[b])
            ==> forall|a: int, b: int| 0 <= a < b < out@.len() ==> #[trigger] out@[a] != #[trigger] out@[b],
        ranked(rs@) && out@.len() > 0 ==> forall|k: int| 0 <= k < rs@.len() && (#[trigger] rs@[k]).len() > 0 ==> ranks_before(out@[0], rs@[k]),
{
    let mut out: Vec<LbaRange> = Vec::new();
    let ghost mut src: Seq<int> = Seq::empty();
    let mut i: usize = 0;
    while i < rs.len()
        invariant
            i <= rs@.len(),
            src.len() == out@.len(),
            forall|k: int| 0 <= k < src.len() ==> 0 <= #[trigger] src[k] < i && out@[k] == rs@[src[k]],
            forall|k: int, l: int| 0 <= k < l < src.len() ==> #[trigger] src[k] < #[trigger] src[l],
            forall|k: int| 0 <= k < out@.len() ==> (#[trigger] out@[k]).len() > 0,
            forall|m: int| 0 <= m < i && (#[trigger] rs@[m]).len() > 0 ==> exists|k: int| 0 <= k < src.len() && src[k] == m,
            out@.len() > 0 ==> forall|m: int| 0 <= m < src[0] ==> (#[trigger] rs@[m]).len() == 0,
            out@.len() == 0 ==> forall|m: int| 0 <= m < i ==> (#[trigger] rs@[m]).len() == 0,
        decreases rs@.len() - i,
    {
        let ghost old_src = src;
        if rs[i].len() > 0 {
            out.push(rs[i]);
            proof {
                src = src.push(i as int);
            }
        }
        proof {
            assert forall|m: int| 0 <= m < i + 1 && (#[trigger] rs@[m]).len() > 0 implies exists|k: int| 0 <= k < src.len() && src[k] == m by {
                if m < i {
                    let k = choose|k: int| 0 <= k < old_src.len() && old_src[k] == m;
                    assert(src[k] == m);
                } else {
                    assert(src[src.len() - 1] == m);
                }
            }
        }
        i = i + 1;
    }
    proof {
        assert forall|c: LbaRange| #[trigger] out@.contains(c) <==> rs@.contains(c) && c.len() > 0 by {
            if out@.contains(c) {
                let k = choose|k: int| 0 <= k < out@.len() && out@[k] == c;
                assert(rs@[src[k]] == c);
            }
            if rs@.contains(c) && c.len() > 0 {
                let m = choose|m: int| 0 <= m < rs@.len() && rs@[m] == c;
                let k = choose|k: int| 0 <= k < src.len() && src[k] == m;
                assert(out@[k] == c);
            }
        }
        if forall|a: int, b: int| 0 <= a < b < rs@.len() && (#[trigger] rs@[a]).len() > 0 ==> rs@[a] != #[trigger] rs@[b] {
            assert forall|a: int, b: int| 0 <= a < b < out@.len() implies #[trigger] out@[a] != #[trigger] out@[b] by {
                assert(src[a] < src[b]);
            }
        }
        if ranked(rs@) && out@.len() > 0 {
            assert forall|k: int| 0 <= k < rs@.len() && (#[trigger] rs@[k]).len() > 0 implies ranks_before(out@[0], rs@[k]) by {
                if k != src[0] {
                    if k < src[0] {
                    } else {
                        assert(ranks_before(rs@[src[0]], rs@[k]));
                    }
                }
            }
        }
    }
    out
}

/// The partitions agree in every field.
pub open spec fn same_layout(a: Seq<PlannedPartition>, b: Seq<PlannedPartition>) -> bool {
    &&& a.len() == b.len()
    &&& forall|k: int|
        0 <= k < a.len() ==> (#[trigger] a[k]).range == b[k].range && a[k].role == b[k].role && a[k].mbr_type
            == b[k].mbr_type && a[k].label@ == b[k].label@
}

/// Whether two tables hold the same partitions.
fn same_partitions(a: &Vec<PlannedPartition>, b: &Vec<PlannedPartition>) -> (r: bool)
    ensures
        r == same_layout(a@, b@),
{
    if a.len() != b.len() {
        return false;
    }
    let mut k: usize = 0;
    while k < a.len()
        invariant
            a@.len() == b@.len(),
            k <= a@.len(),
            forall|m: int| 0 <= m < k ==> (#[trigger] a@[m]).range == b@[m].range && a@[m].role == b@[m].role
                && a@[m].mbr_type == b@[m].mbr_type && a@[m].label@ == b@[m].label@,
        decreases a@.len() - k,
    {
        let x = &a[k];
        let y = &b[k];
        if !(x.range == y.range && x.role == y.role && x.mbr_type == y.mbr_type && x.label == y.label) {
            return false;
        }
        k = k + 1;
    }
    true
}

/// The spliced plan passes validation wherever the others do.
proof fn lemma_spliced_offered(map: SectorMap, p: PlanningPolicy, plan: PartitionPlan)
    requires
        map.wf(),
        splice_outcome(map, p, Some(plan)),
    ensures
        offered(map, p, plan),
        plan.strategy == Strategy::SplicedFat32,
{
    let runs = map.run_seq();
    let end = proven_end(runs)->Some_0;
    let s = choose|s: int| #[trigger] first_working_start(map, p, end as int, s) && spliced_plan(map, p, s, end as int, plan);
    assert forall|q: int| 0 <= q < runs.len() implies (#[trigger] runs[q]).range.end() <= map.total() by {
        crate::sector_map::lemma_contiguous_at(runs, q);
        crate::sector_map::lemma_contiguous_at(runs, runs.len() - 1);
        if q < runs.len() - 1 {
            crate::sector_map::lemma_runs_ordered(runs, q, runs.len() - 1);
        }
        assert(runs.last() == runs[runs.len() - 1]);
    }
    lemma_proven_end_within(runs, map.total());
    let parts = plan.partitions@;
    let area = LbaRange::spec_bounds(s as u64, end as u64);
    let i = choose|i: int| 0 <= i < runs.len() && (#[trigger] runs[i]).state.spec_is_usable() && splice_start(runs[i].range, p) == s
        && s < end;
    assert(s >= data_head(p));
    LbaRange::lemma_spec_bounds(s as u64, end as u64);
    LbaRange::lemma_spec_bounds(data_head(p), s as u64);
    assert(parts.last() == parts[parts.len() - 1]);
    lemma_has_data(parts, parts.len() - 1);
    if p.treat_untested_as_unsafe && p.max_partitions >= 2 {
        assert forall|k: int| 0 <= k < parts.len() implies !#[trigger] misplaced(parts[k], plan.geometry.total_sectors()) by {
        }
        assert forall|a: int, b: int| !#[trigger] overlapping(parts, a, b) by {
        }
        assert forall|k: int| 0 <= k < parts.len() implies #[trigger] contained(map, plan.containment, parts[k]) by {
        }
    }
}

/// What `plan_layouts` promises of every plan it offers.
pub open spec fn offered(map: SectorMap, p: PlanningPolicy, plan: PartitionPlan) -> bool {
    &&& plan.geometry == map.spec_geometry()
    &&& with_role(plan.partitions@, PartitionRole::Data).len() > 0
    &&& plan.strategy == Strategy::SplicedFat32 ==> splice_outcome(map, p, Some(plan))
    &&& p.treat_untested_as_unsafe && p.max_partitions >= 2 ==> passes_validation(map, plan, p.max_partitions)
    &&& plan.containment == Containment::PartitionBoundary ==> data_clear(map, p, plan.partitions@)
    &&& plan.containment == Containment::PartitionBoundary ==> data_aligned(p.alignment_sectors, plan.partitions@)
}

/// `r` starts and ends on multiples of `a`.
pub open spec fn aligned_to(r: LbaRange, a: u64) -> bool {
    a <= 1 || (r.start() % a == 0 && r.end() % a == 0)
}

/// Every data partition starts and ends on the alignment, so that its
/// clusters meet the card's erase blocks.
pub open spec fn data_aligned(a: u64, parts: Seq<PlannedPartition>) -> bool {
    forall|k: int| 0 <= k < parts.len() && parts[k].role == PartitionRole::Data ==> #[trigger] aligned_to(parts[k].range, a)
}

/// A nonempty candidate area starts and ends on the alignment.
proof fn lemma_candidate_aligned(map: SectorMap, p: PlanningPolicy, c: LbaRange)
    requires
        candidate(map, p, c),
        c.len() > 0,
    ensures
        aligned_to(c, p.alignment_sectors),
{
    let a = p.alignment_sectors;
    if a > 1 {
        let (lo, hi) = data_span(p, map.total());
        let g = choose|g: LbaRange|
            #[trigger] free_gap(map.run_seq(), p, lo as int, hi as int, g) && c.start() == inward(g, a).0 && c.end()
                == inward(g, a).1 && c.len() >= p.min_partition_sectors;
        let s0 = round_up_sat(g.start(), a);
        let e0 = round_down(g.end(), a);
        assert(e0 > s0);
        crate::geometry::lemma_round_down_multiple(g.end(), a);
        if g.start() % a != 0 && g.start() + (a - g.start() % a) > u64::MAX {
            assert(s0 == u64::MAX);
        }
        crate::geometry::lemma_round_up_multiple(g.start(), a);
    }
}

/// The nonempty candidates are aligned.
proof fn lemma_candidates_aligned(map: SectorMap, p: PlanningPolicy, ranked_all: Seq<LbaRange>, cands: Seq<LbaRange>)
    requires
        forall|c: LbaRange| #[trigger] ranked_all.contains(c) <==> candidate(map, p, c),
        forall|c: LbaRange| #[trigger] cands.contains(c) <==> ranked_all.contains(c) && c.len() > 0,
    ensures
        forall|c: LbaRange| #[trigger] cands.contains(c) ==> aligned_to(c, p.alignment_sectors),
{
    assert forall|c: LbaRange| #[trigger] cands.contains(c) implies aligned_to(c, p.alignment_sectors) by {
        assert(ranked_all.contains(c));
        lemma_candidate_aligned(map, p, c);
    }
}

/// A plan assembled from aligned areas has aligned data partitions.
proof fn lemma_assembled_aligned(map: SectorMap, p: PlanningPolicy, data: Seq<LbaRange>, fs: FileSystem, plan: PartitionPlan)
    requires
        forall|i: int| 0 <= i < data.len() ==> #[trigger] aligned_to(data[i], p.alignment_sectors),
        forall|k: int| 0 <= k < plan.partitions@.len() ==> #[trigger] assembled_entry(map, p, data, fs, plan.partitions@[k]),
    ensures
        data_aligned(p.alignment_sectors, plan.partitions@),
{
    let parts = plan.partitions@;
    assert forall|k: int| 0 <= k < parts.len() && parts[k].role == PartitionRole::Data implies #[trigger] aligned_to(
        parts[k].range,
        p.alignment_sectors,
    ) by {
        assert(assembled_entry(map, p, data, fs, parts[k]));
        let i = choose|i: int| 0 <= i < data.len() && #[trigger] data[i] == parts[k].range && parts[k].label@ == data_label(
            data.len() as int,
            i,
        );
        assert(aligned_to(data[i], p.alignment_sectors));
    }
}

/// Every data partition lies clear of the fences the policy puts around what
/// it condemns.
pub open spec fn data_clear(map: SectorMap, p: PlanningPolicy, parts: Seq<PlannedPartition>) -> bool {
    forall|k: int|
        0 <= k < parts.len() && parts[k].role == PartitionRole::Data ==> #[trigger] clear_of_condemned(
            map,
            p,
            parts[k].range,
        )
}

/// A wider guard band at the same alignment fences at least as much.
proof fn lemma_fence_widens(r: LbaRange, p: PlanningPolicy, q: PlanningPolicy)
    requires
        q.alignment_sectors == p.alignment_sectors,
        q.guard_band_sectors >= p.guard_band_sectors,
    ensures
        fence(r, q).0 <= fence(r, p).0,
        fence(r, p).1 <= fence(r, q).1,
{
    let sp = sat_sub(r.start(), p.guard_band_sectors);
    let sq = sat_sub(r.start(), q.guard_band_sectors);
    let ep = sat_add(r.end(), p.guard_band_sectors);
    let eq = sat_add(r.end(), q.guard_band_sectors);
    assert(sq <= sp);
    assert(ep <= eq);
    if p.alignment_sectors > 1 {
        crate::geometry::lemma_round_down_monotone(sq, sp, p.alignment_sectors);
        crate::geometry::lemma_round_up_sat_monotone(ep, eq, p.alignment_sectors);
    }
}

/// A sector fenced under a narrower guard band is fenced under a wider one.
proof fn lemma_condemned_widens(runs: Seq<Run>, p: PlanningPolicy, q: PlanningPolicy, x: int)
    requires
        q.alignment_sectors == p.alignment_sectors,
        q.guard_band_sectors >= p.guard_band_sectors,
        q.treat_untested_as_unsafe == p.treat_untested_as_unsafe,
        condemned_at(runs, p, x),
    ensures
        condemned_at(runs, q, x),
{
    let i = choose|i: int|
        0 <= i < runs.len() && condemns(p, (#[trigger] runs[i]).state) && fence(runs[i].range, p).0 <= x < fence(
            runs[i].range,
            p,
        ).1;
    lemma_fence_widens(runs[i].range, p, q);
    assert(condemns(q, runs[i].state));
}

/// A sector clear of the wider fences is clear of the narrower ones.
proof fn lemma_clear_point(map: SectorMap, p: PlanningPolicy, q: PlanningPolicy, c: LbaRange, x: int)
    requires
        q.alignment_sectors == p.alignment_sectors,
        q.guard_band_sectors >= p.guard_band_sectors,
        q.treat_untested_as_unsafe == p.treat_untested_as_unsafe,
        clear_of_condemned(map, q, c),
        c.start() <= x < c.end(),
    ensures
        data_head(p) <= x,
        x < map.total(),
        !condemned_at(map.run_seq(), p, x),
{
    assert(!condemned_at(map.run_seq(), q, x));
    if condemned_at(map.run_seq(), p, x) {
        lemma_condemned_widens(map.run_seq(), p, q, x);
    }
}

/// What lies clear of the fences of a wider guard band lies clear of those
/// of a narrower one.
proof fn lemma_clear_of_narrower(map: SectorMap, p: PlanningPolicy, q: PlanningPolicy, c: LbaRange)
    requires
        q.alignment_sectors == p.alignment_sectors,
        q.guard_band_sectors >= p.guard_band_sectors,
        q.treat_untested_as_unsafe == p.treat_untested_as_unsafe,
        clear_of_condemned(map, q, c),
    ensures
        clear_of_condemned(map, p, c),
{
    // The bounds hold at both ends, hence everywhere between.
    if c.start() < c.end() {
        lemma_clear_point(map, p, q, c, c.start() as int);
        lemma_clear_point(map, p, q, c, c.end() - 1);
    }
    assert forall|x: int| c.start() <= x < c.end() implies data_head(p) <= x && x < map.total()
        && !#[trigger] condemned_at(map.run_seq(), p, x) by {
        lemma_clear_point(map, p, q, c, x);
    }
}

/// Data partitions clear of the wider fences are clear of the narrower ones.
proof fn lemma_data_clear_narrower(map: SectorMap, p: PlanningPolicy, q: PlanningPolicy, parts: Seq<PlannedPartition>)
    requires
        q.alignment_sectors == p.alignment_sectors,
        q.guard_band_sectors >= p.guard_band_sectors,
        q.treat_untested_as_unsafe == p.treat_untested_as_unsafe,
        data_clear(map, q, parts),
    ensures
        data_clear(map, p, parts),
{
    assert forall|k: int| 0 <= k < parts.len() && parts[k].role == PartitionRole::Data implies #[trigger] clear_of_condemned(
        map,
        p,
        parts[k].range,
    ) by {
        assert(clear_of_condemned(map, q, parts[k].range));
        lemma_clear_of_narrower(map, p, q, parts[k].range);
    }
}

/// A plan assembled from areas clear of the policy's fences keeps every
/// data partition clear of them.
proof fn lemma_assembled_clear(map: SectorMap, p: PlanningPolicy, data: Seq<LbaRange>, fs: FileSystem, plan: PartitionPlan)
    requires
        forall|i: int| 0 <= i < data.len() ==> #[trigger] clear_of_condemned(map, p, data[i]),
        forall|k: int| 0 <= k < plan.partitions@.len() ==> #[trigger] assembled_entry(map, p, data, fs, plan.partitions@[k]),
    ensures
        data_clear(map, p, plan.partitions@),
{
    let parts = plan.partitions@;
    assert forall|k: int| 0 <= k < parts.len() && parts[k].role == PartitionRole::Data implies #[trigger] clear_of_condemned(
        map,
        p,
        parts[k].range,
    ) by {
        assert(assembled_entry(map, p, data, fs, parts[k]));
        let i = choose|i: int| 0 <= i < data.len() && #[trigger] data[i] == parts[k].range && parts[k].label@ == data_label(
            data.len() as int,
            i,
        );
        assert(clear_of_condemned(map, p, data[i]));
    }
}

/// `view` is the fenced view of `map` under `p`: the measured map, with every
/// approved sector that a fence covers shown as withheld.
pub open spec fn fenced_view_of(view: SectorMap, map: SectorMap, p: PlanningPolicy) -> bool {
    &&& view.spec_geometry() == map.spec_geometry()
    &&& view.alias_seq() == map.alias_seq()
    &&& forall|x: int|
        0 <= x < map.total() ==> #[trigger] view.state(x) == if map.state(x) == SectorState::Good && condemned_at(
            map.run_seq(),
            p,
            x,
        ) {
            SectorState::Fenced
        } else {
            map.state(x)
        }
}

/// A plan offered with the partition boundary as its containment, and valid
/// against the measured map, is valid against the fenced view of that map
/// too: the view withholds only what the plan already keeps clear of.
pub proof fn lemma_offered_plan_holds_on_fenced_view(
    map: SectorMap,
    p: PlanningPolicy,
    plan: PartitionPlan,
    view: SectorMap,
    max: usize,
)
    requires
        offered(map, p, plan),
        plan.containment == Containment::PartitionBoundary,
        passes_validation(map, plan, max),
        fenced_view_of(view, map, p),
    ensures
        passes_validation(view, plan, max),
{
    let parts = plan.partitions@;
    assert forall|k: int| 0 <= k < parts.len() implies #[trigger] contained(view, plan.containment, parts[k]) by {
        assert(contained(map, plan.containment, parts[k]));
        if parts[k].role == PartitionRole::Data {
            assert(clear_of_condemned(map, p, parts[k].range));
            let r = parts[k].range;
            assert forall|x: int| r.start() <= x < r.end() && x < view.total() implies #[trigger] state_in(
                view.run_seq(),
                x,
            ) == SectorState::Good by {
                assert(state_in(map.run_seq(), x) == SectorState::Good);
                assert(!condemned_at(map.run_seq(), p, x));
                assert(view.state(x) == map.state(x));
            }
        }
    }
}

/// Generates the applicable layouts, from most conservative to most
/// space-efficient: the largest contiguous area; several areas; the largest
/// area under a guard band four times wider, when that differs; and the
/// spliced volume. Plans without a data area are never offered.
pub fn plan_layouts(map: &SectorMap, filesystem: FileSystem, policy: &PlanningPolicy) -> (plans: Vec<PartitionPlan>)
    requires
        policy.guard_band_sectors * 4 <= u64::MAX,
    ensures
        plans@.len() <= 4,
        forall|i: int, j: int| 0 <= i < j < plans@.len() ==> strategy_rank((#[trigger] plans@[i]).strategy) < strategy_rank(
            (#[trigger] plans@[j]).strategy,
        ),
        forall|k: int| 0 <= k < plans@.len() ==> #[trigger] offered(*map, *policy, plans@[k]),
        splice_outcome(*map, *policy, None) ==> forall|k: int| 0 <= k < plans@.len() ==> (#[trigger] plans@[k]).strategy
            != Strategy::SplicedFat32,
        !splice_outcome(*map, *policy, None) ==> exists|k: int| 0 <= k < plans@.len() && (#[trigger] plans@[k]).strategy
            == Strategy::SplicedFat32,
{
    proof {
        use_type_invariant(map);
        map.lemma_wf();
    }
    let mut plans: Vec<PartitionPlan> = Vec::new();
    let ghost mut last_rank: int = -1;
    let ranked_all = candidate_ranges(map, policy);
    let candidates = nonempty(&ranked_all);
    proof {
        lemma_candidates(*map, *policy, ranked_all@, candidates@);
        lemma_candidates_aligned(*map, *policy, ranked_all@, candidates@);
    }
    if candidates.len() > 0 {
        let largest = candidates[0];
        let mut one: Vec<LbaRange> = Vec::new();
        one.push(largest);
        proof {
            assert(candidates@.contains(largest));
            assert(one@ == seq![largest]);
        }
        let plan = assemble(Strategy::LargestContiguous, map, policy, one, filesystem);
        proof {
            assert(holds_data(plan.partitions@, one@, filesystem, 0));
            let k = choose|k: int| 0 <= k < plan.partitions@.len() && #[trigger] plan.partitions@[k].range == one@[0]
                && plan.partitions@[k].role == PartitionRole::Data && plan.partitions@[k].label@ == data_label(1, 0)
                && plan.partitions@[k].mbr_type == filesystem.spec_mbr_type();
            lemma_has_data(plan.partitions@, k);
            if policy.treat_untested_as_unsafe && policy.max_partitions >= 2 {
                lemma_assembled_passes(*map, *policy, one@, filesystem, plan);
            }
            lemma_assembled_clear(*map, *policy, one@, filesystem, plan);
            lemma_assembled_aligned(*map, *policy, one@, filesystem, plan);
            assert(offered(*map, *policy, plan));
            last_rank = 0;
        }
        plans.push(plan);
    }
    let has_condemned = condemned_ranges(map, policy).len() > 0;
    let data_slots = if has_condemned {
        if policy.max_partitions >= 2 {
            policy.max_partitions - 1
        } else {
            1
        }
    } else {
        policy.max_partitions
    };
    if candidates.len() > 1 && data_slots > 1 {
        let mut chosen: Vec<LbaRange> = Vec::new();
        let mut i: usize = 0;
        while i < candidates.len() && i < data_slots
            invariant
                i <= candidates@.len(),
                i <= data_slots,
                sorted_by_start(chosen@),
                chosen@.len() == i,
                forall|r: LbaRange| #[trigger] chosen@.contains(r) <==> candidates@.take(i as int).contains(r),
                forall|a: int, b: int| 0 <= a < b < candidates@.len() ==> #[trigger] candidates@[a] != #[trigger] candidates@[b],
                forall|a: int, b: int|
                    0 <= a < candidates@.len() && 0 <= b < candidates@.len() && (#[trigger] candidates@[a]) != (#[trigger] candidates@[b])
                        ==> disjoint(candidates@[a], candidates@[b]),
                forall|a: int, b: int| 0 <= a < chosen@.len() && 0 <= b < chosen@.len() && a != b ==> disjoint(
                    #[trigger] chosen@[a],
                    #[trigger] chosen@[b],
                ),
            decreases candidates@.len() - i,
        {
            proof {
                assert forall|k: int| 0 <= k < chosen@.len() implies disjoint(#[trigger] chosen@[k], candidates@[i as int]) by {
                    assert(chosen@.contains(chosen@[k]));
                    let q = choose|q: int| 0 <= q < i && candidates@.take(i as int)[q] == chosen@[k];
                    assert(candidates@[q] == chosen@[k]);
                    assert(candidates@[q] != candidates@[i as int]);
                }
            }
            insert_by_start(&mut chosen, candidates[i]);
            proof {
                assert forall|r: LbaRange| #[trigger] chosen@.contains(r) <==> candidates@.take(i + 1).contains(r) by {
                    let t = candidates@.take(i + 1);
                    assert(t[i as int] == candidates@[i as int]);
                    if candidates@.take(i as int).contains(r) {
                        let q = choose|q: int| 0 <= q < i && candidates@.take(i as int)[q] == r;
                        assert(t[q] == r);
                    }
                    if t.contains(r) {
                        let q = choose|q: int| 0 <= q < i + 1 && t[q] == r;
                        if q < i {
                            assert(candidates@.take(i as int)[q] == r);
                        }
                    }
                }
            }
            i = i + 1;
        }
        let ghost chosen_seq = chosen@;
        proof {
            assert forall|a: int| 0 <= a < chosen@.len() implies #[trigger] clear_of_condemned(*map, *policy, chosen@[a])
                && 1 <= chosen@[a].start() < chosen@[a].end() <= map.total() by {
                assert(chosen@.contains(chosen@[a]));
                let q = choose|q: int| 0 <= q < i && candidates@.take(i as int)[q] == chosen@[a];
                assert(candidates@[q] == chosen@[a]);
                assert(candidates@.contains(chosen@[a]));
            }
            assert forall|a: int| 0 <= a < chosen@.len() implies 1 <= (#[trigger] chosen@[a]).start() < chosen@[a].end() <= map.total() by {
                assert(clear_of_condemned(*map, *policy, chosen@[a]));
            }
        }
        let plan = assemble(Strategy::MaximumSpace, map, policy, chosen, filesystem);
        proof {
            assert(holds_data(plan.partitions@, chosen_seq, filesystem, 0));
            let k = choose|k: int| 0 <= k < plan.partitions@.len() && #[trigger] plan.partitions@[k].range == chosen_seq[0]
                && plan.partitions@[k].role == PartitionRole::Data && plan.partitions@[k].label@ == data_label(chosen_seq.len() as int, 0)
                && plan.partitions@[k].mbr_type == filesystem.spec_mbr_type();
            lemma_has_data(plan.partitions@, k);
            if policy.treat_untested_as_unsafe && policy.max_partitions >= 2 {
                lemma_assembled_passes(*map, *policy, chosen_seq, filesystem, plan);
            }
            lemma_assembled_clear(*map, *policy, chosen_seq, filesystem, plan);
            assert forall|a: int| 0 <= a < chosen_seq.len() implies #[trigger] aligned_to(chosen_seq[a], policy.alignment_sectors) by {
                assert(chosen_seq.contains(chosen_seq[a]));
                assert(candidates@.take(i as int).contains(chosen_seq[a]));
                let q = choose|q: int| 0 <= q < i && candidates@.take(i as int)[q] == chosen_seq[a];
                assert(candidates@[q] == chosen_seq[a]);
                assert(candidates@.contains(chosen_seq[a]));
            }
            lemma_assembled_aligned(*map, *policy, chosen_seq, filesystem, plan);
            assert(offered(*map, *policy, plan));
            last_rank = 1;
        }
        plans.push(plan);
    }
    let cons_policy = PlanningPolicy { guard_band_sectors: policy.guard_band_sectors * 4, ..*policy };
    let cons_ranked = candidate_ranges(map, &cons_policy);
    let cons_candidates = nonempty(&cons_ranked);
    proof {
        lemma_candidates(*map, cons_policy, cons_ranked@, cons_candidates@);
        lemma_candidates_aligned(*map, cons_policy, cons_ranked@, cons_candidates@);
    }
    if cons_candidates.len() > 0 {
        let largest = cons_candidates[0];
        let mut one: Vec<LbaRange> = Vec::new();
        one.push(largest);
        proof {
            assert(cons_candidates@.contains(largest));
            assert(one@ == seq![largest]);
        }
        let plan = assemble(Strategy::Conservative, map, &cons_policy, one, filesystem);
        proof {
            assert(holds_data(plan.partitions@, one@, filesystem, 0));
            let k = choose|k: int| 0 <= k < plan.partitions@.len() && #[trigger] plan.partitions@[k].range == one@[0]
                && plan.partitions@[k].role == PartitionRole::Data && plan.partitions@[k].label@ == data_label(1, 0)
                && plan.partitions@[k].mbr_type == filesystem.spec_mbr_type();
            lemma_has_data(plan.partitions@, k);
            if policy.treat_untested_as_unsafe && policy.max_partitions >= 2 {
                lemma_assembled_passes(*map, cons_policy, one@, filesystem, plan);
                assert(passes_validation(*map, plan, policy.max_partitions));
            }
            lemma_assembled_clear(*map, cons_policy, one@, filesystem, plan);
            lemma_assembled_aligned(*map, cons_policy, one@, filesystem, plan);
            lemma_data_clear_narrower(*map, *policy, cons_policy, plan.partitions@);
            assert(offered(*map, *policy, plan));
        }
        let differs = if plans.len() == 0 {
            true
        } else {
            !same_partitions(&plans[0].partitions, &plan.partitions)
        };
        if differs {
            proof {
                last_rank = 2;
            }
            plans.push(plan);
        }
    }
    let ghost before_splice = plans@;
    match spliced_layout(map, policy) {
        Some(spliced) => {
            proof {
                lemma_spliced_offered(*map, *policy, spliced);
            }
            plans.push(spliced);
            proof {
                assert(plans@[plans@.len() - 1].strategy == Strategy::SplicedFat32);
            }
        },
        None => {},
    }
    proof {
        assert(forall|k: int| 0 <= k < plans@.len() ==> #[trigger] offered(*map, *policy, plans@[k]));
    }
    plans
}

/// What a layout would have needed, reported when none could be produced.
#[derive(Debug, Clone, Copy, PartialEq, Eq, Structural)]
pub struct LayoutRequirements {
    /// Approved sectors on the whole card.
    pub approved_sectors: u64,
    /// How many separate runs they are split across.
    pub approved_runs: usize,
    /// Sectors in the largest single run.
    pub largest_run_sectors: u64,
    /// Contiguous approved sectors a fenced partition needs: a guard band at
    /// each end plus the minimum partition size.
    pub fenced_needs_sectors: u64,
    /// Contiguous approved sectors the spliced volume's metadata needs, or
    /// `None` when the area could not host a FAT32 volume at all.
    pub spliced_needs_sectors: Option<u64>,
}

/// The largest length among `rs`, or zero.
pub open spec fn max_len(rs: Seq<LbaRange>) -> u64
    decreases rs.len(),
{
    if rs.len() == 0 {
        0
    } else if rs.last().len() >= max_len(rs.drop_last()) {
        rs.last().len()
    } else {
        max_len(rs.drop_last())
    }
}

/// The largest length among ranges is a maximum: no range is longer, and it
/// is the length of one of them, or zero when there is none.
pub proof fn lemma_max_len_is_maximum(rs: Seq<LbaRange>)
    ensures
        forall|i: int| 0 <= i < rs.len() ==> (#[trigger] rs[i]).len() <= max_len(rs),
        rs.len() == 0 ==> max_len(rs) == 0,
        rs.len() > 0 ==> exists|i: int| 0 <= i < rs.len() && max_len(rs) == (#[trigger] rs[i]).len(),
    decreases rs.len(),
{
    if rs.len() > 0 {
        let p = rs.drop_last();
        lemma_max_len_is_maximum(p);
        assert forall|i: int| 0 <= i < rs.len() implies (#[trigger] rs[i]).len() <= max_len(rs) by {
            if i < rs.len() - 1 {
                assert(rs[i] == p[i]);
            }
        }
        if rs.last().len() >= max_len(p) {
            assert(max_len(rs) == rs[rs.len() - 1].len());
        } else {
            let i = choose|i: int| 0 <= i < p.len() && max_len(p) == (#[trigger] p[i]).len();
            assert(rs[i] == p[i]);
        }
    }
}

/// The largest length among `rs`, or zero.
pub(crate) fn largest_len(rs: &Vec<LbaRange>) -> (r: u64)
    ensures
        r == max_len(rs@),
        forall|i: int| 0 <= i < rs@.len() ==> (#[trigger] rs@[i]).len() <= r,
        rs@.len() == 0 ==> r == 0,
        rs@.len() > 0 ==> exists|i: int| 0 <= i < rs@.len() && r == (#[trigger] rs@[i]).len(),
{
    let mut largest: u64 = 0;
    let mut i: usize = 0;
    proof {
        assert(rs@.take(0) =~= Seq::<LbaRange>::empty());
    }
    while i < rs.len()
        invariant
            i <= rs@.len(),
            largest == max_len(rs@.take(i as int)),
        decreases rs@.len() - i,
    {
        proof {
            assert(rs@.take(i + 1).drop_last() == rs@.take(i as int));
            assert(rs@.take(i + 1).last() == rs@[i as int]);
        }
        if rs[i].len() >= largest {
            largest = rs[i].len();
        }
        i = i + 1;
    }
    proof {
        assert(rs@.take(rs@.len() as int) == rs@);
        lemma_max_len_is_maximum(rs@);
    }
    largest
}

/// Computes what the card would have had to offer for any layout to exist.
pub fn layout_requirements(map: &SectorMap, policy: &PlanningPolicy) -> (r: LayoutRequirements)
    ensures
        ({
            let runs = ranges_where(map.run_seq(), |s: SectorState| s.spec_is_usable());
            &&& r.approved_sectors == crate::sector_map::counts_of(map.run_seq(), 0, map.total() as int).good
            &&& r.approved_runs == runs.len()
            &&& r.largest_run_sectors == max_len(runs)
            &&& forall|a: int, b: int| #[trigger] crate::health::good_stretch(*map, a, b) ==> b - a <= r.largest_run_sectors
            &&& r.largest_run_sectors > 0 ==> exists|a: int| #[trigger] crate::health::good_stretch(
                *map,
                a,
                a + r.largest_run_sectors,
            )
            &&& r.fenced_needs_sectors == sat_add(sat_mul(policy.guard_band_sectors, 2), policy.min_partition_sectors)
            &&& r.spliced_needs_sectors == if runs.len() == 0 {
                None::<u64>
            } else {
                let planned = Fat32Layout::spec_plan(
                    sat_sub(runs.last().end(), runs[0].start()),
                    map.spec_geometry().sector_size(),
                    0,
                );
                if planned is Ok {
                    Some(planned->Ok_0.spec_metadata_sectors() as u64)
                } else {
                    None::<u64>
                }
            }
        }),
{
    let runs = map.usable_ranges();
    let approved_sectors = map.counts().good;
    let largest = largest_len(&runs);
    proof {
        use_type_invariant(map);
        map.lemma_wf();
        crate::health::lemma_largest_usable_is_longest(*map);
    }
    let spliced_needs_sectors = if runs.len() == 0 {
        None
    } else {
        let first = runs[0];
        let last = runs[runs.len() - 1];
        let span = if last.end() > first.start() {
            last.end() - first.start()
        } else {
            0
        };
        match Fat32Layout::plan(span, map.geometry().sector_size(), 0) {
            Ok(l) => Some(l.metadata_sectors()),
            Err(_) => None,
        }
    };
    let doubled = crate::geometry::saturating_mul_u64(policy.guard_band_sectors, 2);
    let fenced_needs = match doubled.checked_add(policy.min_partition_sectors) {
        Some(v) => v,
        None => u64::MAX,
    };
    LayoutRequirements {
        approved_sectors,
        approved_runs: runs.len(),
        largest_run_sectors: largest,
        fenced_needs_sectors: fenced_needs,
        spliced_needs_sectors,
    }
}

} // verus!
