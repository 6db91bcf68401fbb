use salvage::fat32::{
    encode_label, Fat32Error, Fat32Image, Fat32Layout, BACKUP_BOOT_SECTOR, BAD_CLUSTER,
    END_OF_CHAIN, FIRST_DATA_CLUSTER, FSINFO_SECTOR, MIN_FAT32_CLUSTERS, NUM_FATS,
    RESERVED_SECTORS,
};
use salvage::geometry::{DeviceGeometry, LbaRange};
use salvage::sector_map::{SectorMap, SectorState};

const SS: u32 = 512;

const SECTORS: u64 = 62_914_560;

fn map_with(defects: &[(u64, u64, SectorState)]) -> SectorMap {
    let mut m = SectorMap::new(DeviceGeometry::new(SS, SECTORS).unwrap());
    m.mark(LbaRange::from_bounds(0, SECTORS), SectorState::Good);
    for (a, b, s) in defects {
        m.mark(LbaRange::from_bounds(*a, *b), *s);
    }
    m
}

fn area() -> LbaRange {
    LbaRange::from_bounds(0, SECTORS)
}

fn image(defects: &[(u64, u64, SectorState)]) -> Fat32Image {
    Fat32Image::new(&map_with(defects), &area(), 0x1234_5678, "SALVAGE").unwrap()
}

fn sector(img: &Fat32Image, index: u64) -> Vec<u8> {
    let mut buf = vec![0u8; SS as usize];
    img.render_sector(index, &mut buf);
    buf
}

fn u16_at(b: &[u8], off: usize) -> u16 {
    u16::from_le_bytes([b[off], b[off + 1]])
}

fn u32_at(b: &[u8], off: usize) -> u32 {
    u32::from_le_bytes([b[off], b[off + 1], b[off + 2], b[off + 3]])
}

fn fat_entry(img: &Fat32Image, cluster: u32) -> u32 {
    let per_sector = SS / 4;
    let s = RESERVED_SECTORS as u64 + (cluster / per_sector) as u64;
    let b = sector(img, s);
    u32_at(&b, (cluster % per_sector) as usize * 4)
}

#[test]
fn the_boot_sector_carries_the_fields_a_driver_reads() {
    let img = image(&[]);
    let b = sector(&img, 0);
    let l = img.layout();

    assert_eq!(&b[3..11], b"MSWIN4.1");
    assert_eq!(u16_at(&b, 11), SS as u16, "bytes per sector");
    assert_eq!(b[13] as u32, l.sectors_per_cluster(), "sectors per cluster");
    assert_eq!(u16_at(&b, 14), RESERVED_SECTORS as u16);
    assert_eq!(b[16] as u32, NUM_FATS);
    assert_eq!(u16_at(&b, 17), 0, "FAT32 has no fixed-size root directory");
    assert_eq!(u16_at(&b, 22), 0, "the 16-bit FAT size must be zero on FAT32");
    assert_eq!(u32_at(&b, 32), SECTORS as u32, "total sectors");
    assert_eq!(u32_at(&b, 36), l.fat_sectors(), "FAT size");
    assert_eq!(u32_at(&b, 44), FIRST_DATA_CLUSTER, "root cluster");
    assert_eq!(u16_at(&b, 48), FSINFO_SECTOR as u16);
    assert_eq!(u16_at(&b, 50), BACKUP_BOOT_SECTOR as u16);
    assert_eq!(&b[82..90], b"FAT32   ");
    assert_eq!(&b[510..512], &[0x55, 0xAA], "boot signature");
}

#[test]
fn the_backup_boot_sector_is_identical_to_the_primary() {
    let img = image(&[]);
    assert_eq!(sector(&img, 0), sector(&img, BACKUP_BOOT_SECTOR as u64));
    assert_eq!(
        sector(&img, FSINFO_SECTOR as u64),
        sector(&img, (BACKUP_BOOT_SECTOR + FSINFO_SECTOR) as u64)
    );
}

#[test]
fn the_reserved_entries_and_the_root_directory_are_well_formed() {
    let img = image(&[]);
    assert_eq!(fat_entry(&img, 0), 0x0FFF_FFF8, "media descriptor entry");
    assert_eq!(fat_entry(&img, 1), END_OF_CHAIN, "flags entry");
    assert_eq!(fat_entry(&img, 2), END_OF_CHAIN, "root directory is a one-cluster chain");
}

#[test]
fn a_defective_sector_becomes_a_bad_cluster_in_the_table() {
    let l = Fat32Layout::plan(SECTORS, SS, 0).unwrap();
    let target = l.data_start_sector() as u64 + l.sectors_per_cluster() as u64 * 5_000 + 3;
    let img = image(&[(target, target + 1, SectorState::Corrupt)]);

    let cluster = FIRST_DATA_CLUSTER + 5_000;
    assert_eq!(fat_entry(&img, cluster), BAD_CLUSTER, "the defect did not reach the table");
    assert_eq!(fat_entry(&img, cluster - 1), 0, "a neighbour was condemned with it");
    assert_eq!(fat_entry(&img, cluster + 1), 0, "a neighbour was condemned with it");
    assert_eq!(img.condemned_clusters(), 1);
}

#[test]
fn both_copies_of_the_table_are_identical() {
    let l = Fat32Layout::plan(SECTORS, SS, 0).unwrap();
    let target = l.data_start_sector() as u64 + l.sectors_per_cluster() as u64 * 900;
    let img = image(&[(target, target + 8, SectorState::BadRead)]);

    for offset in [0u64, 1, 17, l.fat_sectors() as u64 - 1] {
        let primary = sector(&img, RESERVED_SECTORS as u64 + offset);
        let backup = sector(&img, RESERVED_SECTORS as u64 + l.fat_sectors() as u64 + offset);
        assert_eq!(primary, backup, "the copies diverge at FAT sector {offset}");
    }
}

#[test]
fn one_bad_sector_condemns_its_whole_cluster_and_no_more() {
    let l = Fat32Layout::plan(SECTORS, SS, 0).unwrap();
    let spc = l.sectors_per_cluster() as u64;
    let base = l.data_start_sector() as u64 + spc * 100;

    let img = image(&[(base + spc - 1, base + spc, SectorState::Corrupt)]);
    assert_eq!(img.condemned_clusters(), 1);
    assert_eq!(fat_entry(&img, FIRST_DATA_CLUSTER + 100), BAD_CLUSTER);
    assert_eq!(
        fat_entry(&img, FIRST_DATA_CLUSTER + 101),
        0,
        "a defect ending on the boundary spilled into the next cluster"
    );
}

#[test]
fn unverified_area_is_withheld_just_like_a_defect() {
    let mut m = SectorMap::new(DeviceGeometry::new(SS, SECTORS).unwrap());
    let l = Fat32Layout::plan(SECTORS, SS, 0).unwrap();
    let cut = l.data_start_sector() as u64 + l.sectors_per_cluster() as u64 * 1_000;
    m.mark(LbaRange::from_bounds(0, cut), SectorState::Good);

    let img = Fat32Image::new(&m, &area(), 0, "SALVAGE").unwrap();
    assert_eq!(
        img.condemned_clusters(),
        l.cluster_count() - 1_000,
        "uninspected clusters were left allocatable"
    );
    assert_eq!(fat_entry(&img, FIRST_DATA_CLUSTER + 1_000), BAD_CLUSTER);
}

#[test]
fn a_defect_in_the_metadata_is_refused_rather_than_marked() {
    let l = Fat32Layout::plan(SECTORS, SS, 0).unwrap();
    for bad in [0u64, 1, RESERVED_SECTORS as u64 + 5, l.data_start_sector() as u64 + 1] {
        let m = map_with(&[(bad, bad + 1, SectorState::Corrupt)]);
        let err = Fat32Image::new(&m, &area(), 0, "SALVAGE").unwrap_err();
        assert!(
            matches!(err, Fat32Error::DefectiveMetadata { .. }),
            "sector {bad} produced {err:?} instead of a refusal"
        );
    }
}

#[test]
fn an_area_too_small_for_the_format_is_refused() {
    let err = Fat32Layout::plan(1_000, SS, 0).unwrap_err();
    assert!(matches!(err, Fat32Error::TooSmall { .. }), "got {err:?}");

    let smallest = (MIN_FAT32_CLUSTERS as u64 + 16) * 8 + RESERVED_SECTORS as u64 + 4_096;
    assert!(Fat32Layout::plan(smallest, SS, 0).is_ok());
}

#[test]
fn the_table_is_large_enough_for_every_cluster_it_describes() {
    for sectors in [SECTORS, 8_388_608, 125_829_120, 245_760_000] {
        let l = Fat32Layout::plan(sectors, SS, 0).unwrap();
        let entries = l.fat_sectors() as u64 * (SS / 4) as u64;
        let needed = l.cluster_count() as u64 + FIRST_DATA_CLUSTER as u64;
        assert!(entries >= needed, "{sectors} sectors: FAT holds {entries}, needs {needed}");

        let consumed = RESERVED_SECTORS as u64
            + l.fat_sectors() as u64 * NUM_FATS as u64
            + l.cluster_count() as u64 * l.sectors_per_cluster() as u64;
        assert!(consumed <= sectors, "{sectors} sectors: layout claims {consumed}");
    }
}

#[test]
fn a_volume_larger_than_windows_will_format_is_still_a_legal_fat32() {
    for gigabytes in [33u64, 64, 128, 256] {
        let sectors = gigabytes * 1024 * 1024 * 1024 / SS as u64;
        let l = Fat32Layout::plan(sectors, SS, 0)
            .unwrap_or_else(|e| panic!("{gigabytes} GB was refused: {e:?}"));

        assert!(
            l.cluster_count() >= MIN_FAT32_CLUSTERS,
            "{gigabytes} GB: {} clusters is FAT16 territory",
            l.cluster_count()
        );
        assert!(
            (l.cluster_count() as u64 + FIRST_DATA_CLUSTER as u64) < 0x0FFF_FFF7,
            "{gigabytes} GB: the last cluster number collides with the bad-cluster mark"
        );

        let entries = l.fat_sectors() as u64 * (SS / 4) as u64;
        assert!(
            entries >= l.cluster_count() as u64 + FIRST_DATA_CLUSTER as u64,
            "{gigabytes} GB: the table cannot address its own clusters"
        );
        let consumed = RESERVED_SECTORS as u64
            + l.fat_sectors() as u64 * NUM_FATS as u64
            + l.cluster_count() as u64 * l.sectors_per_cluster() as u64;
        assert!(consumed <= sectors, "{gigabytes} GB: the layout claims {consumed} sectors");
    }
}

#[test]
fn the_free_count_reported_to_windows_excludes_the_defects() {
    let l = Fat32Layout::plan(SECTORS, SS, 0).unwrap();
    let spc = l.sectors_per_cluster() as u64;
    let base = l.data_start_sector() as u64 + spc * 2_000;
    let img = image(&[(base, base + spc * 50, SectorState::Corrupt)]);

    let fsinfo = sector(&img, FSINFO_SECTOR as u64);
    assert_eq!(u32_at(&fsinfo, 0), 0x4161_5252);
    assert_eq!(u32_at(&fsinfo, 484), 0x6141_7272);
    assert_eq!(&fsinfo[508..512], &[0x00, 0x00, 0x55, 0xAA]);

    let free = u32_at(&fsinfo, 488);
    assert_eq!(free, l.cluster_count() - 50 - 1, "free count ignored the bad clusters");
    assert_eq!(img.usable_bytes(), free as u64 * spc * SS as u64);
}

#[test]
fn the_volume_label_is_padded_and_sanitised() {
    assert_eq!(&encode_label("SALVAGE"), b"SALVAGE    ");
    assert_eq!(&encode_label("salvage"), b"SALVAGE    ");
    assert_eq!(&encode_label("a b"), b"A_B        ");
    assert_eq!(&encode_label("A VERY LONG LABEL"), b"A_VERY_LONG");
    assert_eq!(&encode_label(""), b"           ");
}

#[test]
fn the_root_directory_holds_the_volume_label() {
    let img = image(&[]);
    let l = img.layout();
    let root = sector(&img, l.data_start_sector() as u64);
    assert_eq!(&root[..11], b"SALVAGE    ");
    assert_eq!(root[11], 0x08, "the entry is not marked as a volume label");
}

#[test]
fn condemned_runs_come_back_sorted_and_merged() {
    let l = Fat32Layout::plan(SECTORS, SS, 0).unwrap();
    let spc = l.sectors_per_cluster() as u64;
    let ds = l.data_start_sector() as u64;
    let img = image(&[
        (ds + spc * 700, ds + spc * 702, SectorState::Corrupt),
        (ds + spc * 100, ds + spc * 101, SectorState::BadRead),
        (ds + spc * 101, ds + spc * 103, SectorState::Corrupt),
    ]);

    assert!(
        img.condemned_runs().windows(2).all(|w| w[0].end < w[1].start),
        "runs are not sorted and disjoint: {:?}",
        img.condemned_runs()
    );
    assert_eq!(img.condemned_clusters(), 5);
    for c in [100u32, 101, 102, 700, 701] {
        assert_eq!(
            fat_entry(&img, FIRST_DATA_CLUSTER + c),
            BAD_CLUSTER,
            "cluster {c} was left allocatable"
        );
    }
    assert_eq!(fat_entry(&img, FIRST_DATA_CLUSTER + 103), 0);
}

#[test]
fn no_entry_is_ever_written_outside_the_legal_set() {
    let l = Fat32Layout::plan(SECTORS, SS, 0).unwrap();
    let spc = l.sectors_per_cluster() as u64;
    let ds = l.data_start_sector() as u64;
    let img = image(&[(ds + spc * 40, ds + spc * 44, SectorState::Aliased)]);

    let mut buf = vec![0u8; SS as usize];
    for s in 0..l.fat_sectors() as u64 {
        img.render_sector(RESERVED_SECTORS as u64 + s, &mut buf);
        for e in buf.chunks_exact(4) {
            let v = u32::from_le_bytes([e[0], e[1], e[2], e[3]]);
            assert!(
                matches!(v, 0 | BAD_CLUSTER | END_OF_CHAIN | 0x0FFF_FFF8),
                "illegal FAT entry {v:#010x} in sector {s}"
            );
        }
    }
}

#[test]
fn the_rendered_table_agrees_with_the_entry_lookup() {
    let l = Fat32Layout::plan(SECTORS, SS, 0).unwrap();
    let spc = l.sectors_per_cluster() as u64;
    let ds = l.data_start_sector() as u64;
    let img = image(&[(ds + spc * 10, ds + spc * 12, SectorState::BadWrite)]);
    for c in [0u32, 1, 2, 11, 12, 13, 14, l.cluster_count() + 1] {
        assert_eq!(fat_entry(&img, c), img.fat_entry_for_test(c), "cluster {c}");
    }
    assert_eq!(img.fat_entry_for_test(12), BAD_CLUSTER);
    assert_eq!(img.fat_entry_for_test(14), 0);
}
