//! Device descriptions and the ports used to reach them.
//!
//! The ports are deliberately minimal: read sectors, write sectors, flush.
//! Everything operating-system specific sits behind these traits, which is
//! what makes it possible to exercise the entire program against a simulated
//! card before touching real hardware.
use vstd::prelude::*;
use vstd::string::StringExecFns;

use crate::geometry::{sat_add, sat_mul, DeviceGeometry};
use crate::text::{append_decimal, decimal_chars, has_prefix, push_char, starts_with, trim, trimmed};

verus! {

/// The error type of std's input and output, carried through as it came.
#[verifier::external_type_specification]
#[verifier::external_body]
pub struct ExIoError(std::io::Error);

/// Bus the device is attached to: the strongest single signal for telling a
/// memory card apart from the disk the operating system runs on.
#[derive(Debug, Clone, Copy, PartialEq, Eq, Hash, Structural)]
pub enum BusType {
    /// Native SD card reader.
    Sd,
    /// MMC controller.
    Mmc,
    /// USB attachment, including external card readers.
    Usb,
    /// NVMe: always an internal SSD.
    Nvme,
    /// SATA or ATA: internal disk.
    Sata,
    /// SCSI or SAS.
    Scsi,
    /// RAID controller.
    Raid,
    /// Unrecognised bus.
    Unknown,
}

/// Stable display identifier of each bus.
pub open spec fn bus_name(b: BusType) -> &'static str {
    match b {
        BusType::Sd => "SD",
        BusType::Mmc => "MMC",
        BusType::Usb => "USB",
        BusType::Nvme => "NVMe",
        BusType::Sata => "SATA",
        BusType::Scsi => "SCSI",
        BusType::Raid => "RAID",
        BusType::Unknown => "unknown",
    }
}

impl BusType {
    pub open spec fn spec_is_internal_only(&self) -> bool {
        *self is Nvme || *self is Sata || *self is Raid
    }

    /// Buses a memory card can appear on. USB is among them because nearly
    /// every external microSD reader presents itself that way.
    pub fn can_carry_removable_card(&self) -> (r: bool)
        ensures
            r == (*self is Sd || *self is Mmc || *self is Usb),
    {
        matches!(self, BusType::Sd | BusType::Mmc | BusType::Usb)
    }

    /// Buses that exist only for fixed internal storage.
    #[verifier::when_used_as_spec(spec_is_internal_only)]
    pub fn is_internal_only(&self) -> (r: bool)
        ensures
            r == self.spec_is_internal_only(),
    {
        matches!(self, BusType::Nvme | BusType::Sata | BusType::Raid)
    }

    /// Stable identifier for display.
    pub fn as_str(&self) -> (r: &'static str)
        ensures
            r@ == bus_name(*self)@,
    {
        match self {
            BusType::Sd => "SD",
            BusType::Mmc => "MMC",
            BusType::Usb => "USB",
            BusType::Nvme => "NVMe",
            BusType::Sata => "SATA",
            BusType::Scsi => "SCSI",
            BusType::Raid => "RAID",
            BusType::Unknown => "unknown",
        }
    }
}

/// A mounted volume belonging to a device.
#[derive(Debug, Clone, PartialEq, Eq)]
pub struct VolumeInfo {
    /// Drive letter, when one is assigned.
    pub drive_letter: Option<char>,
    /// Volume label.
    pub label: Option<String>,
    /// Reported filesystem.
    pub filesystem: Option<String>,
    /// Whether the volume hosts the Windows directory.
    pub is_system_volume: bool,
    /// Whether the volume hosts the boot partition.
    pub is_boot_volume: bool,
}

/// Everything known about a device before opening it for writing.
#[derive(Debug, Clone, PartialEq, Eq)]
pub struct DeviceInfo {
    /// Path used to open it, e.g. `\\.\PhysicalDrive3`.
    pub path: String,
    /// Physical index assigned by the system.
    pub index: u32,
    /// Reported model.
    pub model: String,
    /// Reported vendor.
    pub vendor: String,
    /// Serial number, when available.
    pub serial: Option<String>,
    /// Bus type.
    pub bus_type: BusType,
    /// Whether the media is declared removable. Not trustworthy on its own:
    /// many USB microSD adapters report `false` even while carrying a card.
    pub removable_media: bool,
    /// Reported geometry.
    pub geometry: DeviceGeometry,
    /// Mounted volumes belonging to this device.
    pub volumes: Vec<VolumeInfo>,
}

/// The readable name: the trimmed model, preceded by the trimmed vendor
/// unless the vendor is empty or the model already starts with it.
pub open spec fn display_name_of(model: Seq<char>, vendor: Seq<char>) -> Seq<char> {
    let m = trimmed(model);
    let v = trimmed(vendor);
    if v.len() == 0 || has_prefix(m, v) {
        m
    } else {
        v + seq![' '] + m
    }
}

/// A volume that hosts the system or the boot partition.
pub open spec fn is_system_or_boot(v: VolumeInfo) -> bool {
    v.is_system_volume || v.is_boot_volume
}

/// The serial as the fingerprint writes it: `-` when there is none.
pub open spec fn serial_text(serial: Option<String>) -> Seq<char> {
    match serial {
        Some(s) => s@,
        None => seq!['-'],
    }
}

/// The device's identity: trimmed model, vendor and serial, then sector count
/// and sector size, separated by `|`. The physical index is left out: it is
/// recycled when media is swapped.
pub open spec fn fingerprint_of(d: DeviceInfo) -> Seq<char> {
    trimmed(d.model@) + seq!['|'] + trimmed(d.vendor@) + seq!['|'] + trimmed(serial_text(d.serial)) + seq!['|']
        + decimal_chars(d.geometry.total_sectors() as nat) + seq!['|'] + decimal_chars(
        d.geometry.sector_size() as nat,
    )
}

impl DeviceInfo {
    /// Readable name, used for display and for typed confirmation.
    pub fn display_name(&self) -> (r: String)
        ensures
            r@ == display_name_of(self.model@, self.vendor@),
    {
        let m = trim(self.model.as_str());
        let v = trim(self.vendor.as_str());
        if v.unicode_len() == 0 || starts_with(m, v) {
            String::from_str(m)
        } else {
            let mut s = String::from_str(v);
            push_char(&mut s, ' ');
            s.append(m);
            s
        }
    }

    /// Whether any volume on this device hosts the system or the boot
    /// partition.
    pub fn hosts_system(&self) -> (r: bool)
        ensures
            r == exists|i: int| 0 <= i < self.volumes@.len() && #[trigger] is_system_or_boot(self.volumes@[i]),
    {
        let mut i: usize = 0;
        while i < self.volumes.len()
            invariant
                i <= self.volumes@.len(),
                forall|k: int| 0 <= k < i ==> !#[trigger] is_system_or_boot(self.volumes@[k]),
            decreases self.volumes@.len() - i,
        {
            let v = &self.volumes[i];
            if v.is_system_volume || v.is_boot_volume {
                assert(is_system_or_boot(self.volumes@[i as int]));
                return true;
            }
            i = i + 1;
        }
        false
    }

    /// Capacity in bytes, as reported.
    pub fn capacity_bytes(&self) -> (r: u64)
        ensures
            r == sat_mul(self.geometry.total_sectors(), self.geometry.sector_size() as u64),
    {
        self.geometry.total_bytes()
    }

    /// Stable fingerprint, used to guarantee the device approved in a plan is
    /// the same one being written.
    pub fn fingerprint(&self) -> (r: String)
        ensures
            r@ == fingerprint_of(*self),
    {
        let mut s = String::from_str(trim(self.model.as_str()));
        push_char(&mut s, '|');
        s.append(trim(self.vendor.as_str()));
        push_char(&mut s, '|');
        match &self.serial {
            Some(serial) => s.append(trim(serial.as_str())),
            None => {
                proof {
                    reveal_strlit("-");
                }
                let dash = trim("-");
                s.append(dash);
            },
        }
        push_char(&mut s, '|');
        append_decimal(&mut s, self.geometry.total_sectors());
        push_char(&mut s, '|');
        append_decimal(&mut s, self.geometry.sector_size() as u64);
        s
    }
}

/// Two descriptions of the same media share a fingerprint, whatever index
/// and path the system assigned them.
pub proof fn lemma_fingerprint_ignores_slot(a: DeviceInfo, b: DeviceInfo)
    requires
        a.model@ == b.model@,
        a.vendor@ == b.vendor@,
        serial_text(a.serial) == serial_text(b.serial),
        a.geometry == b.geometry,
    ensures
        fingerprint_of(a) == fingerprint_of(b),
{
}

/// Errors reaching a block device.
#[derive(Debug)]
pub enum DeviceError {
    /// I/O failure reported by the system.
    Io {
        /// LBA where the operation failed.
        lba: u64,
        /// Underlying cause.
        source: std::io::Error,
    },
    /// Buffer size incompatible with the sector size.
    UnalignedBuffer {
        /// Buffer length.
        len: usize,
        /// Sector size.
        sector_size: u32,
    },
    /// Access past the end of the device.
    OutOfBounds {
        /// First LBA requested.
        lba: u64,
        /// End of the access.
        end: u64,
        /// Device size.
        total: u64,
    },
    /// Exclusive access could not be obtained.
    LockFailed(String),
    /// Write attempted on a device opened read-only.
    ReadOnly,
    /// Any other failure.
    Other(String),
}

/// The text of an error of std's input and output, as std displays it.
/// Nothing is stated of it: for an error of the system the wording comes from
/// the system.
#[verifier::external_body]
fn io_error_text(e: &std::io::Error) -> String {
    e.to_string()
}

/// The description of a device error, all but the system's own wording of an
/// input or output failure, which follows the prefix.
pub open spec fn device_error_text(e: DeviceError) -> Seq<char> {
    match e {
        DeviceError::Io { lba, .. } => "I/O error at LBA "@ + decimal_chars(lba as nat) + ": "@,
        DeviceError::UnalignedBuffer { len, sector_size } => "buffer of "@ + decimal_chars(len as nat)
            + " bytes is not a multiple of the "@ + decimal_chars(sector_size as nat) + " byte sector"@,
        DeviceError::OutOfBounds { lba, end, total } => "access to "@ + decimal_chars(lba as nat) + ".."@
            + decimal_chars(end as nat) + " exceeds the device's "@ + decimal_chars(total as nat) + " sectors"@,
        DeviceError::LockFailed(why) => "could not lock the device: "@ + why@,
        DeviceError::ReadOnly => "device was opened read-only"@,
        DeviceError::Other(why) => why@,
    }
}

impl DeviceError {
    /// A sentence describing the error. For an input or output failure the
    /// system's description follows the text stated.
    pub fn message(&self) -> (r: String)
        ensures
            *self is Io ==> has_prefix(r@, device_error_text(*self)),
            !(*self is Io) ==> r@ == device_error_text(*self),
    {
        match self {
            DeviceError::Io { lba, source } => {
                let mut s = String::from_str("I/O error at LBA ");
                append_decimal(&mut s, *lba);
                s.append(": ");
                let ghost prefix = s@;
                s.append(io_error_text(source).as_str());
                proof {
                    reveal_strlit("I/O error at LBA ");
                    reveal_strlit(": ");
                    assert(s@.subrange(0, prefix.len() as int) =~= prefix);
                }
                s
            },
            DeviceError::UnalignedBuffer { len, sector_size } => {
                let mut s = String::from_str("buffer of ");
                append_decimal(&mut s, *len as u64);
                s.append(" bytes is not a multiple of the ");
                append_decimal(&mut s, *sector_size as u64);
                s.append(" byte sector");
                s
            },
            DeviceError::OutOfBounds { lba, end, total } => {
                let mut s = String::from_str("access to ");
                append_decimal(&mut s, *lba);
                s.append("..");
                append_decimal(&mut s, *end);
                s.append(" exceeds the device's ");
                append_decimal(&mut s, *total);
                s.append(" sectors");
                s
            },
            DeviceError::LockFailed(why) => {
                let mut s = String::from_str("could not lock the device: ");
                s.append(why.as_str());
                s
            },
            DeviceError::ReadOnly => String::from_str("device was opened read-only"),
            DeviceError::Other(why) => String::from_str(why.as_str()),
        }
    }
}

/// What an access of `len` bytes at `lba` is checked against: a whole,
/// non-zero number of sectors that ends on the device.
pub open spec fn access_ok(g: DeviceGeometry, lba: u64, len: usize) -> bool {
    let ss = g.sector_size();
    &&& len != 0
    &&& (len as int) % (ss as int) == 0
    &&& sat_add(lba, ((len as int) / (ss as int)) as u64) <= g.total_sectors()
}

/// The three requests a block device answers.
#[derive(Debug, Clone, Copy, PartialEq, Eq, Structural)]
pub enum DeviceCall {
    /// A read of whole sectors.
    Read,
    /// A write of whole sectors.
    Write,
    /// A flush of pending writes.
    Flush,
}

/// One request made of a device, as it was answered: the first sector
/// addressed, the bytes that travelled (handed over for a write, as they
/// stood in the buffer afterwards for a read, none for a flush) and whether
/// the device reported success.
pub struct DeviceOp {
    pub call: DeviceCall,
    pub lba: u64,
    pub data: Seq<u8>,
    pub ok: bool,
}

/// A read of `data` from `lba`.
pub open spec fn read_op(lba: u64, data: Seq<u8>, ok: bool) -> DeviceOp {
    DeviceOp { call: DeviceCall::Read, lba, data, ok }
}

/// A write of `data` at `lba`.
pub open spec fn write_op(lba: u64, data: Seq<u8>, ok: bool) -> DeviceOp {
    DeviceOp { call: DeviceCall::Write, lba, data, ok }
}

/// A flush.
pub open spec fn flush_op(ok: bool) -> DeviceOp {
    DeviceOp { call: DeviceCall::Flush, lba: 0, data: Seq::empty(), ok }
}

/// `h` begins with every request of `h0`, in the same order.
pub open spec fn extends(h: Seq<DeviceOp>, h0: Seq<DeviceOp>) -> bool {
    h0.len() <= h.len() && forall|i: int| 0 <= i < h0.len() ==> #[trigger] h[i] == h0[i]
}

/// Raw, sector-level access to a block device. Implementations treat
/// `read_at` and `write_at` as exact operations: a short transfer is an
/// error, not a success.
pub trait BlockDevice {
    /// The geometry the device reports.
    spec fn reported(&self) -> DeviceGeometry;

    /// Every read, write and flush the device was asked for so far, in order,
    /// with its answer.
    spec fn history(&self) -> Seq<DeviceOp>;

    /// Device geometry.
    fn geometry(&self) -> (r: DeviceGeometry)
        ensures
            r == self.reported(),
    ;

    /// Reads consecutive sectors from `lba`, filling `buf` completely.
    fn read_at(&mut self, lba: u64, buf: &mut [u8]) -> (r: Result<(), DeviceError>)
        ensures
            final(buf)@.len() == old(buf)@.len(),
            final(self).reported() == old(self).reported(),
            final(self).history() == old(self).history().push(read_op(lba, final(buf)@, r is Ok)),
    ;

    /// Writes all of `buf` starting at `lba`.
    fn write_at(&mut self, lba: u64, buf: &[u8]) -> (r: Result<(), DeviceError>)
        ensures
            final(self).reported() == old(self).reported(),
            final(self).history() == old(self).history().push(write_op(lba, buf@, r is Ok)),
    ;

    /// Ensures writes have reached the media.
    fn flush(&mut self) -> (r: Result<(), DeviceError>)
        ensures
            final(self).reported() == old(self).reported(),
            final(self).history() == old(self).history().push(flush_op(r is Ok)),
    ;

    /// Whether the device was opened to accept writes.
    spec fn accepts_writes(&self) -> bool;

    /// Whether the device accepts writes.
    fn is_writable(&self) -> (r: bool)
        ensures
            r == self.accepts_writes(),
    ;

    /// Validates an access against the geometry: the number of sectors it
    /// covers, or why it is refused.
    fn check_access(&self, lba: u64, len: usize) -> (r: Result<u64, DeviceError>)
        ensures
            ({
                let g = self.reported();
                let ss = g.sector_size();
                &&& (len == 0 || (len as int) % (ss as int) != 0) ==> r == Err::<u64, DeviceError>(
                    DeviceError::UnalignedBuffer { len, sector_size: ss },
                )
                &&& access_ok(g, lba, len) ==> r == Ok::<u64, DeviceError>(((len as int) / (ss as int)) as u64)
                &&& (len != 0 && (len as int) % (ss as int) == 0 && !access_ok(g, lba, len)) ==> r == Err::<
                    u64,
                    DeviceError,
                >(
                    DeviceError::OutOfBounds {
                        lba,
                        end: sat_add(lba, ((len as int) / (ss as int)) as u64),
                        total: g.total_sectors(),
                    },
                )
            }),
    {
        let g = self.geometry();
        let ss = g.sector_size();
        proof {
            use_type_invariant(&g);
            g.lemma_valid();
        }
        if len == 0 || len % (ss as usize) != 0 {
            return Err(DeviceError::UnalignedBuffer { len, sector_size: ss });
        }
        let sectors = (len / (ss as usize)) as u64;
        let end = lba.saturating_add(sectors);
        if end > g.total_sectors() {
            return Err(DeviceError::OutOfBounds { lba, end, total: g.total_sectors() });
        }
        Ok(sectors)
    }
}

/// Discovery of the devices present on the machine.
pub trait DeviceEnumerator {
    /// Lists every visible storage device.
    fn enumerate(&self) -> Result<Vec<DeviceInfo>, DeviceError>;
}

} // verus!
