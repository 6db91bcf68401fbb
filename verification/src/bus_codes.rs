//! The numeric bus codes Windows reports for a storage device, and what each
//! says about the device.
use vstd::prelude::*;

use crate::device::BusType;

verus! {

/// SCSI.
pub const SCSI: u32 = 0x01;
/// ATAPI.
pub const ATAPI: u32 = 0x02;
/// ATA.
pub const ATA: u32 = 0x03;
/// USB.
pub const USB: u32 = 0x07;
/// RAID.
pub const RAID: u32 = 0x08;
/// SAS.
pub const SAS: u32 = 0x0A;
/// SATA.
pub const SATA: u32 = 0x0B;
/// SD.
pub const SD: u32 = 0x0C;
/// MMC.
pub const MMC: u32 = 0x0D;
/// NVMe.
pub const NVME: u32 = 0x11;

/// The bus a code names.
pub open spec fn bus_of(code: u32) -> BusType {
    if code == SD {
        BusType::Sd
    } else if code == MMC {
        BusType::Mmc
    } else if code == USB {
        BusType::Usb
    } else if code == NVME {
        BusType::Nvme
    } else if code == SATA || code == ATA || code == ATAPI {
        BusType::Sata
    } else if code == SCSI || code == SAS {
        BusType::Scsi
    } else if code == RAID {
        BusType::Raid
    } else {
        BusType::Unknown
    }
}

/// Maps the numeric Windows bus code.
pub fn map_bus(code: u32) -> (r: BusType)
    ensures
        r == bus_of(code),
{
    if code == SD {
        BusType::Sd
    } else if code == MMC {
        BusType::Mmc
    } else if code == USB {
        BusType::Usb
    } else if code == NVME {
        BusType::Nvme
    } else if code == SATA || code == ATA || code == ATAPI {
        BusType::Sata
    } else if code == SCSI || code == SAS {
        BusType::Scsi
    } else if code == RAID {
        BusType::Raid
    } else {
        BusType::Unknown
    }
}

} // verus!
