//! In-memory simulated card with programmable defects.
//!
//! A tool that repartitions cards cannot be developed with a genuinely
//! defective card as its only test bench. The simulator reproduces the defects
//! that matter (counterfeit capacity, read errors, write errors and silent
//! corruption) deterministically and instantly. Its counterfeit model is that
//! of a reprogrammed controller: address `L` reaches cell `L mod C`.
use vstd::prelude::*;

use crate::device::{access_ok, flush_op, read_op, write_op, BlockDevice, DeviceError, DeviceOp};
use crate::geometry::{sat_add, valid_sector_size, DeviceGeometry, LbaRange};

verus! {

/// `std::io::Error::other`: an error of kind `Other` carrying `message`.
/// Nothing of the error is stated: the library only carries it through.
#[verifier::external_body]
fn other_io_error(message: &str) -> std::io::Error {
    std::io::Error::other(String::from(message))
}

/// A simulated I/O failure at `lba`, described by `what`.
fn io_error(lba: u64, what: &str) -> (r: DeviceError)
    ensures
        r is Io,
        r->Io_lba == lba,
{
    let mut message = String::from_str("simulated ");
    message.append(what);
    message.append(" failure");
    DeviceError::Io { lba, source: other_io_error(message.as_str()) }
}

/// Defect exhibited by the simulated card.
#[derive(Debug, Clone, PartialEq, Eq)]
pub enum SimulatedFault {
    /// Healthy card.
    NoFault,
    /// Counterfeit capacity: only `real` sectors exist; the rest is aliased.
    FakeCapacity {
        /// Sectors actually present.
        real: u64,
    },
    /// Reads fail with an I/O error across the given range.
    ReadError {
        /// Affected range.
        range: LbaRange,
    },
    /// Writes fail with an I/O error across the given range.
    WriteError {
        /// Affected range.
        range: LbaRange,
    },
    /// The write is accepted, but the content is stored altered.
    SilentCorruption {
        /// Affected range.
        range: LbaRange,
    },
    /// Several defective ranges, cycling through the three failure kinds.
    Multiple {
        /// Affected ranges.
        ranges: Vec<LbaRange>,
    },
    /// Reads fail the first `fails` times and then succeed: a transient
    /// error, which a tool that does not retry would condemn.
    FlakyRead {
        /// Affected range.
        range: LbaRange,
        /// How many attempts fail before the sector answers.
        fails: u32,
    },
    /// Every payload bit is stuck at zero.
    StuckAtZero {
        /// Affected range.
        range: LbaRange,
    },
    /// Acknowledges every write but retains only the most recent sectors.
    VolatileWrites {
        /// How many sectors the device can actually hold.
        cache_sectors: usize,
    },
    /// No write is accepted anywhere.
    WriteProtected,
}

/// How an operation at an address fails.
#[derive(Debug, Clone, Copy, PartialEq, Eq, Structural)]
pub enum FaultKind {
    Read,
    Write,
    Corrupt,
}

/// The kind of the `i`-th range of a multiple fault.
pub open spec fn cycled_kind(i: int) -> FaultKind {
    if i % 3 == 0 {
        FaultKind::Read
    } else if i % 3 == 1 {
        FaultKind::Write
    } else {
        FaultKind::Corrupt
    }
}

/// The kind of the first range from `i` on that holds `lba`.
pub open spec fn first_hit(ranges: Seq<LbaRange>, lba: u64, i: int) -> Option<FaultKind>
    decreases ranges.len() - i,
{
    if 0 <= i < ranges.len() {
        if ranges[i].spec_contains(lba) {
            Some(cycled_kind(i))
        } else {
            first_hit(ranges, lba, i + 1)
        }
    } else {
        None
    }
}

/// The failure kind affecting an LBA. Intermittent reads, stuck cells and
/// limited retention are handled apart, as they depend on state or alter
/// content rather than failing the operation.
pub open spec fn fault_at(f: SimulatedFault, lba: u64) -> Option<FaultKind> {
    match f {
        SimulatedFault::ReadError { range } => if range.spec_contains(lba) {
            Some(FaultKind::Read)
        } else {
            None
        },
        SimulatedFault::WriteError { range } => if range.spec_contains(lba) {
            Some(FaultKind::Write)
        } else {
            None
        },
        SimulatedFault::SilentCorruption { range } => if range.spec_contains(lba) {
            Some(FaultKind::Corrupt)
        } else {
            None
        },
        SimulatedFault::WriteProtected => Some(FaultKind::Write),
        SimulatedFault::Multiple { ranges } => first_hit(ranges@, lba, 0),
        _ => None,
    }
}

impl SimulatedFault {
    /// Failure kind affecting an LBA, if any.
    pub fn at(&self, lba: u64) -> (r: Option<FaultKind>)
        ensures
            r == fault_at(*self, lba),
    {
        match self {
            SimulatedFault::ReadError { range } => if range.contains(lba) {
                Some(FaultKind::Read)
            } else {
                None
            },
            SimulatedFault::WriteError { range } => if range.contains(lba) {
                Some(FaultKind::Write)
            } else {
                None
            },
            SimulatedFault::SilentCorruption { range } => if range.contains(lba) {
                Some(FaultKind::Corrupt)
            } else {
                None
            },
            SimulatedFault::WriteProtected => Some(FaultKind::Write),
            SimulatedFault::Multiple { ranges } => {
                let mut i: usize = 0;
                while i < ranges.len()
                    invariant
                        i <= ranges@.len(),
                        fault_at(*self, lba) == first_hit(ranges@, lba, 0),
                        first_hit(ranges@, lba, 0) == first_hit(ranges@, lba, i as int),
                    decreases ranges@.len() - i,
                {
                    if ranges[i].contains(lba) {
                        let kind = if i % 3 == 0 {
                            FaultKind::Read
                        } else if i % 3 == 1 {
                            FaultKind::Write
                        } else {
                            FaultKind::Corrupt
                        };
                        assert(kind == cycled_kind(i as int));
                        assert(first_hit(ranges@, lba, i as int) == Some(cycled_kind(i as int)));
                        return Some(kind);
                    }
                    i = i + 1;
                }
                None
            },
            _ => None,
        }
    }
}

/// What a sector that lost its content holds at byte `j`: garbage, not
/// zeros.
pub open spec fn garbage(j: int) -> u8 {
    ((j % 256) as u8) ^ 0x5Au8
}

/// The cells a card really has: `physical_sectors` sectors of the reported
/// size, however many the card advertises.
#[derive(Debug)]
pub struct Cells {
    geometry: DeviceGeometry,
    storage: Vec<u8>,
    physical_sectors: u64,
}

impl Cells {
    /// The cells hold a whole number of sectors, no more than advertised.
    pub closed spec fn wf(&self) -> bool {
        &&& valid_sector_size(self.geometry.sector_size())
        &&& 1 <= self.physical_sectors <= self.geometry.total_sectors()
        &&& self.storage@.len() == self.physical_sectors * self.geometry.sector_size()
    }

    pub closed spec fn bytes(&self) -> Seq<u8> {
        self.storage@
    }

    pub closed spec fn spec_physical(&self) -> u64 {
        self.physical_sectors
    }

    pub closed spec fn spec_geometry(&self) -> DeviceGeometry {
        self.geometry
    }

    /// Every byte set to `marker`.
    fn fill(&mut self, marker: u8)
        requires
            old(self).wf(),
        ensures
            final(self).wf(),
            final(self).bytes() == Seq::new(old(self).bytes().len(), |i: int| marker),
            final(self).spec_physical() == old(self).spec_physical(),
            final(self).spec_geometry() == old(self).spec_geometry(),
    {
        let n = self.storage.len();
        let mut i: usize = 0;
        while i < n
            invariant
                n == self.storage@.len(),
                n == old(self).bytes().len(),
                self.geometry == old(self).spec_geometry(),
                self.physical_sectors == old(self).spec_physical(),
                i <= n,
                forall|k: int| 0 <= k < i ==> self.storage@[k] == marker,
            decreases n - i,
        {
            self.storage.set(i, marker);
            i = i + 1;
        }
        assert(self.storage@ =~= Seq::new(n as nat, |i: int| marker));
    }

    /// Whether every byte holds `marker`.
    fn all_are(&self, marker: u8) -> (r: bool)
        ensures
            r == forall|i: int| 0 <= i < self.bytes().len() ==> self.bytes()[i] == marker,
    {
        let mut i: usize = 0;
        while i < self.storage.len()
            invariant
                i <= self.storage@.len(),
                forall|k: int| 0 <= k < i ==> self.storage@[k] == marker,
            decreases self.storage@.len() - i,
        {
            if self.storage[i] != marker {
                assert(self.bytes()[i as int] != marker);
                return false;
            }
            i = i + 1;
        }
        true
    }

    /// First byte of physical sector `p`.
    fn offset(&self, p: u64) -> (r: usize)
        requires
            self.wf(),
            p < self.spec_physical(),
        ensures
            r == p * self.spec_geometry().sector_size(),
            r + self.spec_geometry().sector_size() <= self.bytes().len(),
    {
        let n = self.storage.len();
        proof {
            let ss = self.geometry.sector_size() as int;
            assert(p * ss + ss <= self.physical_sectors * ss) by (nonlinear_arith)
                requires
                    p < self.physical_sectors,
                    ss > 0,
            ;
            assert(p * ss >= p) by (nonlinear_arith)
                requires
                    ss > 0,
                    p >= 0,
            ;
        }
        (p as usize) * (self.geometry.sector_size() as usize)
    }

    /// Copies physical sector `p` into `buf` at `at`.
    fn read_sector(&self, p: u64, buf: &mut [u8], at: usize)
        requires
            self.wf(),
            p < self.spec_physical(),
            at + self.spec_geometry().sector_size() <= old(buf)@.len(),
        ensures
            final(buf)@.len() == old(buf)@.len(),
            forall|k: int|
                0 <= k < old(buf)@.len() ==> final(buf)@[k] == if at <= k < at + self.spec_geometry().sector_size() {
                    self.bytes()[p * self.spec_geometry().sector_size() + (k - at)]
                } else {
                    old(buf)@[k]
                },
    {
        let base = self.offset(p);
        let ss = self.geometry.sector_size() as usize;
        let slen = self.storage.len();
        let n = buf.len();
        let mut j: usize = 0;
        while j < ss
            invariant
                n == buf@.len(),
                buf@.len() == old(buf)@.len(),
                at + ss <= n,
                ss == self.spec_geometry().sector_size(),
                base == p * ss,
                base + ss <= self.bytes().len(),
                slen == self.bytes().len(),
                j <= ss,
                forall|k: int|
                    0 <= k < n ==> buf@[k] == if at <= k < at + j {
                        self.bytes()[base + (k - at)]
                    } else {
                        old(buf)@[k]
                    },
            decreases ss - j,
        {
            buf[at + j] = self.storage[base + j];
            j = j + 1;
        }
    }

    /// Stores `buf` from `at` into physical sector `p`.
    fn write_sector(&mut self, p: u64, buf: &[u8], at: usize)
        requires
            old(self).wf(),
            p < old(self).spec_physical(),
            at + old(self).spec_geometry().sector_size() <= buf@.len(),
        ensures
            final(self).wf(),
            final(self).spec_physical() == old(self).spec_physical(),
            final(self).spec_geometry() == old(self).spec_geometry(),
            final(self).bytes().len() == old(self).bytes().len(),
            forall|k: int|
                0 <= k < old(self).bytes().len() ==> final(self).bytes()[k] == if p
                    * old(self).spec_geometry().sector_size() <= k < p * old(self).spec_geometry().sector_size()
                    + old(self).spec_geometry().sector_size() {
                    buf@[at + (k - p * old(self).spec_geometry().sector_size())]
                } else {
                    old(self).bytes()[k]
                },
    {
        let base = self.offset(p);
        let ss = self.geometry.sector_size() as usize;
        let slen = self.storage.len();
        let blen = buf.len();
        let ghost before = self.storage@;
        let mut j: usize = 0;
        while j < ss
            invariant
                self.storage@.len() == before.len(),
                slen == before.len(),
                blen == buf@.len(),
                self.geometry == old(self).spec_geometry(),
                self.physical_sectors == old(self).spec_physical(),
                at + ss <= buf@.len(),
                ss == self.geometry.sector_size(),
                base == p * ss,
                base + ss <= before.len(),
                j <= ss,
                forall|k: int|
                    0 <= k < before.len() ==> self.storage@[k] == if base <= k < base + j {
                        buf@[at + (k - base)]
                    } else {
                        before[k]
                    },
            decreases ss - j,
        {
            self.storage.set(base + j, buf[at + j]);
            j = j + 1;
        }
    }

    /// Applies `f` to byte `i` of physical sector `p`'s tail from `from`.
    fn stick_payload(&mut self, p: u64)
        requires
            old(self).wf(),
            p < old(self).spec_physical(),
        ensures
            final(self).wf(),
            final(self).spec_physical() == old(self).spec_physical(),
            final(self).spec_geometry() == old(self).spec_geometry(),
            final(self).bytes().len() == old(self).bytes().len(),
            forall|k: int|
                0 <= k < old(self).bytes().len() ==> #[trigger] final(self).bytes()[k] == if p
                    * old(self).spec_geometry().sector_size() + 32 <= k < p * old(self).spec_geometry().sector_size()
                    + old(self).spec_geometry().sector_size() {
                    0u8
                } else {
                    old(self).bytes()[k]
                },
    {
        let base = self.offset(p);
        let ss = self.geometry.sector_size() as usize;
        let slen = self.storage.len();
        let mut j: usize = 32;
        while j < ss
            invariant
                slen == self.storage@.len(),
                self.storage@.len() == old(self).bytes().len(),
                self.geometry == old(self).spec_geometry(),
                self.physical_sectors == old(self).spec_physical(),
                ss == self.geometry.sector_size(),
                base == p * ss,
                base + ss <= self.storage@.len(),
                32 <= j <= ss,
                forall|k: int|
                    0 <= k < old(self).bytes().len() ==> #[trigger] self.storage@[k] == if base + 32 <= k < base + j {
                        0u8
                    } else {
                        old(self).bytes()[k]
                    },
            decreases ss - j,
        {
            self.storage.set(base + j, 0);
            j = j + 1;
        }
    }

    /// Overwrites physical sector `p` with garbage, not zeros: a sector that
    /// lost its content does not conveniently come back blank.
    fn garble(&mut self, p: u64)
        requires
            old(self).wf(),
            p < old(self).spec_physical(),
        ensures
            final(self).wf(),
            final(self).spec_physical() == old(self).spec_physical(),
            final(self).spec_geometry() == old(self).spec_geometry(),
            final(self).bytes().len() == old(self).bytes().len(),
            forall|k: int|
                0 <= k < old(self).bytes().len() ==> #[trigger] final(self).bytes()[k] == if p
                    * old(self).spec_geometry().sector_size() <= k < p * old(self).spec_geometry().sector_size()
                    + old(self).spec_geometry().sector_size() {
                    garbage(k - p * old(self).spec_geometry().sector_size())
                } else {
                    old(self).bytes()[k]
                },
    {
        let base = self.offset(p);
        let ss = self.geometry.sector_size() as usize;
        let slen = self.storage.len();
        let mut j: usize = 0;
        while j < ss
            invariant
                slen == self.storage@.len(),
                self.storage@.len() == old(self).bytes().len(),
                self.geometry == old(self).spec_geometry(),
                self.physical_sectors == old(self).spec_physical(),
                ss == self.geometry.sector_size(),
                base == p * ss,
                base + ss <= self.storage@.len(),
                j <= ss,
                forall|k: int|
                    0 <= k < old(self).bytes().len() ==> #[trigger] self.storage@[k] == if base <= k < base + j {
                        garbage(k - base)
                    } else {
                        old(self).bytes()[k]
                    },
            decreases ss - j,
        {
            let g = (j % 256) as u8 ^ 0x5A;
            assert(g == garbage(j as int)) by (bit_vector)
                requires
                    g == (j % 256) as u8 ^ 0x5A,
                    j < 0x1_0000_0000,
            ;
            self.storage.set(base + j, g);
            j = j + 1;
        }
    }

    /// Flips the lowest bit of the middle byte of physical sector `p`.
    fn flip_middle(&mut self, p: u64)
        requires
            old(self).wf(),
            p < old(self).spec_physical(),
        ensures
            final(self).wf(),
            final(self).spec_physical() == old(self).spec_physical(),
            final(self).spec_geometry() == old(self).spec_geometry(),
            final(self).bytes() == old(self).bytes().update(
                p * old(self).spec_geometry().sector_size() + old(self).spec_geometry().sector_size() / 2,
                old(self).bytes()[p * old(self).spec_geometry().sector_size() + old(self).spec_geometry().sector_size()
                    / 2] ^ 0x01,
            ),
    {
        let base = self.offset(p);
        let ss = self.geometry.sector_size() as usize;
        let slen = self.storage.len();
        let at = base + ss / 2;
        let b = self.storage[at] ^ 0x01;
        self.storage.set(at, b);
    }

    pub proof fn lemma_wf(self)
        requires
            self.wf(),
        ensures
            valid_sector_size(self.spec_geometry().sector_size()),
            1 <= self.spec_physical() <= self.spec_geometry().total_sectors(),
            self.bytes().len() == self.spec_physical() * self.spec_geometry().sector_size(),
    {
    }

    /// Whether the cells are consistent; always so for cells the card's
    /// constructors built.
    fn consistent(&self) -> (r: bool)
        ensures
            r == self.wf(),
    {
        let ss = self.geometry.sector_size();
        let ok_size = ss == 512 || ss == 1024 || ss == 2048 || ss == 4096;
        if !ok_size || self.physical_sectors < 1 || self.physical_sectors > self.geometry.total_sectors() {
            return false;
        }
        let n = self.storage.len();
        match self.physical_sectors.checked_mul(ss as u64) {
            Some(bytes) => bytes == n as u64,
            None => false,
        }
    }
}

/// Simulated memory card.
pub struct SimulatedCard {
    /// Read attempts already spent per range, for the intermittent failure.
    read_attempts: std::collections::HashMap<u64, u32>,
    /// Written sectors the device still retains, oldest first.
    retained: std::collections::VecDeque<u64>,
    cells: Cells,
    fault: SimulatedFault,
    writable: bool,
    /// Every request made of the card, with its answer.
    log: Ghost<Seq<DeviceOp>>,
    /// Read operations performed.
    pub reads: u64,
    /// Write operations performed.
    pub writes: u64,
    /// Total sectors read.
    pub sectors_read: u64,
    /// Total sectors written.
    pub sectors_written: u64,
}

/// The sectors a card advertising `sectors` really has under `fault`.
pub open spec fn physical_sectors_for(sectors: u64, fault: SimulatedFault) -> u64 {
    match fault {
        SimulatedFault::FakeCapacity { real: cells } => if cells < 1 {
            1
        } else if cells > sectors {
            sectors
        } else {
            cells
        },
        _ => sectors,
    }
}

impl SimulatedCard {
    pub closed spec fn storage(&self) -> Seq<u8> {
        self.cells.bytes()
    }

    pub closed spec fn physical_sectors(&self) -> u64 {
        self.cells.spec_physical()
    }

    pub closed spec fn spec_geometry(&self) -> DeviceGeometry {
        self.cells.spec_geometry()
    }

    pub closed spec fn spec_fault(&self) -> SimulatedFault {
        self.fault
    }

    pub closed spec fn spec_writable(&self) -> bool {
        self.writable
    }

    /// Every request made of the card so far.
    pub closed spec fn spec_history(&self) -> Seq<DeviceOp> {
        self.log@
    }

    /// The card's cells are consistent with its geometry.
    pub closed spec fn wf(&self) -> bool {
        self.cells.wf()
    }

    /// Reads, writes, sectors read and sectors written so far.
    pub closed spec fn counters(&self) -> (u64, u64, u64, u64) {
        (self.reads, self.writes, self.sectors_read, self.sectors_written)
    }

    /// Healthy card of the given capacity.
    pub fn healthy(sector_size: u32, sectors: u64) -> (r: Self)
        requires
            valid_sector_size(sector_size),
            sectors > 0,
            sectors * sector_size <= usize::MAX,
        ensures
            r.spec_geometry().sector_size() == sector_size,
            r.spec_geometry().total_sectors() == sectors,
            r.spec_fault() == SimulatedFault::NoFault,
            r.physical_sectors() == sectors,
            r.storage() == Seq::new((sectors * sector_size) as nat, |i: int| 0u8),
            r.spec_writable(),
            r.wf(),
            r.counters() == (0u64, 0u64, 0u64, 0u64),
    {
        Self::with_fault(sector_size, sectors, SimulatedFault::NoFault)
    }

    /// Card advertising `sectors` sectors and exhibiting the given defect. A
    /// counterfeit one holds between one sector and as many as it advertises.
    pub fn with_fault(sector_size: u32, sectors: u64, fault: SimulatedFault) -> (r: Self)
        requires
            valid_sector_size(sector_size),
            sectors > 0,
            physical_sectors_for(sectors, fault) * sector_size <= usize::MAX,
        ensures
            r.spec_geometry().sector_size() == sector_size,
            r.spec_geometry().total_sectors() == sectors,
            r.spec_fault() == fault,
            r.physical_sectors() == physical_sectors_for(sectors, fault),
            r.storage() == Seq::new((physical_sectors_for(sectors, fault) * sector_size) as nat, |i: int| 0u8),
            r.spec_writable(),
            r.wf(),
            r.counters() == (0u64, 0u64, 0u64, 0u64),
    {
        let physical_sectors = match &fault {
            SimulatedFault::FakeCapacity { real: cells } => {
                let capped = if *cells > sectors {
                    sectors
                } else {
                    *cells
                };
                if capped < 1 {
                    1
                } else {
                    capped
                }
            },
            _ => sectors,
        };
        let bytes = (physical_sectors * sector_size as u64) as usize;
        let geometry = DeviceGeometry::of(sector_size, sectors);
        let storage = vec![0u8; bytes];
        assert(storage@ =~= Seq::new(bytes as nat, |i: int| 0u8));
        SimulatedCard {
            read_attempts: std::collections::HashMap::new(),
            retained: std::collections::VecDeque::new(),
            cells: Cells { geometry, storage, physical_sectors },
            fault,
            writable: true,
            log: Ghost(Seq::empty()),
            reads: 0,
            writes: 0,
            sectors_read: 0,
            sectors_written: 0,
        }
    }
}

impl SimulatedCard {
    /// Sets whether the card accepts writes.
    pub fn set_writable(&mut self, writable: bool)
        ensures
            final(self).spec_writable() == writable,
            final(self).storage() == old(self).storage(),
            final(self).spec_fault() == old(self).spec_fault(),
            final(self).spec_geometry() == old(self).spec_geometry(),
            final(self).physical_sectors() == old(self).physical_sectors(),
            final(self).wf() == old(self).wf(),
            final(self).counters() == old(self).counters(),
    {
        self.writable = writable;
    }

    /// Fills all real memory with a byte, to test non-destructiveness.
    pub fn fill_with_marker(&mut self, marker: u8)
        requires
            old(self).wf(),
        ensures
            final(self).storage() == Seq::new(old(self).storage().len(), |i: int| marker),
            final(self).spec_writable() == old(self).spec_writable(),
            final(self).spec_fault() == old(self).spec_fault(),
            final(self).spec_geometry() == old(self).spec_geometry(),
            final(self).physical_sectors() == old(self).physical_sectors(),
            final(self).wf(),
            final(self).counters() == old(self).counters(),
    {
        self.cells.fill(marker);
    }

    /// Whether all real memory still holds the marker.
    pub fn is_entirely_marker(&self, marker: u8) -> (r: bool)
        ensures
            r == forall|i: int| 0 <= i < self.storage().len() ==> self.storage()[i] == marker,
    {
        let r = self.cells.all_are(marker);
        proof {
            assert(self.storage() == self.cells.bytes());
            if r {
                assert forall|i: int| 0 <= i < self.storage().len() implies self.storage()[i] == marker by {
                    assert(self.cells.bytes()[i] == marker);
                }
            } else {
                let i = choose|i: int| 0 <= i < self.cells.bytes().len() && self.cells.bytes()[i] != marker;
                assert(self.storage()[i] != marker);
            }
        }
        r
    }

    /// The physical address a logical one reaches: the identity on a healthy
    /// card, the modulo that makes old data vanish on a counterfeit one.
    fn physical(&self, lba: u64) -> (r: u64)
        requires
            self.wf(),
        ensures
            r == lba % self.physical_sectors(),
            r < self.physical_sectors(),
    {
        proof {
            self.cells.lemma_wf();
        }
        lba % self.cells.physical_sectors
    }

    fn inconsistent() -> (r: DeviceError)
        ensures
            r is Other,
    {
        DeviceError::Other(String::new())
    }
}

/// Sector `i` of an access at `lba` read back from the cells: for every byte
/// of the buffer, the byte of the physical sector its address reaches.
pub open spec fn read_back(storage: Seq<u8>, buf: Seq<u8>, lba: u64, ss: int, phys: u64) -> bool {
    forall|k: int|
        0 <= k < buf.len() ==> #[trigger] buf[k] == storage[((lba + k / ss) % (phys as int)) * ss + k % ss]
}

/// A read the simulated card owes an answer to: a consistent card, an
/// access it can serve whose end fits in an address, no failing sector in it and no intermittent fault,
/// whose outcome hangs on how many attempts came before.
pub open spec fn read_owed(card: SimulatedCard, lba: u64, len: nat) -> bool {
    &&& card.wf()
    &&& access_ok(card.spec_geometry(), lba, len as usize)
    &&& lba + (len as int) / (card.spec_geometry().sector_size() as int) <= u64::MAX
    &&& !(card.spec_fault() is FlakyRead)
    &&& forall|j: u64|
        lba <= j < lba + (len as int) / (card.spec_geometry().sector_size() as int) ==> #[trigger] fault_at(
            card.spec_fault(),
            j,
        ) != Some(FaultKind::Read)
}

/// `old` with `buf` written over it from byte `at`.
pub open spec fn written_over(old: Seq<u8>, buf: Seq<u8>, at: int) -> Seq<u8> {
    Seq::new(old.len(), |k: int| if at <= k < at + buf.len() { buf[k - at] } else { old[k] })
}

impl SimulatedCard {
    /// Reads the sectors from the cells their addresses reach. A sector in a
    /// failing range fails the whole read; an intermittent one fails its first
    /// attempts, counted per range, since a real transient error disrupts the
    /// operation rather than one sector at a time.
    fn read_sectors(&mut self, lba: u64, buf: &mut [u8]) -> (r: Result<(), DeviceError>)
        ensures
            final(buf)@.len() == old(buf)@.len(),
            final(self).spec_geometry() == old(self).spec_geometry(),
            final(self).storage() == old(self).storage(),
            final(self).spec_fault() == old(self).spec_fault(),
            final(self).spec_writable() == old(self).spec_writable(),
            final(self).physical_sectors() == old(self).physical_sectors(),
            final(self).wf() == old(self).wf(),
            !access_ok(old(self).spec_geometry(), lba, old(buf)@.len() as usize) ==> r is Err,
            r is Ok ==> read_back(
                old(self).storage(),
                final(buf)@,
                lba,
                old(self).spec_geometry().sector_size() as int,
                old(self).physical_sectors(),
            ),
            r is Ok ==> forall|j: u64|
                lba <= j < lba + (old(buf)@.len() as int) / (old(self).spec_geometry().sector_size() as int) ==> #[trigger] fault_at(
                    old(self).spec_fault(),
                    j,
                ) != Some(FaultKind::Read),
            read_owed(*old(self), lba, old(buf)@.len()) ==> r is Ok,
            final(self).spec_history() == old(self).spec_history(),
    {
        let ghost owed = read_owed(*self, lba, buf@.len());
        let sectors = match self.check_access(lba, buf.len()) {
            Ok(n) => n,
            Err(e) => return Err(e),
        };
        if !self.cells.consistent() {
            return Err(Self::inconsistent());
        }
        proof {
            self.cells.lemma_wf();
        }
        if lba.checked_add(sectors).is_none() {
            return Err(DeviceError::OutOfBounds { lba, end: u64::MAX, total: self.cells.geometry.total_sectors() });
        }
        let ss = self.cells.geometry.sector_size() as usize;
        let n = buf.len();
        proof {
            assert(sectors * ss == n) by (nonlinear_arith)
                requires
                    sectors == (n as int) / (ss as int),
                    (n as int) % (ss as int) == 0,
                    ss > 0,
            ;
        }
        self.reads = self.reads.saturating_add(1);
        self.sectors_read = self.sectors_read.saturating_add(sectors);
        let ghost cells = self.cells;
        let mut i: u64 = 0;
        while i < sectors
            invariant
                self.log == old(self).log,
                self.cells == cells,
                cells == old(self).cells,
                cells.wf(),
                self.fault == old(self).spec_fault(),
                self.writable == old(self).spec_writable(),
                ss == cells.spec_geometry().sector_size(),
                n == buf@.len(),
                n == old(buf)@.len(),
                sectors * ss == n,
                lba + sectors <= cells.spec_geometry().total_sectors(),
                i <= sectors,
                forall|k: int|
                    0 <= k < i * ss ==> #[trigger] buf@[k] == cells.bytes()[((lba + k / (ss as int)) % (
                    cells.spec_physical() as int)) * ss + k % (ss as int)],
                forall|j: u64| lba <= j < lba + i ==> #[trigger] fault_at(self.fault, j) != Some(FaultKind::Read),
                owed ==> !(self.fault is FlakyRead),
                owed ==> forall|j: u64| lba <= j < lba + sectors ==> #[trigger] fault_at(self.fault, j) != Some(
                    FaultKind::Read,
                ),
            decreases sectors - i,
        {
            let current = lba + i;
            if self.fault.at(current) == Some(FaultKind::Read) {
                return Err(io_error(current, "read"));
            }
            let flaky = match &self.fault {
                SimulatedFault::FlakyRead { range, fails } => if range.contains(current) {
                    Some((range.start(), *fails))
                } else {
                    None
                },
                _ => None,
            };
            if let Some((key, fails)) = flaky {
                let used = self.read_attempts.entry(key).or_insert(0);
                if *used < fails {
                    *used = *used + 1;
                    return Err(io_error(current, "intermittent read"));
                }
            }
            let p = self.physical(current);
            assert(i * ss + ss <= sectors * ss) by (nonlinear_arith)
                requires
                    i < sectors,
                    ss > 0,
            ;
            let at = (i as usize) * ss;
            let ghost before = buf@;
            self.cells.read_sector(p, buf, at);
            proof {
                assert forall|k: int|
                    0 <= k < (i + 1) * ss implies #[trigger] buf@[k] == cells.bytes()[((lba + k / (ss as int)) % (
                    cells.spec_physical() as int)) * ss + k % (ss as int)] by {
                    if k >= i * ss {
                        assert(k / (ss as int) == i && k % (ss as int) == k - at) by (nonlinear_arith)
                            requires
                                at == i * ss,
                                at <= k < at + ss,
                                ss > 0,
                        ;
                    }
                }
            }
            i = i + 1;
        }
        proof {
            assert(sectors == (n as int) / (ss as int)) by (nonlinear_arith)
                requires
                    sectors * ss == n,
                    ss > 0,
            ;
        }
        Ok(())
    }
}

impl SimulatedCard {
    /// Writes the sectors into the cells their addresses reach, sector by
    /// sector: a failing sector stops the write after what came before it, as
    /// a real device does. Stuck cells keep the header and lose the payload;
    /// limited retention garbles the oldest sector beyond capacity; silent
    /// corruption flips one bit.
    fn write_sectors(&mut self, lba: u64, buf: &[u8]) -> (r: Result<(), DeviceError>)
        ensures
            final(self).spec_geometry() == old(self).spec_geometry(),
            final(self).spec_fault() == old(self).spec_fault(),
            final(self).spec_writable() == old(self).spec_writable(),
            final(self).physical_sectors() == old(self).physical_sectors(),
            final(self).wf() == old(self).wf(),
            final(self).storage().len() == old(self).storage().len(),
            !old(self).spec_writable() ==> r == Err::<(), DeviceError>(DeviceError::ReadOnly) && final(self).storage()
                == old(self).storage(),
            !access_ok(old(self).spec_geometry(), lba, buf@.len() as usize) ==> r is Err && final(self).storage()
                == old(self).storage(),
            r is Ok ==> forall|j: u64|
                lba <= j < lba + (buf@.len() as int) / (old(self).spec_geometry().sector_size() as int) ==> #[trigger] fault_at(
                    old(self).spec_fault(),
                    j,
                ) != Some(FaultKind::Write),
            r is Ok && old(self).spec_fault() == SimulatedFault::NoFault && old(self).physical_sectors()
                == old(self).spec_geometry().total_sectors() ==> final(self).storage() == written_over(
                old(self).storage(),
                buf@,
                lba as int * old(self).spec_geometry().sector_size(),
            ),
            final(self).spec_history() == old(self).spec_history(),
    {
        if !self.writable {
            return Err(DeviceError::ReadOnly);
        }
        let sectors = match self.check_access(lba, buf.len()) {
            Ok(n) => n,
            Err(e) => return Err(e),
        };
        if !self.cells.consistent() {
            return Err(Self::inconsistent());
        }
        proof {
            self.cells.lemma_wf();
        }
        if lba.checked_add(sectors).is_none() {
            return Err(DeviceError::OutOfBounds { lba, end: u64::MAX, total: self.cells.geometry.total_sectors() });
        }
        let ss = self.cells.geometry.sector_size() as usize;
        let n = buf.len();
        proof {
            assert(sectors * ss == n) by (nonlinear_arith)
                requires
                    sectors == (n as int) / (ss as int),
                    (n as int) % (ss as int) == 0,
                    ss > 0,
            ;
        }
        self.writes = self.writes.saturating_add(1);
        self.sectors_written = self.sectors_written.saturating_add(sectors);
        let ghost start = self.cells.bytes();
        let ghost plain = self.fault == SimulatedFault::NoFault && self.cells.spec_physical()
            == self.cells.spec_geometry().total_sectors();
        let mut i: u64 = 0;
        while i < sectors
            invariant
                self.log == old(self).log,
                self.cells.wf(),
                old(self).wf(),
                old(self).spec_writable(),
                start == old(self).storage(),
                self.cells.spec_geometry() == old(self).spec_geometry(),
                self.cells.spec_physical() == old(self).physical_sectors(),
                self.cells.bytes().len() == start.len(),
                self.fault == old(self).spec_fault(),
                self.writable == old(self).spec_writable(),
                plain == (self.fault == SimulatedFault::NoFault && self.cells.spec_physical()
                    == self.cells.spec_geometry().total_sectors()),
                ss == self.cells.spec_geometry().sector_size(),
                n == buf@.len(),
                sectors * ss == n,
                lba + sectors <= self.cells.spec_geometry().total_sectors(),
                i <= sectors,
                plain ==> self.cells.bytes() == written_over(start, buf@.subrange(0, i * ss), lba * ss),
                forall|j: u64| lba <= j < lba + i ==> #[trigger] fault_at(self.fault, j) != Some(FaultKind::Write),
            decreases sectors - i,
        {
            let current = lba + i;
            if self.fault.at(current) == Some(FaultKind::Write) {
                return Err(io_error(current, "write"));
            }
            let p = self.physical(current);
            assert(i * ss + ss <= sectors * ss) by (nonlinear_arith)
                requires
                    i < sectors,
                    ss > 0,
            ;
            let at = (i as usize) * ss;
            let ghost before = self.cells.bytes();
            self.cells.write_sector(p, buf, at);
            proof {
                if plain {
                    let phys = self.cells.spec_physical();
                    assert(current % phys == current) by (nonlinear_arith)
                        requires
                            current < phys,
                    ;
                    assert(p == current);
                    assert(p * ss == lba * ss + at) by (nonlinear_arith)
                        requires
                            p == lba + i,
                            at == i * ss,
                    ;
                    assert(at + ss == (i + 1) * ss) by (nonlinear_arith)
                        requires
                            at == i * ss,
                    ;
                    assert(self.cells.bytes() =~= written_over(start, buf@.subrange(0, (i + 1) * ss), lba * ss));
                }
            }
            match &self.fault {
                SimulatedFault::StuckAtZero { range } => {
                    if range.contains(current) {
                        self.cells.stick_payload(p);
                    }
                },
                SimulatedFault::VolatileWrites { cache_sectors } => {
                    let cache = *cache_sectors;
                    self.retained.push_back(current);
                    while self.retained.len() > cache
                        invariant
                self.log == old(self).log,
                            self.cells.wf(),
                            old(self).wf(),
                            self.cells.spec_geometry() == old(self).spec_geometry(),
                            self.cells.spec_physical() == old(self).physical_sectors(),
                            self.cells.bytes().len() == start.len(),
                            self.fault == old(self).spec_fault(),
                            self.writable == old(self).spec_writable(),
                        decreases self.retained@.len(),
                    {
                        if let Some(evicted) = self.retained.pop_front() {
                            let q = self.physical(evicted);
                            self.cells.garble(q);
                        }
                    }
                },
                _ => {},
            }
            if self.fault.at(current) == Some(FaultKind::Corrupt) {
                self.cells.flip_middle(p);
            }
            i = i + 1;
        }
        proof {
            assert(sectors == (n as int) / (ss as int)) by (nonlinear_arith)
                requires
                    sectors * ss == n,
                    ss > 0,
            ;
            if plain {
                assert(buf@.subrange(0, sectors * ss) =~= buf@);
            }
        }
        Ok(())
    }
}

impl BlockDevice for SimulatedCard {
    open spec fn reported(&self) -> DeviceGeometry {
        self.spec_geometry()
    }

    open spec fn accepts_writes(&self) -> bool {
        self.spec_writable()
    }

    open spec fn history(&self) -> Seq<DeviceOp> {
        self.spec_history()
    }

    fn geometry(&self) -> (r: DeviceGeometry) {
        self.cells.geometry
    }

    /// Reads the sectors from the cells their addresses reach. A sector in a
    /// failing range fails the whole read; an intermittent one fails its first
    /// attempts, counted per range, since a real transient error disrupts the
    /// operation rather than one sector at a time.
    fn read_at(&mut self, lba: u64, buf: &mut [u8]) -> (r: Result<(), DeviceError>)
        ensures
            final(self).storage() == old(self).storage(),
            final(self).spec_fault() == old(self).spec_fault(),
            final(self).spec_writable() == old(self).spec_writable(),
            final(self).physical_sectors() == old(self).physical_sectors(),
            final(self).wf() == old(self).wf(),
            !access_ok(old(self).spec_geometry(), lba, old(buf)@.len() as usize) ==> r is Err,
            r is Ok ==> read_back(
                old(self).storage(),
                final(buf)@,
                lba,
                old(self).spec_geometry().sector_size() as int,
                old(self).physical_sectors(),
            ),
            r is Ok ==> forall|j: u64|
                lba <= j < lba + (old(buf)@.len() as int) / (old(self).spec_geometry().sector_size() as int) ==> #[trigger] fault_at(
                    old(self).spec_fault(),
                    j,
                ) != Some(FaultKind::Read),
            read_owed(*old(self), lba, old(buf)@.len()) ==> r is Ok,
            final(self).history() == old(self).history().push(read_op(lba, final(buf)@, r is Ok)),
    {
        let r = self.read_sectors(lba, buf);
        proof {
            self.log@ = self.log@.push(read_op(lba, buf@, r is Ok));
        }
        r
    }

    /// Writes the sectors into the cells their addresses reach, sector by
    /// sector: a failing sector stops the write after what came before it, as
    /// a real device does. Stuck cells keep the header and lose the payload;
    /// limited retention garbles the oldest sector beyond capacity; silent
    /// corruption flips one bit.
    fn write_at(&mut self, lba: u64, buf: &[u8]) -> (r: Result<(), DeviceError>)
        ensures
            final(self).spec_fault() == old(self).spec_fault(),
            final(self).spec_writable() == old(self).spec_writable(),
            final(self).physical_sectors() == old(self).physical_sectors(),
            final(self).wf() == old(self).wf(),
            final(self).storage().len() == old(self).storage().len(),
            !old(self).spec_writable() ==> r == Err::<(), DeviceError>(DeviceError::ReadOnly) && final(self).storage()
                == old(self).storage(),
            !access_ok(old(self).spec_geometry(), lba, buf@.len() as usize) ==> r is Err && final(self).storage()
                == old(self).storage(),
            r is Ok ==> forall|j: u64|
                lba <= j < lba + (buf@.len() as int) / (old(self).spec_geometry().sector_size() as int) ==> #[trigger] fault_at(
                    old(self).spec_fault(),
                    j,
                ) != Some(FaultKind::Write),
            r is Ok && old(self).spec_fault() == SimulatedFault::NoFault && old(self).physical_sectors()
                == old(self).spec_geometry().total_sectors() ==> final(self).storage() == written_over(
                old(self).storage(),
                buf@,
                lba as int * old(self).spec_geometry().sector_size(),
            ),
            final(self).history() == old(self).history().push(write_op(lba, buf@, r is Ok)),
    {
        let r = self.write_sectors(lba, buf);
        proof {
            self.log@ = self.log@.push(write_op(lba, buf@, r is Ok));
        }
        r
    }

    /// Nothing is pending on a simulated card: flushing always succeeds and
    /// changes nothing.
    fn flush(&mut self) -> (r: Result<(), DeviceError>)
        ensures
            r is Ok,
            final(self).history() == old(self).history().push(flush_op(true)),
            final(self).storage() == old(self).storage(),
            final(self).spec_fault() == old(self).spec_fault(),
            final(self).spec_writable() == old(self).spec_writable(),
            final(self).physical_sectors() == old(self).physical_sectors(),
            final(self).spec_geometry() == old(self).spec_geometry(),
            final(self).wf() == old(self).wf(),
            final(self).counters() == old(self).counters(),
    {
        proof {
            self.log@ = self.log@.push(flush_op(true));
        }
        Ok(())
    }

    fn is_writable(&self) -> (r: bool)
        ensures
            r == self.spec_writable(),
    {
        self.writable
    }
}

} // verus!
