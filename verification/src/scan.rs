//! Device scanning: write, read back, and classify every sector.
//!
//! On a card with counterfeit capacity the controller serves address `L` from
//! cell `L mod C`, and whoever writes last decides what is read. The write
//! pass therefore walks the device back to front, so that each cell holds the
//! pattern of the lowest address reaching it: on the ascending read-back an
//! address below `C` returns its own pattern, and one at or above `C` returns
//! the pattern of `L mod C`, exposing the alias.
//!
//! The scan works in blocks of a few megabytes and, when a block fails,
//! refines the result by bisection down to [`MIN_REFINE_SECTORS`]: planning
//! dilates every condemned region anyway, so finer precision would cost I/O
//! and change no layout. The rounding errs toward safety.
use std::sync::Arc;
use std::sync::atomic::AtomicBool;

use vstd::prelude::*;
use vstd::string::StringExecFns;

use crate::device::{device_error_text, extends, read_op, write_op, BlockDevice, DeviceCall, DeviceError, DeviceOp};
use crate::text::{append_decimal, decimal_chars, has_prefix};
use crate::geometry::{max_u64, min_u64, sat_add, DeviceGeometry, LbaRange};
use crate::planner::{insert_by_start, sorted_by_start};
use crate::pattern::{verdict, written, PatternGenerator, PatternKind, SectorVerdict, MIN_SECTOR_SIZE};
use crate::sector_map::{SectorMap, SectorState};

verus! {

broadcast use LbaRange::lemma_ext;

/// Default scan block size: 4 MiB, aligned to the erase block.
pub const DEFAULT_CHUNK_BYTES: u64 = 4_194_304;

/// Maximum bisection depth when refining a failed block.
pub const MAX_REFINE_DEPTH: u32 = 20;

/// Finest bisection granularity, in sectors: 128 KiB at 512-byte sectors.
pub const MIN_REFINE_SECTORS: u64 = 256;

/// How many of a block's sectors are probed before deciding to refine it.
pub const WRITE_PROBE_SAMPLES: u64 = 3;

/// Consecutive fully unwritable blocks that characterise a systemic failure
/// rather than a media defect.
pub const SYSTEMIC_FAILURE_THRESHOLD: u32 = 3;

/// Extra attempts before condemning a sector over an I/O error: a dirty
/// contact or a marginal read fails once and succeeds the next time.
pub const IO_RETRIES: u32 = 3;

/// Current scan phase.
#[derive(Debug, Clone, Copy, PartialEq, Eq, Structural)]
pub enum ScanPhase {
    /// Writing the pattern, back to front.
    Writing,
    /// Reading back and verifying, front to back.
    Verifying,
    /// Isolating a failed block's sectors by bisection.
    Refining,
}

/// Scan configuration.
#[derive(Debug, Clone, Copy, PartialEq, Eq, Structural)]
pub struct ScanConfig {
    /// Sectors per block.
    pub chunk_sectors: u64,
    /// Pattern seed. Distinguishes this inspection from any earlier one.
    pub nonce: u64,
    /// Range to inspect. `None` means the whole device.
    pub range: Option<LbaRange>,
    /// Content written to each sector.
    pub pattern: PatternKind,
    /// Delay, in seconds, between finishing the writes and starting to
    /// verify, which turns the scan into a retention test.
    pub retention_delay_secs: u64,
}

impl ScanConfig {
    /// Default configuration for a geometry: 4 MiB blocks, the whole device,
    /// the pseudorandom pattern and no retention delay.
    pub fn new(nonce: u64, sector_size: u32) -> (r: Self)
        requires
            sector_size > 0,
        ensures
            r.chunk_sectors == max_u64((DEFAULT_CHUNK_BYTES / (sector_size as u64)) as u64, 1),
            r.nonce == nonce,
            r.range is None,
            r.pattern == PatternKind::Pseudorandom,
            r.retention_delay_secs == 0,
    {
        let per = DEFAULT_CHUNK_BYTES / sector_size as u64;
        ScanConfig {
            chunk_sectors: if per > 1 {
                per
            } else {
                1
            },
            nonce,
            range: None,
            pattern: PatternKind::Pseudorandom,
            retention_delay_secs: 0,
        }
    }
}

/// Progress reported during a scan.
#[derive(Debug, Clone, Copy, PartialEq, Eq, Structural)]
pub struct ScanProgress {
    /// Current phase.
    pub phase: ScanPhase,
    /// Sectors processed so far in this phase.
    pub sectors_done: u64,
    /// Total sectors in this phase.
    pub sectors_total: u64,
    /// Last LBA touched.
    pub current_lba: u64,
    /// Defects accumulated so far.
    pub defects_found: u64,
}

/// Receives progress updates while a scan runs.
pub trait ScanObserver {
    /// Called periodically with progress and the partial map, per block:
    /// implementations doing heavy work must throttle themselves.
    fn on_progress(&mut self, progress: &ScanProgress, map: &SectorMap);

    /// Called when a defect is confirmed.
    fn on_defect(&mut self, range: LbaRange, state: SectorState) {
    }
}

/// Observer that discards everything.
pub struct SilentObserver;

impl ScanObserver for SilentObserver {
    fn on_progress(&mut self, progress: &ScanProgress, map: &SectorMap) {
    }
}

/// Cancellation signal shareable across threads.
#[derive(Debug, Clone, Default)]
pub struct CancellationToken(Arc<AtomicBool>);

impl CancellationToken {
    /// Creates a signal that has not been raised.
    pub fn new() -> Self {
        CancellationToken(Arc::new(AtomicBool::new(false)))
    }

    /// Requests cancellation.
    pub fn cancel(&self) {
        self.0.store(true, std::sync::atomic::Ordering::SeqCst)
    }

    /// Whether cancellation was requested. Another thread may raise the flag
    /// at any time, so nothing is known of the answer beforehand.
    pub fn is_cancelled(&self) -> bool {
        self.0.load(std::sync::atomic::Ordering::SeqCst)
    }
}

/// Scan failures.
#[derive(Debug)]
pub enum ScanError {
    /// The user interrupted the scan.
    Cancelled,
    /// A destructive mode was requested on a read-only device.
    NotWritable,
    /// The device is refusing every write: not a media defect, but a mounted
    /// volume, a write-protect switch or a missing privilege.
    SystemicWriteFailure {
        /// Consecutive blocks refused in full.
        consecutive: u32,
        /// Sectors involved.
        sectors: u64,
    },
    /// Unrecoverable access failure.
    Device(DeviceError),
}

/// The description of a scan failure; for a device failure, that of the
/// device error.
pub open spec fn scan_error_text(e: ScanError) -> Seq<char> {
    match e {
        ScanError::Cancelled => "scan cancelled by the user"@,
        ScanError::NotWritable => "destructive mode requires a device opened for writing"@,
        ScanError::SystemicWriteFailure { consecutive, sectors } => "the device refused every write across "@
            + decimal_chars(consecutive as nat) + " consecutive blocks ("@ + decimal_chars(sectors as nat)
            + " sectors). This is not a media defect: the volume is probably still mounted, the card's write-protect switch is engaged, or the program is not running elevated."@,
        ScanError::Device(d) => device_error_text(d),
    }
}

impl ScanError {
    /// A sentence describing the failure, pointing at the likely cause.
    pub fn message(&self) -> (r: String)
        ensures
            (*self matches ScanError::Device(d) && d is Io) ==> has_prefix(r@, scan_error_text(*self)),
            !(*self matches ScanError::Device(d) && d is Io) ==> r@ == scan_error_text(*self),
    {
        match self {
            ScanError::Cancelled => String::from_str("scan cancelled by the user"),
            ScanError::NotWritable => String::from_str("destructive mode requires a device opened for writing"),
            ScanError::SystemicWriteFailure { consecutive, sectors } => {
                let mut s = String::from_str("the device refused every write across ");
                append_decimal(&mut s, *consecutive as u64);
                s.append(" consecutive blocks (");
                append_decimal(&mut s, *sectors);
                s.append(
                    " sectors). This is not a media defect: the volume is probably still mounted, the card's write-protect switch is engaged, or the program is not running elevated.",
                );
                s
            },
            ScanError::Device(d) => d.message(),
        }
    }
}

/// Scan result.
#[derive(Debug, Clone)]
pub struct ScanOutcome {
    /// Resulting map.
    pub map: SectorMap,
    /// Sectors actually inspected.
    pub sectors_scanned: u64,
}

/// Every address of `[a, b)` has been inspected.
pub open spec fn inspected(map: SectorMap, a: int, b: int) -> bool {
    forall|l: int| a <= l < b ==> #[trigger] map.state(l) != SectorState::Untested
}

/// Every address of the device outside `span` is still uninspected.
pub open spec fn untested_outside(map: SectorMap, span: LbaRange) -> bool {
    forall|l: int|
        0 <= l < map.total() && !(span.start() <= l < span.end()) ==> #[trigger] map.state(l)
            == SectorState::Untested
}

/// The two maps agree outside `[a, b)`.
pub open spec fn same_outside(m1: SectorMap, m2: SectorMap, a: int, b: int) -> bool {
    forall|l: int| 0 <= l < m1.total() && !(a <= l < b) ==> #[trigger] m2.state(l) == m1.state(l)
}

/// Every address of the device either keeps its state from `m1` or is
/// condemned for refusing a write in `m2`.
pub open spec fn only_condemned(m1: SectorMap, m2: SectorMap) -> bool {
    forall|l: int|
        0 <= l < m1.total() ==> #[trigger] m2.state(l) == m1.state(l) || m2.state(l) == SectorState::BadWrite
}

/// Every request of `h` in `[from, to)` is a write starting inside `c`.
pub open spec fn writes_within(h: Seq<DeviceOp>, from: int, to: int, c: LbaRange) -> bool {
    forall|i: int|
        from <= i < to ==> (#[trigger] h[i]).call == DeviceCall::Write && c.start() <= h[i].lba < c.end()
}

/// `data` holds, sector after sector of `ss` bytes, the pattern written for
/// each address from `start` on.
pub open spec fn pattern_block(nonce: u64, kind: PatternKind, start: u64, ss: int, data: Seq<u8>) -> bool {
    forall|k: int|
        0 <= k < (data.len() as int) / ss ==> #[trigger] written(data, nonce, kind, sat_add(start, k as u64), k * ss, k * ss, k * ss + ss)
}

/// The requests made for block `c` of a write pass, at `[from, to)` of `h`:
/// the whole block written at its first sector with its pattern; when that
/// write failed, only further writes inside the block.
#[verifier::opaque]
pub open spec fn block_log(h: Seq<DeviceOp>, from: int, to: int, nonce: u64, kind: PatternKind, c: LbaRange, ss: int) -> bool {
    &&& 0 <= from < to <= h.len()
    &&& h[from].call == DeviceCall::Write
    &&& h[from].lba == c.start()
    &&& h[from].data.len() == c.len() * ss
    &&& pattern_block(nonce, kind, c.start(), ss, h[from].data)
    &&& h[from].ok ==> to == from + 1
    &&& writes_within(h, from, to, c)
}

/// `blocks` is the cut of `work` into blocks of `chunk` sectors (at least
/// one), from its start.
#[verifier::opaque]
pub open spec fn blocks_of(blocks: Seq<LbaRange>, work: LbaRange, chunk: u64) -> bool {
    &&& (blocks.len() == 0) == work.spec_is_empty()
    &&& tiling(blocks, work.start(), work.end())
    &&& forall|i: int| 0 <= i < blocks.len() ==> (#[trigger] blocks[i]).len() <= max_u64(chunk, 1)
    &&& forall|i: int| 0 <= i < blocks.len() - 1 ==> (#[trigger] blocks[i]).len() == max_u64(chunk, 1)
}

/// The requests a write pass over `work` appended to the history `h0`,
/// giving `h`, and what it did to the map: the blocks are written back to
/// front, each with its pattern, the `i`-th from the end occupying
/// `[marks[i], marks[i + 1])` of the history; a pass that completed wrote
/// every block and then asked for one flush; a block whose write succeeded
/// keeps the state its sectors had.
pub open spec fn write_pass_log(
    h0: Seq<DeviceOp>,
    h: Seq<DeviceOp>,
    work: LbaRange,
    chunk: u64,
    nonce: u64,
    kind: PatternKind,
    ss: int,
    m0: SectorMap,
    m: SectorMap,
    completed: bool,
) -> bool {
    exists|blocks: Seq<LbaRange>, marks: Seq<int>|
        blocks_of(blocks, work, chunk) && #[trigger] pass_log(h0, h, blocks, marks, nonce, kind, ss, m0, m, completed)
}

/// The record of a write pass over `blocks`: its requests appended to `h0`,
/// giving `h`, the `i`-th block from the end occupying `[marks[i],
/// marks[i + 1])` of the history.
#[verifier::opaque]
pub open spec fn pass_log(
    h0: Seq<DeviceOp>,
    h: Seq<DeviceOp>,
    blocks: Seq<LbaRange>,
    marks: Seq<int>,
    nonce: u64,
    kind: PatternKind,
    ss: int,
    m0: SectorMap,
    m: SectorMap,
    completed: bool,
) -> bool {
    &&& extends(h, h0)
    &&& 1 <= marks.len() <= blocks.len() + 1
    &&& marks[0] == h0.len()
    &&& forall|i: int|
        0 <= i < marks.len() - 1 ==> #[trigger] block_log(
            h,
            marks[i],
            marks[i + 1],
            nonce,
            kind,
            blocks[blocks.len() - 1 - i],
            ss,
        )
    &&& forall|i: int, l: int|
        #![trigger marks[i], m.state(l)]
        0 <= i < marks.len() - 1 && h[marks[i]].ok && blocks[blocks.len() - 1 - i].start() <= l
            < blocks[blocks.len() - 1 - i].end() ==> m.state(l) == m0.state(l)
    &&& completed ==> marks.len() == blocks.len() + 1 && h.len() == marks[marks.len() - 1] + 1 && h[h.len()
        - 1].call == DeviceCall::Flush
    &&& !completed ==> h.len() == marks[marks.len() - 1]
}

/// The state a sector is given for what it read back as.
pub open spec fn verdict_state(v: SectorVerdict) -> SectorState {
    match v {
        SectorVerdict::Match => SectorState::Good,
        SectorVerdict::Aliased { .. } => SectorState::Aliased,
        _ => SectorState::Corrupt,
    }
}

/// What sector `l` reads back as in `data`, read from `first` on in sectors
/// of `ss` bytes.
pub open spec fn verdict_at(data: Seq<u8>, first: int, l: int, nonce: u64, kind: PatternKind, ss: int) -> SectorVerdict {
    verdict(nonce, kind, l as u64, data.subrange((l - first) * ss, (l - first) * ss + ss))
}

/// `op` is a successful read that covers sector `l`, and what it brought back
/// for `l` is classified as `st`.
#[verifier::opaque]
pub open spec fn read_as(op: DeviceOp, l: int, nonce: u64, kind: PatternKind, ss: int, st: SectorState) -> bool {
    &&& op.call == DeviceCall::Read
    &&& op.ok
    &&& op.lba <= l
    &&& (l - op.lba + 1) * ss <= op.data.len()
    &&& verdict_state(verdict_at(op.data, op.lba as int, l, nonce, kind, ss)) == st
}

/// Some request of `h` in `[from, to)` read sector `l` back as what is
/// classified as `st`.
pub open spec fn read_back_as(
    h: Seq<DeviceOp>,
    from: int,
    to: int,
    l: int,
    nonce: u64,
    kind: PatternKind,
    ss: int,
    st: SectorState,
) -> bool {
    exists|i: int| from <= i < to && #[trigger] read_as(h[i], l, nonce, kind, ss, st)
}

/// The state `m` gives sector `l` is what the reads in `[from, to)` of `h`
/// found there: good only where a read brought back exactly the pattern
/// written for it, aliased or corrupt where a read brought back another
/// address's pattern or a damaged one, and unreadable where the reads failed.
#[verifier::opaque]
pub open spec fn classified(
    m: SectorMap,
    l: int,
    h: Seq<DeviceOp>,
    from: int,
    to: int,
    nonce: u64,
    kind: PatternKind,
    ss: int,
) -> bool {
    ||| m.state(l) == SectorState::BadRead
    ||| (m.state(l) == SectorState::Good || m.state(l) == SectorState::Aliased || m.state(l) == SectorState::Corrupt)
        && read_back_as(h, from, to, l, nonce, kind, ss, m.state(l))
}

/// A verdict classifies a sector as good, aliased or corrupt.
proof fn lemma_verdict_state_kinds(v: SectorVerdict)
    ensures
        verdict_state(v) == SectorState::Good || verdict_state(v) == SectorState::Aliased || verdict_state(v)
            == SectorState::Corrupt,
{
}

/// Sector `l` lies in a range still waiting in `q`.
pub open spec fn queued(q: Seq<(LbaRange, u32)>, l: int) -> bool {
    exists|k: int| 0 <= k < q.len() && (#[trigger] q[k]).0.start() <= l < q[k].0.end()
}

/// A sector read back by request `i` is classified as that read found it.
proof fn lemma_classified_by_read(
    m: SectorMap,
    l: int,
    h: Seq<DeviceOp>,
    from: int,
    i: int,
    nonce: u64,
    kind: PatternKind,
    ss: int,
    v: SectorVerdict,
)
    requires
        from <= i < h.len(),
        m.state(l) == verdict_state(v),
        read_as(h[i], l, nonce, kind, ss, m.state(l)),
    ensures
        classified(m, l, h, from, h.len() as int, nonce, kind, ss),
{
    reveal(classified);
    lemma_verdict_state_kinds(v);
}

/// An unreadable sector is classified as such.
proof fn lemma_classified_unreadable(m: SectorMap, l: int, h: Seq<DeviceOp>, from: int, nonce: u64, kind: PatternKind, ss: int)
    requires
        m.state(l) == SectorState::BadRead,
    ensures
        classified(m, l, h, from, h.len() as int, nonce, kind, ss),
{
    reveal(classified);
}

/// A classification stays true as the history grows, for a sector whose
/// state does not change.
proof fn lemma_classified_extends(
    m: SectorMap,
    m2: SectorMap,
    l: int,
    h: Seq<DeviceOp>,
    h2: Seq<DeviceOp>,
    from: int,
    nonce: u64,
    kind: PatternKind,
    ss: int,
)
    requires
        0 <= from,
        extends(h2, h),
        m2.state(l) == m.state(l),
        classified(m, l, h, from, h.len() as int, nonce, kind, ss),
    ensures
        classified(m2, l, h2, from, h2.len() as int, nonce, kind, ss),
{
    reveal(classified);
    if m.state(l) != SectorState::BadRead {
        lemma_read_back_extends(h, h2, from, l, nonce, kind, ss, m.state(l));
    }
}

/// A classification drawn from the later requests of a history holds of
/// the longer stretch too.
proof fn lemma_classified_from(
    m: SectorMap,
    l: int,
    h: Seq<DeviceOp>,
    from: int,
    from2: int,
    nonce: u64,
    kind: PatternKind,
    ss: int,
)
    requires
        from <= from2,
        classified(m, l, h, from2, h.len() as int, nonce, kind, ss),
    ensures
        classified(m, l, h, from, h.len() as int, nonce, kind, ss),
{
    reveal(classified);
    if m.state(l) != SectorState::BadRead {
        let i = choose|i: int| from2 <= i < h.len() && #[trigger] read_as(h[i], l, nonce, kind, ss, m.state(l));
        assert(read_as(h[i], l, nonce, kind, ss, m.state(l)));
    }
}

/// After the read-back of one block, the sectors before it keep their
/// classification and the block's own are classified.
proof fn lemma_verify_step(
    before: SectorMap,
    m: SectorMap,
    hb: Seq<DeviceOp>,
    h: Seq<DeviceOp>,
    from: int,
    lo: int,
    chunk: LbaRange,
    nonce: u64,
    kind: PatternKind,
    ss: int,
)
    requires
        0 <= from,
        extends(h, hb),
        before.total() == m.total(),
        0 <= lo,
        chunk.end() <= m.total(),
        same_outside(before, m, chunk.start() as int, chunk.end() as int),
        forall|l: int|
            lo <= l < chunk.start() ==> #[trigger] classified(before, l, hb, from, hb.len() as int, nonce, kind, ss),
        forall|l: int|
            chunk.start() <= l < chunk.end() ==> #[trigger] classified(m, l, h, from, h.len() as int, nonce, kind, ss),
    ensures
        forall|l: int| lo <= l < chunk.end() ==> #[trigger] classified(m, l, h, from, h.len() as int, nonce, kind, ss),
{
    assert forall|l: int| lo <= l < chunk.end() implies #[trigger] classified(m, l, h, from, h.len() as int, nonce, kind, ss) by {
        if l < chunk.start() {
            assert(m.state(l) == before.state(l));
            assert(classified(before, l, hb, from, hb.len() as int, nonce, kind, ss));
            lemma_classified_extends(before, m, l, hb, h, from, nonce, kind, ss);
        }
    }
}

/// A read-back stays on record as the history grows.
proof fn lemma_read_back_extends(
    h: Seq<DeviceOp>,
    h2: Seq<DeviceOp>,
    from: int,
    l: int,
    nonce: u64,
    kind: PatternKind,
    ss: int,
    st: SectorState,
)
    requires
        0 <= from,
        extends(h2, h),
        read_back_as(h, from, h.len() as int, l, nonce, kind, ss, st),
    ensures
        read_back_as(h2, from, h2.len() as int, l, nonce, kind, ss, st),
{
    let i = choose|i: int| from <= i < h.len() && #[trigger] read_as(h[i], l, nonce, kind, ss, st);
    assert(h2[i] == h[i]);
    assert(read_as(h2[i], l, nonce, kind, ss, st));
}

/// Runs a scan over a device.
pub struct Scanner {
    config: ScanConfig,
    pattern: PatternGenerator,
    cancel: CancellationToken,
}

impl Scanner {
    pub closed spec fn spec_config(&self) -> ScanConfig {
        self.config
    }

    /// The pattern a scanner writes is the one its configuration names.
    #[verifier::type_invariant]
    closed spec fn writes_configured_pattern(&self) -> bool {
        self.pattern.spec_nonce() == self.config.nonce && self.pattern.spec_kind() == self.config.pattern
    }

    /// Creates a scanner with the given configuration.
    pub fn new(config: ScanConfig, cancel: CancellationToken) -> (r: Self)
        ensures
            r.spec_config() == config,
    {
        Scanner { pattern: PatternGenerator::with_kind(config.nonce, config.pattern), config, cancel }
    }

    fn bail_if_cancelled(&self) -> (r: Result<(), ScanError>)
        ensures
            r is Err ==> r->Err_0 is Cancelled,
    {
        if self.cancel.is_cancelled() {
            Err(ScanError::Cancelled)
        } else {
            Ok(())
        }
    }

    /// Reads, retrying before giving up; returns how many extra attempts
    /// were needed.
    fn read_persistent<D: BlockDevice>(&self, device: &mut D, lba: u64, buf: &mut [u8]) -> (r: Result<u32, DeviceError>)
        ensures
            final(buf)@.len() == old(buf)@.len(),
            final(device).reported() == old(device).reported(),
            r matches Ok(n) ==> n <= IO_RETRIES,
            extends(final(device).history(), old(device).history()),
            final(device).history().len() > old(device).history().len(),
            r is Ok ==> final(device).history().last() == read_op(lba, final(buf)@, true),
    {
        let mut attempt: u32 = 0;
        loop
            invariant
                extends(device.history(), old(device).history()),
                device.history().len() == old(device).history().len() + attempt,
                attempt <= IO_RETRIES,
                buf@.len() == old(buf)@.len(),
                device.reported() == old(device).reported(),
            decreases IO_RETRIES - attempt,
        {
            match device.read_at(lba, buf) {
                Ok(()) => return Ok(attempt),
                Err(e) => {
                    if attempt == IO_RETRIES {
                        return Err(e);
                    }
                },
            }
            attempt = attempt + 1;
        }
    }

    /// Writes, retrying before giving up.
    fn write_persistent<D: BlockDevice>(&self, device: &mut D, lba: u64, buf: &[u8]) -> (r: Result<u32, DeviceError>)
        ensures
            final(device).reported() == old(device).reported(),
            r matches Ok(n) ==> n <= IO_RETRIES,
            extends(final(device).history(), old(device).history()),
            final(device).history().len() > old(device).history().len(),
            forall|i: int|
                old(device).history().len() <= i < final(device).history().len()
                    ==> #[trigger] final(device).history()[i] == write_op(lba, buf@, final(device).history()[i].ok),
    {
        let mut attempt: u32 = 0;
        loop
            invariant
                attempt <= IO_RETRIES,
                device.reported() == old(device).reported(),
                extends(device.history(), old(device).history()),
                device.history().len() == old(device).history().len() + attempt,
                forall|i: int|
                    old(device).history().len() <= i < device.history().len() ==> #[trigger] device.history()[i]
                        == write_op(lba, buf@, device.history()[i].ok),
            decreases IO_RETRIES - attempt,
        {
            match device.write_at(lba, buf) {
                Ok(()) => return Ok(attempt),
                Err(e) => {
                    if attempt == IO_RETRIES {
                        return Err(e);
                    }
                },
            }
            attempt = attempt + 1;
        }
    }
}

/// Marks a pending run of sectors `[start, end)` that share a verdict, and
/// reports it when it is a defect.
fn flush_run<O: ScanObserver>(map: &mut SectorMap, observer: &mut O, run: Option<(u64, SectorState)>, end: u64)
    ensures
        final(map).spec_geometry() == old(map).spec_geometry(),
        final(map).alias_seq() == old(map).alias_seq(),
        forall|l: int|
            0 <= l < old(map).total() ==> #[trigger] final(map).state(l) == match run {
                Some((start, state)) => if start <= l < end {
                    state
                } else {
                    old(map).state(l)
                },
                None => old(map).state(l),
            },
{
    match run {
        Some((start, state)) => {
            if end > start {
                let range = LbaRange::from_bounds(start, end);
                map.mark(range, state);
                if state != SectorState::Good {
                    observer.on_defect(range, state);
                }
            }
        },
        None => {},
    }
}

impl Scanner {
    /// Classifies the sectors of a block that read back without error.
    /// Consecutive sectors sharing a verdict are recorded as one run: marking
    /// them one at a time costs more bookkeeping than the I/O it describes.
    /// A sector with no valid header after a successful write lost its content,
    /// which is corruption either way; an alias is recorded per sector, since
    /// each names a different address.
    fn classify_chunk<O: ScanObserver>(
        &self,
        chunk: &LbaRange,
        data: &[u8],
        ss: usize,
        map: &mut SectorMap,
        observer: &mut O,
    ) -> (r: u64)
        requires
            ss >= MIN_SECTOR_SIZE,
            data@.len() == chunk.len() * ss,
            chunk.start() < chunk.end() <= old(map).total(),
        ensures
            final(map).spec_geometry() == old(map).spec_geometry(),
            inspected(*final(map), chunk.start() as int, chunk.end() as int),
            same_outside(*old(map), *final(map), chunk.start() as int, chunk.end() as int),
            r <= chunk.len(),
            forall|l: int|
                chunk.start() <= l < chunk.end() ==> #[trigger] final(map).state(l) == verdict_state(
                    verdict_at(data@, chunk.start() as int, l, self.pattern.spec_nonce(), self.pattern.spec_kind(), ss as int),
                ),
            forall|l: int|
                chunk.start() <= l < chunk.end() ==> #[trigger] read_as(
                    read_op(chunk.start(), data@, true),
                    l,
                    self.pattern.spec_nonce(),
                    self.pattern.spec_kind(),
                    ss as int,
                    final(map).state(l),
                ),
    {
        let ghost start_map = *map;
        let dlen = data.len();
        let n = chunk.len();
        let first = chunk.start();
        let mut run: Option<(u64, SectorState)> = None;
        let mut defects: u64 = 0;
        let mut i: u64 = 0;
        while i < n
            invariant
                map.spec_geometry() == start_map.spec_geometry(),
                n == chunk.len(),
                first == chunk.start(),
                first + n == chunk.end(),
                chunk.end() <= start_map.total(),
                data@.len() == n * ss,
                dlen == data@.len(),
                ss >= MIN_SECTOR_SIZE,
                i <= n,
                defects <= i,
                run is None <==> i == 0,
                run is Some ==> ({
                    let (s, st) = run->Some_0;
                    &&& first <= s < first + i
                    &&& st != SectorState::Untested
                    &&& inspected(*map, first as int, s as int)
                    &&& forall|l: int| first <= l < s ==> #[trigger] map.state(l) == verdict_state(
                        verdict_at(data@, first as int, l, self.pattern.spec_nonce(), self.pattern.spec_kind(), ss as int),
                    )
                    &&& forall|l: int| s <= l < first + i ==> st == verdict_state(
                        #[trigger] verdict_at(data@, first as int, l, self.pattern.spec_nonce(), self.pattern.spec_kind(), ss as int),
                    )
                }),
                same_outside(start_map, *map, first as int, (first + n) as int),
            decreases n - i,
        {
            let lba = first + i;
            assert(i * ss + ss <= n * ss && i <= i * ss) by (nonlinear_arith)
                requires
                    i < n,
                    ss > 0,
            ;
            let at = (i as usize) * ss;
            let sector = &data[at..at + ss];
            assert(sector@ == data@.subrange((lba - first) * ss, (lba - first) * ss + ss));
            let state = match self.pattern.verify_sector(lba, sector) {
                SectorVerdict::Match => SectorState::Good,
                SectorVerdict::Aliased { actual_lba } => {
                    map.record_alias(lba, actual_lba);
                    defects = defects + 1;
                    SectorState::Aliased
                },
                _ => {
                    defects = defects + 1;
                    SectorState::Corrupt
                },
            };
            let continues = match run {
                Some((_, current)) => current == state,
                None => false,
            };
            if !continues {
                flush_run(map, observer, run, lba);
                run = Some((lba, state));
            }
            i = i + 1;
        }
        flush_run(map, observer, run, chunk.end());
        proof {
            assert forall|l: int| chunk.start() <= l < chunk.end() implies #[trigger] read_as(
                read_op(chunk.start(), data@, true),
                l,
                self.pattern.spec_nonce(),
                self.pattern.spec_kind(),
                ss as int,
                map.state(l),
            ) by {
                reveal(read_as);
                assert((l - first + 1) * ss <= n * ss) by (nonlinear_arith)
                    requires
                        first <= l < first + n,
                        ss > 0,
                ;
            }
        }
        defects
    }
}

/// Twice the length of every queued range, less one each: every step of a
/// bisection lowers it.
pub open spec fn queue_weight(q: Seq<(LbaRange, u32)>) -> int
    decreases q.len(),
{
    if q.len() == 0 {
        0
    } else {
        queue_weight(q.drop_last()) + 2 * q.last().0.len() - 1
    }
}

/// Every queued range is a non-empty part of `chunk`.
pub open spec fn queued_within(q: Seq<(LbaRange, u32)>, chunk: LbaRange) -> bool {
    forall|k: int|
        0 <= k < q.len() ==> chunk.start() <= (#[trigger] q[k]).0.start() < q[k].0.end() <= chunk.end()
}

/// Every address of `chunk` is inspected or still waits in the queue.
pub open spec fn pending_or_done(map: SectorMap, q: Seq<(LbaRange, u32)>, chunk: LbaRange) -> bool {
    forall|l: int|
        chunk.start() <= l < chunk.end() ==> #[trigger] map.state(l) != SectorState::Untested || exists|k: int|
            0 <= k < q.len() && (#[trigger] q[k]).0.start() <= l < q[k].0.end()
}

proof fn lemma_weight_positive(q: Seq<(LbaRange, u32)>, chunk: LbaRange)
    requires
        queued_within(q, chunk),
    ensures
        queue_weight(q) >= q.len(),
    decreases q.len(),
{
    if q.len() > 0 {
        let d = q.drop_last();
        assert forall|k: int| 0 <= k < d.len() implies chunk.start() <= (#[trigger] d[k]).0.start() < d[k].0.end()
            <= chunk.end() by {
            assert(d[k] == q[k]);
        }
        lemma_weight_positive(d, chunk);
        assert(q.last() == q[q.len() - 1]);
    }
}

impl Scanner {
    /// Isolates by bisection the sectors responsible for a read failure,
    /// classifying the readable ones along the way. Near the bottom of the
    /// bisection the read is retried before a range is condemned: a
    /// transient error must not cost good area.
    #[verifier::spinoff_prover]
    #[verifier::rlimit(60)]
    fn refine_read<D: BlockDevice, O: ScanObserver>(
        &self,
        device: &mut D,
        chunk: &LbaRange,
        buf: &mut Vec<u8>,
        ss: usize,
        map: &mut SectorMap,
        observer: &mut O,
    ) -> (r: Result<u64, ScanError>)
        requires
            ss >= MIN_SECTOR_SIZE,
            chunk.start() < chunk.end() <= old(map).total(),
            chunk.len() * ss <= usize::MAX,
        ensures
            final(map).spec_geometry() == old(map).spec_geometry(),
            final(device).reported() == old(device).reported(),
            same_outside(*old(map), *final(map), chunk.start() as int, chunk.end() as int),
            r is Ok ==> inspected(*final(map), chunk.start() as int, chunk.end() as int),
            r is Err ==> r->Err_0 is Cancelled,
            extends(final(device).history(), old(device).history()),
            r is Ok ==> forall|l: int|
                chunk.start() <= l < chunk.end() ==> #[trigger] classified(
                    *final(map),
                    l,
                    final(device).history(),
                    old(device).history().len() as int,
                    final(device).history().len() as int,
                    self.pattern.spec_nonce(),
                    self.pattern.spec_kind(),
                    ss as int,
                ),
    {
        let ghost start_map = *map;
        let ghost h0 = device.history();
        let ghost nonce = self.pattern.spec_nonce();
        let ghost kind = self.pattern.spec_kind();
        let mut defects: u64 = 0;
        let mut queue: Vec<(LbaRange, u32)> = Vec::new();
        queue.push((*chunk, 0));
        proof {
            assert(queue@[0] == (*chunk, 0u32));
            assert forall|l: int| chunk.start() <= l < chunk.end() implies #[trigger] map.state(l)
                != SectorState::Untested || exists|k: int|
                0 <= k < queue@.len() && (#[trigger] queue@[k]).0.start() <= l < queue@[k].0.end() by {
                assert(queue@[0].0.start() <= l < queue@[0].0.end());
            }
        }
        while queue.len() > 0
            invariant
                start_map == *old(map),
                ss >= MIN_SECTOR_SIZE,
                chunk.start() < chunk.end() <= start_map.total(),
                chunk.len() * ss <= usize::MAX,
                map.spec_geometry() == start_map.spec_geometry(),
                device.reported() == old(device).reported(),
                queued_within(queue@, *chunk),
                pending_or_done(*map, queue@, *chunk),
                same_outside(start_map, *map, chunk.start() as int, chunk.end() as int),
                h0 == old(device).history(),
                nonce == self.pattern.spec_nonce(),
                kind == self.pattern.spec_kind(),
                extends(device.history(), h0),
                forall|l: int|
                    chunk.start() <= l < chunk.end() ==> queued(queue@, l) || #[trigger] classified(
                        *map,
                        l,
                        device.history(),
                        h0.len() as int,
                        device.history().len() as int,
                        nonce,
                        kind,
                        ss as int,
                    ),
            decreases queue_weight(queue@),
        {
            let ghost q = queue@;
            let (range, depth) = match queue.pop() {
                Some(item) => item,
                None => {
                    return Ok(defects);
                },
            };
            let ghost rest = queue@;
            proof {
                assert(rest == q.drop_last());
                assert(q.last() == (range, depth));
                assert(q[q.len() - 1] == (range, depth));
                assert forall|k: int| 0 <= k < rest.len() implies chunk.start() <= (#[trigger] rest[k]).0.start()
                    < rest[k].0.end() <= chunk.end() by {
                    assert(rest[k] == q[k]);
                }
                lemma_weight_positive(rest, *chunk);
            }
            match self.bail_if_cancelled() {
                Ok(()) => {},
                Err(e) => return Err(e),
            }
            assert(range.len() * ss <= chunk.len() * ss && range.len() <= range.len() * ss) by (nonlinear_arith)
                requires
                    range.len() <= chunk.len(),
                    ss >= 1,
            ;
            let bytes = (range.len() as usize) * ss;
            buf.resize(bytes, 0);
            let ghost before = *map;
            let ghost hb = device.history();
            let read = device.read_at(range.start(), buf.as_mut_slice());
            assert(buf@.len() == bytes);
            assert(extends(device.history(), hb));
            let mut condemn = false;
            let mut split = false;
            match read {
                Ok(()) => {
                    let found = self.classify_chunk(&range, buf.as_slice(), ss, map, observer);
                    defects = defects.saturating_add(found);
                    proof {
                        let h = device.history();
                        assert(h[hb.len() as int] == read_op(range.start(), buf@, true));
                        assert forall|l: int| range.start() <= l < range.end() implies #[trigger] classified(
                            *map,
                            l,
                            h,
                            h0.len() as int,
                            h.len() as int,
                            nonce,
                            kind,
                            ss as int,
                        ) by {
                            assert(read_as(h[hb.len() as int], l, nonce, kind, ss as int, map.state(l)));
                            lemma_classified_by_read(*map, l, h, h0.len() as int, hb.len() as int, nonce, kind, ss as int, verdict_at(buf@, range.start() as int, l, nonce, kind, ss as int));
                        }
                    }
                },
                Err(_) => {
                    if range.len() <= MIN_REFINE_SECTORS || depth >= MAX_REFINE_DEPTH {
                        match self.read_persistent(device, range.start(), buf.as_mut_slice()) {
                            Ok(_) => {
                                assert(buf@.len() == bytes);
                                let found = self.classify_chunk(&range, buf.as_slice(), ss, map, observer);
                                defects = defects.saturating_add(found);
                                proof {
                                    let h = device.history();
                                    lemma_extends_trans(h0, hb, h);
                                    assert(h[h.len() - 1] == read_op(range.start(), buf@, true));
                                    assert forall|l: int| range.start() <= l < range.end() implies #[trigger] classified(
                                        *map,
                                        l,
                                        h,
                                        h0.len() as int,
                                        h.len() as int,
                                        nonce,
                                        kind,
                                        ss as int,
                                    ) by {
                                        assert(read_as(h[h.len() - 1], l, nonce, kind, ss as int, map.state(l)));
                                        lemma_classified_by_read(*map, l, h, h0.len() as int, h.len() - 1, nonce, kind, ss as int, verdict_at(buf@, range.start() as int, l, nonce, kind, ss as int));
                                    }
                                }
                            },
                            Err(_) => {
                                condemn = true;
                            },
                        }
                    } else {
                        split = true;
                    }
                },
            }
            if condemn {
                map.mark(range, SectorState::BadRead);
                defects = defects.saturating_add(range.len());
                observer.on_defect(range, SectorState::BadRead);
            }
            if split {
                let mid = range.start() + range.len() / 2;
                let low = LbaRange::from_bounds(range.start(), mid);
                let high = LbaRange::from_bounds(mid, range.end());
                queue.push((low, depth + 1));
                queue.push((high, depth + 1));
                proof {
                    let q2 = queue@;
                    assert(q2.drop_last().drop_last() == rest);
                    assert(q2.drop_last().last() == (low, (depth + 1) as u32));
                    assert(q2.last() == (high, (depth + 1) as u32));
                    assert(low.len() + high.len() == range.len());
                    assert(queue_weight(q2) == queue_weight(q2.drop_last()) + 2 * high.len() - 1);
                    assert(queue_weight(q2.drop_last()) == queue_weight(rest) + 2 * low.len() - 1);
                    assert(queue_weight(q) == queue_weight(rest) + 2 * range.len() - 1);
                    assert forall|l: int| chunk.start() <= l < chunk.end() implies #[trigger] map.state(l)
                        != SectorState::Untested || exists|k: int|
                        0 <= k < q2.len() && (#[trigger] q2[k]).0.start() <= l < q2[k].0.end() by {
                        if map.state(l) == SectorState::Untested {
                            let k = choose|k: int| 0 <= k < q.len() && (#[trigger] q[k]).0.start() <= l < q[k].0.end();
                            if k == q.len() - 1 {
                                if l < mid {
                                    assert(q2[rest.len() as int] == (low, (depth + 1) as u32));
                                } else {
                                    assert(q2[rest.len() as int + 1] == (high, (depth + 1) as u32));
                                }
                            } else {
                                assert(q2[k] == q[k]);
                            }
                        }
                    }
                    assert forall|k: int| 0 <= k < q2.len() implies chunk.start() <= (#[trigger] q2[k]).0.start()
                        < q2[k].0.end() <= chunk.end() by {
                        if k < rest.len() {
                            assert(q2[k] == rest[k]);
                        }
                    }
                }
                let progress = ScanProgress {
                    phase: ScanPhase::Refining,
                    sectors_done: 0,
                    sectors_total: chunk.len(),
                    current_lba: range.start(),
                    defects_found: defects,
                };
                observer.on_progress(&progress, map);
            } else {
                proof {
                    assert(queue_weight(q) == queue_weight(rest) + 2 * range.len() - 1);
                    assert forall|l: int| chunk.start() <= l < chunk.end() implies #[trigger] map.state(l)
                        != SectorState::Untested || exists|k: int|
                        0 <= k < rest.len() && (#[trigger] rest[k]).0.start() <= l < rest[k].0.end() by {
                        if !(range.start() <= l < range.end()) {
                            assert(map.state(l) == before.state(l));
                            if before.state(l) == SectorState::Untested {
                                let k = choose|k: int| 0 <= k < q.len() && (#[trigger] q[k]).0.start() <= l < q[k].0.end();
                                assert(k != q.len() - 1);
                                assert(rest[k] == q[k]);
                            }
                        }
                    }
                }
            }
            proof {
                let h = device.history();
                let q3 = queue@;
                assert(extends(h, hb));
                lemma_extends_trans(h0, hb, h);
                assert forall|l: int| chunk.start() <= l < chunk.end() implies queued(q3, l) || #[trigger] classified(
                    *map,
                    l,
                    h,
                    h0.len() as int,
                    h.len() as int,
                    nonce,
                    kind,
                    ss as int,
                ) by {
                    if range.start() <= l < range.end() {
                        if split {
                            let mid = range.start() + range.len() / 2;
                            if l < mid {
                                assert(q3[rest.len() as int].0.start() <= l < q3[rest.len() as int].0.end());
                            } else {
                                assert(q3[rest.len() as int + 1].0.start() <= l < q3[rest.len() as int + 1].0.end());
                            }
                        } else if condemn {
                            lemma_classified_unreadable(*map, l, h, h0.len() as int, nonce, kind, ss as int);
                        }
                    } else {
                        assert(map.state(l) == before.state(l));
                        if queued(q, l) {
                            let k = choose|k: int| 0 <= k < q.len() && (#[trigger] q[k]).0.start() <= l < q[k].0.end();
                            assert(k != q.len() - 1);
                            assert(rest[k] == q[k]);
                            assert(q3[k] == rest[k]);
                        } else {
                            lemma_classified_extends(before, *map, l, hb, h, h0.len() as int, nonce, kind, ss as int);
                        }
                    }
                }
            }
        }
        Ok(defects)
    }
}

/// A tiling of `[lo, hi)` by non-empty, adjacent ranges.
pub open spec fn tiling(c: Seq<LbaRange>, lo: u64, hi: u64) -> bool {
    &&& c.len() > 0 ==> c[0].start() == lo && c[c.len() - 1].end() == hi
    &&& forall|i: int| 0 <= i < c.len() - 1 ==> #[trigger] c[i].end() == c[i + 1].start()
    &&& forall|i: int| 0 <= i < c.len() ==> !(#[trigger] c[i]).spec_is_empty()
}

proof fn lemma_chunk_starts(c: Seq<LbaRange>, lo: u64, hi: u64, k: int)
    requires
        tiling(c, lo, hi),
        0 <= k < c.len(),
    ensures
        lo <= c[k].start(),
    decreases k,
{
    if k > 0 {
        lemma_chunk_starts(c, lo, hi, k - 1);
        assert(c[k - 1].end() == c[k].start());
    }
}

proof fn lemma_chunk_ends(c: Seq<LbaRange>, lo: u64, hi: u64, k: int)
    requires
        tiling(c, lo, hi),
        0 <= k < c.len(),
    ensures
        c[k].end() <= hi,
    decreases c.len() - k,
{
    if k < c.len() - 1 {
        lemma_chunk_ends(c, lo, hi, k + 1);
        assert(c[k].end() == c[k + 1].start());
        assert(!c[k + 1].spec_is_empty());
    }
}

/// Every range of a tiling of `[lo, hi)` lies inside it.
proof fn lemma_chunk_within(c: Seq<LbaRange>, lo: u64, hi: u64, k: int)
    requires
        tiling(c, lo, hi),
        0 <= k < c.len(),
    ensures
        lo <= c[k].start() < c[k].end() <= hi,
{
    lemma_chunk_starts(c, lo, hi, k);
    lemma_chunk_ends(c, lo, hi, k);
}

/// In a tiling, a range ends no later than any later one starts.
#[verifier::spinoff_prover]
#[verifier::rlimit(30)]
proof fn lemma_chunk_order(c: Seq<LbaRange>, lo: u64, hi: u64, i: int, j: int)
    requires
        tiling(c, lo, hi),
        0 <= i < j < c.len(),
    ensures
        c[i].end() <= c[j].start(),
    decreases j - i,
{
    if j > i + 1 {
        lemma_chunk_order(c, lo, hi, i, j - 1);
        assert(c[j - 1].end() == c[j].start());
    } else {
        assert(c[i].end() == c[i + 1].start());
    }
}

/// Closing the record of the block a write pass is on: the blocks already
/// recorded keep their records in the longer history, and the new block's
/// requests run from its first write to the end of the history.
proof fn lemma_close_block(
    hs: Seq<DeviceOp>,
    h: Seq<DeviceOp>,
    marks: Seq<int>,
    blocks: Seq<LbaRange>,
    n: int,
    nonce: u64,
    kind: PatternKind,
    ss: int,
)
    requires
        n == blocks.len(),
        1 <= marks.len() <= n,
        marks[marks.len() - 1] == hs.len(),
        extends(h, hs),
        forall|i: int|
            0 <= i < marks.len() - 1 ==> #[trigger] block_log(hs, marks[i], marks[i + 1], nonce, kind, blocks[n - 1 - i], ss),
        block_log(h, hs.len() as int, h.len() as int, nonce, kind, blocks[n - marks.len()], ss),
    ensures
        forall|i: int|
            0 <= i < marks.push(h.len() as int).len() - 1 ==> #[trigger] block_log(
                h,
                marks.push(h.len() as int)[i],
                marks.push(h.len() as int)[i + 1],
                nonce,
                kind,
                blocks[n - 1 - i],
                ss,
            ),
{
    let m2 = marks.push(h.len() as int);
    assert forall|i: int| 0 <= i < m2.len() - 1 implies #[trigger] block_log(h, m2[i], m2[i + 1], nonce, kind, blocks[n - 1 - i], ss) by {
        if i < marks.len() - 1 {
            assert(m2[i] == marks[i] && m2[i + 1] == marks[i + 1]);
            lemma_block_log_extends(hs, h, marks[i], marks[i + 1], nonce, kind, blocks[n - 1 - i], ss);
        } else {
            assert(i == marks.len() - 1);
            assert(m2[i] == hs.len() && m2[i + 1] == h.len());
        }
    }
}

/// A write pass that stops on the block it is on leaves a history made of
/// the blocks before it and that block's requests, and a map it did not
/// touch during that block.
proof fn lemma_pass_stops(
    h0: Seq<DeviceOp>,
    hs: Seq<DeviceOp>,
    h: Seq<DeviceOp>,
    marks: Seq<int>,
    blocks: Seq<LbaRange>,
    n: int,
    work: LbaRange,
    chunk: u64,
    nonce: u64,
    kind: PatternKind,
    ss: int,
    m0: SectorMap,
    m: SectorMap,
)
    requires
        n == blocks.len(),
        blocks_of(blocks, work, chunk),
        1 <= marks.len() <= n,
        marks[0] == h0.len(),
        marks[marks.len() - 1] == hs.len(),
        forall|i: int| 0 <= i < marks.len() - 1 ==> 0 <= #[trigger] marks[i] < hs.len(),
        extends(h, hs),
        extends(h, h0),
        forall|i: int|
            0 <= i < marks.push(h.len() as int).len() - 1 ==> #[trigger] block_log(
                h,
                marks.push(h.len() as int)[i],
                marks.push(h.len() as int)[i + 1],
                nonce,
                kind,
                blocks[n - 1 - i],
                ss,
            ),
        forall|i: int, l: int|
            #![trigger marks[i], m.state(l)]
            0 <= i < marks.len() - 1 && hs[marks[i]].ok && blocks[n - 1 - i].start() <= l < blocks[n - 1 - i].end()
                ==> m.state(l) == m0.state(l),
        !h[hs.len() as int].ok,
    ensures
        write_pass_log(h0, h, work, chunk, nonce, kind, ss, m0, m, false),
{
    let m2 = marks.push(h.len() as int);
    assert forall|i: int, l: int|
        #![trigger m2[i], m.state(l)]
        0 <= i < m2.len() - 1 && h[m2[i]].ok && blocks[n - 1 - i].start() <= l < blocks[n - 1 - i].end() implies m.state(l)
            == m0.state(l) by {
        if i < marks.len() - 1 {
            assert(m2[i] == marks[i]);
            assert(h[marks[i]] == hs[marks[i]]);
        } else {
            assert(m2[i] == hs.len());
        }
    }
    assert(pass_log(h0, h, blocks, m2, nonce, kind, ss, m0, m, false)) by {
        reveal(pass_log);
    }
}

/// After a write pass has dealt with block `k - 1` (counting from the front),
/// everything it knew of the blocks behind still holds, the block joins
/// them, and the sectors in front of it are still untouched.
#[verifier::rlimit(40)]
proof fn lemma_block_done(
    m0: SectorMap,
    mi: SectorMap,
    m: SectorMap,
    hs: Seq<DeviceOp>,
    h: Seq<DeviceOp>,
    marks: Seq<int>,
    blocks: Seq<LbaRange>,
    work: LbaRange,
    k: int,
)
    requires
        tiling(blocks, work.start(), work.end()),
        1 <= k <= blocks.len(),
        marks.len() == blocks.len() - k + 1,
        marks[marks.len() - 1] == hs.len(),
        forall|i: int| 0 <= i < marks.len() - 1 ==> 0 <= #[trigger] marks[i] < hs.len(),
        extends(h, hs),
        h.len() > hs.len(),
        forall|i: int, l: int|
            #![trigger marks[i], mi.state(l)]
            0 <= i < marks.len() - 1 && hs[marks[i]].ok && blocks[blocks.len() - 1 - i].start() <= l
                < blocks[blocks.len() - 1 - i].end() ==> mi.state(l) == m0.state(l),
        forall|l: int|
            0 <= l < m0.total() && l < (if k < blocks.len() {
                blocks[k].start() as int
            } else {
                work.end() as int
            }) ==> #[trigger] mi.state(l) == m0.state(l),
        work.end() <= m0.total(),
        mi.total() == m0.total(),
        same_outside(mi, m, blocks[k - 1].start() as int, blocks[k - 1].end() as int),
        h[hs.len() as int].ok ==> forall|l: int| #[trigger] m.state(l) == mi.state(l),
    ensures
        forall|i: int|
            0 <= i < marks.push(h.len() as int).len() - 1 ==> 0 <= #[trigger] marks.push(h.len() as int)[i] < h.len(),
        forall|i: int, l: int|
            #![trigger marks.push(h.len() as int)[i], m.state(l)]
            0 <= i < marks.push(h.len() as int).len() - 1 && h[marks.push(h.len() as int)[i]].ok && blocks[blocks.len() - 1
                - i].start() <= l < blocks[blocks.len() - 1 - i].end() ==> m.state(l) == m0.state(l),
        forall|l: int| 0 <= l < m0.total() && l < blocks[k - 1].start() ==> #[trigger] m.state(l) == m0.state(l),
{
    let n = blocks.len() as int;
    let m2 = marks.push(h.len() as int);
    let c = blocks[k - 1];
    lemma_chunk_within(blocks, work.start(), work.end(), k - 1);
    if k < n {
        assert(blocks[k - 1].end() == blocks[k].start());
    }
    assert forall|l: int| 0 <= l < m0.total() && l < c.start() implies #[trigger] m.state(l) == m0.state(l) by {
        assert(m.state(l) == mi.state(l));
        assert(mi.state(l) == m0.state(l));
    }
    assert forall|i: int| 0 <= i < m2.len() - 1 implies 0 <= #[trigger] m2[i] < h.len() by {
        if i < marks.len() - 1 {
            assert(m2[i] == marks[i]);
        }
    }
    assert forall|i: int, l: int|
        #![trigger m2[i], m.state(l)]
        0 <= i < m2.len() - 1 && h[m2[i]].ok && blocks[n - 1 - i].start() <= l < blocks[n - 1 - i].end() implies m.state(l)
            == m0.state(l) by {
        if i < marks.len() - 1 {
            assert(m2[i] == marks[i]);
            assert(h[marks[i]] == hs[marks[i]]);
            lemma_chunk_order(blocks, work.start(), work.end(), k - 1, n - 1 - i);
            lemma_chunk_within(blocks, work.start(), work.end(), n - 1 - i);
            assert(mi.state(l) == m0.state(l));
            assert(m.state(l) == mi.state(l));
        } else {
            assert(n - 1 - i == k - 1);
            assert(m2[i] == hs.len());
            assert(m.state(l) == mi.state(l));
            assert(mi.state(l) == m0.state(l));
        }
    }
}

/// Extending a history is transitive.
proof fn lemma_extends_trans(h0: Seq<DeviceOp>, h1: Seq<DeviceOp>, h2: Seq<DeviceOp>)
    requires
        extends(h1, h0),
        extends(h2, h1),
    ensures
        extends(h2, h0),
{
    assert forall|i: int| 0 <= i < h0.len() implies #[trigger] h2[i] == h0[i] by {
        assert(h2[i] == h1[i]);
    }
}

/// What a history says of its first requests survives its extension.
proof fn lemma_block_log_extends(
    h0: Seq<DeviceOp>,
    h1: Seq<DeviceOp>,
    from: int,
    to: int,
    nonce: u64,
    kind: PatternKind,
    c: LbaRange,
    ss: int,
)
    requires
        extends(h1, h0),
        block_log(h0, from, to, nonce, kind, c, ss),
    ensures
        block_log(h1, from, to, nonce, kind, c, ss),
{
    reveal(block_log);
    assert(h1[from] == h0[from]);
    assert forall|i: int| from <= i < to implies (#[trigger] h1[i]).call == DeviceCall::Write && c.start() <= h1[i].lba
        < c.end() by {
        assert(h1[i] == h0[i]);
    }
}

/// Writes inside a block stay recorded once the history grows.
proof fn lemma_writes_within_extends(h0: Seq<DeviceOp>, h1: Seq<DeviceOp>, from: int, to: int, c: LbaRange)
    requires
        extends(h1, h0),
        0 <= from,
        to <= h0.len(),
        writes_within(h0, from, to, c),
    ensures
        writes_within(h1, from, to, c),
{
    assert forall|i: int| from <= i < to implies (#[trigger] h1[i]).call == DeviceCall::Write && c.start() <= h1[i].lba
        < c.end() by {
        assert(h1[i] == h0[i]);
    }
}

/// How far the enclosing phase has advanced, reported on its behalf by a
/// bisection.
#[derive(Debug, Clone, Copy)]
struct PhaseProgress {
    done: u64,
    total: u64,
}

impl Scanner {
    /// Probes a few sectors spread across the block to learn whether any of
    /// them accepts a write: when none does, bisecting the block would walk
    /// its whole tree to conclude what these attempts already said.
    fn any_sector_writable<D: BlockDevice>(&self, device: &mut D, chunk: &LbaRange, buf: &mut Vec<u8>, ss: usize) -> (r: bool)
        requires
            ss >= MIN_SECTOR_SIZE,
            chunk.start() < chunk.end(),
        ensures
            final(device).reported() == old(device).reported(),
            extends(final(device).history(), old(device).history()),
            writes_within(final(device).history(), old(device).history().len() as int, final(device).history().len() as int, *chunk),
    {
        let len = chunk.len();
        let mut i: u64 = 0;
        while i < WRITE_PROBE_SAMPLES
            invariant
                extends(device.history(), old(device).history()),
                writes_within(device.history(), old(device).history().len() as int, device.history().len() as int, *chunk),
                ss >= MIN_SECTOR_SIZE,
                len == chunk.len(),
                len >= 1,
                chunk.start() + len == chunk.end(),
                device.reported() == old(device).reported(),
            decreases WRITE_PROBE_SAMPLES - i,
        {
            let offset = crate::geometry::saturating_mul_u64(len, i) / WRITE_PROBE_SAMPLES;
            let last = len - 1;
            let step = if offset < last {
                offset
            } else {
                last
            };
            let lba = chunk.start() + step;
            buf.resize(ss, 0);
            self.pattern.fill_sector(lba, buf.as_mut_slice());
            if device.write_at(lba, buf.as_slice()).is_ok() {
                return true;
            }
            i = i + 1;
        }
        false
    }

    /// Isolates by bisection the sectors responsible for a write failure,
    /// returning the condemned ranges in address order. Near the bottom of the
    /// bisection a write is retried: insisting is cheap there and avoids
    /// condemning good area over a transient failure.
    #[verifier::spinoff_prover]
    #[verifier::rlimit(60)]
    fn refine_write<D: BlockDevice, O: ScanObserver>(
        &self,
        device: &mut D,
        chunk: &LbaRange,
        buf: &mut Vec<u8>,
        ss: usize,
        map: &SectorMap,
        observer: &mut O,
        phase: PhaseProgress,
    ) -> (r: Result<Vec<LbaRange>, ScanError>)
        requires
            ss >= MIN_SECTOR_SIZE,
            chunk.start() < chunk.end(),
            chunk.len() * ss <= usize::MAX,
        ensures
            final(device).reported() == old(device).reported(),
            r is Ok ==> sorted_by_start(r->Ok_0@),
            r is Ok ==> forall|k: int|
                0 <= k < r->Ok_0@.len() ==> chunk.start() <= (#[trigger] r->Ok_0@[k]).start() < r->Ok_0@[k].end()
                    <= chunk.end(),
            r is Err ==> r->Err_0 is Cancelled,
            extends(final(device).history(), old(device).history()),
            writes_within(final(device).history(), old(device).history().len() as int, final(device).history().len() as int, *chunk),
    {
        let mut bad: Vec<LbaRange> = Vec::new();
        let mut queue: Vec<(LbaRange, u32)> = Vec::new();
        queue.push((*chunk, 0));
        while queue.len() > 0
            invariant
                extends(device.history(), old(device).history()),
                writes_within(device.history(), old(device).history().len() as int, device.history().len() as int, *chunk),
                ss >= MIN_SECTOR_SIZE,
                chunk.start() < chunk.end(),
                chunk.len() * ss <= usize::MAX,
                device.reported() == old(device).reported(),
                queued_within(queue@, *chunk),
                sorted_by_start(bad@),
                forall|k: int|
                    0 <= k < bad@.len() ==> chunk.start() <= (#[trigger] bad@[k]).start() < bad@[k].end() <= chunk.end(),
            decreases queue_weight(queue@),
        {
            let ghost q = queue@;
            let (range, depth) = match queue.pop() {
                Some(item) => item,
                None => {
                    return Ok(bad);
                },
            };
            let ghost rest = queue@;
            proof {
                assert(rest == q.drop_last());
                assert(q[q.len() - 1] == (range, depth));
                assert forall|k: int| 0 <= k < rest.len() implies chunk.start() <= (#[trigger] rest[k]).0.start()
                    < rest[k].0.end() <= chunk.end() by {
                    assert(rest[k] == q[k]);
                }
                lemma_weight_positive(rest, *chunk);
                assert(queue_weight(q) == queue_weight(rest) + 2 * range.len() - 1);
            }
            match self.bail_if_cancelled() {
                Ok(()) => {},
                Err(e) => return Err(e),
            }
            assert(range.len() * ss <= chunk.len() * ss && range.len() <= range.len() * ss) by (nonlinear_arith)
                requires
                    range.len() <= chunk.len(),
                    ss >= 1,
            ;
            let bytes = (range.len() as usize) * ss;
            buf.resize(bytes, 0);
            proof {
                assert((bytes as nat) % (ss as nat) == 0) by (nonlinear_arith)
                    requires
                        bytes == range.len() * ss,
                        ss > 0,
                ;
            }
            self.pattern.fill_range(range.start(), ss, buf.as_mut_slice());
            let ok = if range.len() <= MIN_REFINE_SECTORS * 4 {
                self.write_persistent(device, range.start(), buf.as_slice()).is_ok()
            } else {
                device.write_at(range.start(), buf.as_slice()).is_ok()
            };
            if !ok {
                if range.len() <= MIN_REFINE_SECTORS || depth >= MAX_REFINE_DEPTH {
                    let ghost old_bad = bad@;
                    insert_by_start(&mut bad, range);
                    proof {
                        assert forall|k: int| 0 <= k < bad@.len() implies chunk.start() <= (#[trigger] bad@[k]).start()
                            < bad@[k].end() <= chunk.end() by {
                            let x = bad@[k];
                            assert(bad@.contains(x));
                            if x != range {
                                assert(old_bad.contains(x));
                                let j = choose|j: int| 0 <= j < old_bad.len() && old_bad[j] == x;
                                assert(chunk.start() <= old_bad[j].start());
                            }
                        }
                    }
                } else {
                    let mid = range.start() + range.len() / 2;
                    let low = LbaRange::from_bounds(range.start(), mid);
                    let high = LbaRange::from_bounds(mid, range.end());
                    queue.push((low, depth + 1));
                    queue.push((high, depth + 1));
                    proof {
                        let q2 = queue@;
                        assert(q2.drop_last().drop_last() == rest);
                        assert(q2.drop_last().last() == (low, (depth + 1) as u32));
                        assert(q2.last() == (high, (depth + 1) as u32));
                        assert(queue_weight(q2) == queue_weight(q2.drop_last()) + 2 * high.len() - 1);
                        assert(queue_weight(q2.drop_last()) == queue_weight(rest) + 2 * low.len() - 1);
                        assert forall|k: int| 0 <= k < q2.len() implies chunk.start() <= (#[trigger] q2[k]).0.start()
                            < q2[k].0.end() <= chunk.end() by {
                            if k < rest.len() {
                                assert(q2[k] == rest[k]);
                            }
                        }
                    }
                    let mut found: u64 = 0;
                    let mut j: usize = 0;
                    while j < bad.len()
                        invariant
                            j <= bad@.len(),
                        decreases bad@.len() - j,
                    {
                        found = found.saturating_add(bad[j].len());
                        j = j + 1;
                    }
                    let progress = ScanProgress {
                        phase: ScanPhase::Refining,
                        sectors_done: phase.done,
                        sectors_total: phase.total,
                        current_lba: range.start(),
                        defects_found: found,
                    };
                    observer.on_progress(&progress, map);
                }
            }
        }
        Ok(bad)
    }
}

/// The range a configuration inspects on a device: the configured one, or
/// the whole device.
pub open spec fn scan_span(config: ScanConfig, g: DeviceGeometry) -> LbaRange {
    match config.range {
        Some(r) => r,
        None => LbaRange::spec_bounds(0, g.total_sectors()),
    }
}

/// The part of the scanned range that lies on the device.
pub open spec fn on_device(span: LbaRange, g: DeviceGeometry) -> LbaRange {
    LbaRange::spec_bounds(min_u64(span.start(), g.total_sectors()), min_u64(span.end(), g.total_sectors()))
}

/// A block of the configured size fits in memory.
pub open spec fn blocks_fit(config: ScanConfig, g: DeviceGeometry) -> bool {
    max_u64(config.chunk_sectors, 1) * g.sector_size() <= usize::MAX
}

/// What a completed scan owes: a map of the device in which every address of
/// the scanned range on the device was inspected, and every address outside
/// it left uninspected.
pub open spec fn scan_complete(config: ScanConfig, g: DeviceGeometry, out: ScanOutcome) -> bool {
    let span = scan_span(config, g);
    let work = on_device(span, g);
    &&& out.map.spec_geometry() == g
    &&& out.sectors_scanned == span.len()
    &&& inspected(out.map, work.start() as int, work.end() as int)
    &&& untested_outside(out.map, span)
}

/// The ways a write phase can end in failure: the user cancelled, the device
/// is read-only, or it refused every write across the threshold of
/// consecutive blocks.
pub open spec fn write_phase_error(e: ScanError) -> bool {
    ||| e is Cancelled
    ||| e is NotWritable
    ||| e matches ScanError::SystemicWriteFailure { consecutive, .. } && consecutive == SYSTEMIC_FAILURE_THRESHOLD
}

/// Every sector of the map is still uninspected.
pub open spec fn untouched(m: SectorMap) -> bool {
    forall|l: int| #[trigger] m.state(l) == SectorState::Untested
}

/// The requests a write phase with `config` on a device of geometry `g` made,
/// from the history `h0` to `h`: the write pass over the part of the scanned
/// range on the device, starting from a map with nothing inspected and
/// leaving `m`, completed or not.
pub open spec fn write_phase_log(h0: Seq<DeviceOp>, h: Seq<DeviceOp>, config: ScanConfig, g: DeviceGeometry, m: SectorMap, completed: bool) -> bool {
    exists|m0: SectorMap|
        untouched(m0) && #[trigger] write_pass_log(
            h0,
            h,
            on_device(scan_span(config, g), g),
            config.chunk_sectors,
            config.nonce,
            config.pattern,
            g.sector_size() as int,
            m0,
            m,
            completed,
        )
}

/// After the history `hw` of a completed write pass, every sector of the
/// scanned range has in `m` the state the reads of `h` found: good only where
/// one read it back as the pattern written for it.
pub open spec fn read_back_classified(hw: Seq<DeviceOp>, h: Seq<DeviceOp>, config: ScanConfig, g: DeviceGeometry, m: SectorMap) -> bool {
    let work = on_device(scan_span(config, g), g);
    &&& extends(h, hw)
    &&& forall|l: int|
        work.start() <= l < work.end() ==> #[trigger] classified(
            m,
            l,
            h,
            hw.len() as int,
            h.len() as int,
            config.nonce,
            config.pattern,
            g.sector_size() as int,
        )
}

/// A whole scan with `config` on a device of geometry `g`, from the
/// history `h0` to `h`: a completed write pass, then a read-back in which
/// every sector `m` calls good brought back the pattern written for it.
pub open spec fn scan_log(h0: Seq<DeviceOp>, h: Seq<DeviceOp>, config: ScanConfig, g: DeviceGeometry, m: SectorMap) -> bool {
    exists|hw: Seq<DeviceOp>, mw: SectorMap|
        #[trigger] write_phase_log(h0, hw, config, g, mw, true) && read_back_classified(hw, h, config, g, m)
}

/// A scan whose write pass is done and whose read-back is pending: between
/// the two, a retention delay lets the data sit on the card.
pub struct PendingScan {
    map: SectorMap,
    span: LbaRange,
    work: LbaRange,
    buf: Vec<u8>,
    ss: usize,
}

impl PendingScan {
    /// The map as the write pass left it.
    pub closed spec fn spec_map(&self) -> SectorMap {
        self.map
    }

    /// The pending scan was started by a scanner with `config` on a device of
    /// geometry `g`.
    pub closed spec fn started_with(&self, config: ScanConfig, g: DeviceGeometry) -> bool {
        &&& self.span == scan_span(config, g)
        &&& self.work == on_device(self.span, g)
        &&& self.work.start() <= self.work.end() <= g.total_sectors()
        &&& self.map.spec_geometry() == g
        &&& self.ss == g.sector_size()
        &&& self.ss >= MIN_SECTOR_SIZE
        &&& blocks_fit(config, g)
        &&& untested_outside(self.map, self.span)
    }
}

impl Scanner {
    /// Writes one block of a write pass with its pattern, and when the device
    /// refuses it, probes the block and isolates the sectors at fault. Gives
    /// the ranges to condemn, or `None` when not even a probe was accepted.
    #[verifier::spinoff_prover]
    fn write_block<D: BlockDevice, O: ScanObserver>(
        &self,
        device: &mut D,
        chunk: &LbaRange,
        buf: &mut Vec<u8>,
        ss: usize,
        map: &SectorMap,
        observer: &mut O,
        phase: PhaseProgress,
    ) -> (r: Result<Option<Vec<LbaRange>>, ScanError>)
        requires
            ss >= MIN_SECTOR_SIZE,
            chunk.start() < chunk.end(),
            chunk.len() * ss <= usize::MAX,
        ensures
            final(device).reported() == old(device).reported(),
            extends(final(device).history(), old(device).history()),
            final(device).history().len() > old(device).history().len(),
            block_log(
                final(device).history(),
                old(device).history().len() as int,
                final(device).history().len() as int,
                self.pattern.spec_nonce(),
                self.pattern.spec_kind(),
                *chunk,
                ss as int,
            ),
            final(device).history()[old(device).history().len() as int].ok ==> (r matches Ok(Some(bad)) && bad@.len()
                == 0),
            r matches Ok(Some(bad)) ==> forall|i: int|
                0 <= i < bad@.len() ==> chunk.start() <= (#[trigger] bad@[i]).start() && bad@[i].end() <= chunk.end(),
            r is Err ==> r->Err_0 is Cancelled,
    {
        let ghost m = device.history().len() as int;
        let ghost nonce = self.pattern.spec_nonce();
        let ghost kind = self.pattern.spec_kind();
        reveal(block_log);
        assert(chunk.len() <= chunk.len() * ss) by (nonlinear_arith)
            requires
                ss >= 1,
        ;
        let bytes = (chunk.len() as usize) * ss;
        buf.resize(bytes, 0);
        proof {
            assert((bytes as nat) % (ss as nat) == 0) by (nonlinear_arith)
                requires
                    bytes == chunk.len() * ss,
                    ss > 0,
            ;
        }
        self.pattern.fill_range(chunk.start(), ss, buf.as_mut_slice());
        let ghost data = buf@;
        let wrote = device.write_at(chunk.start(), buf.as_slice());
        let ghost hw = device.history();
        proof {
            assert(hw[m] == write_op(chunk.start(), data, wrote is Ok));
            assert(pattern_block(nonce, kind, chunk.start(), ss as int, data));
        }
        if wrote.is_ok() {
            return Ok(Some(Vec::new()));
        }
        let writable = self.any_sector_writable(device, chunk, buf, ss);
        let ghost hb = device.history();
        proof {
            lemma_extends_trans(hw, hb, hb);
            assert(hb[m] == hw[m]);
        }
        if !writable {
            return Ok(None);
        }
        let refined = self.refine_write(device, chunk, buf, ss, map, observer, phase);
        proof {
            lemma_extends_trans(hw, hb, device.history());
            lemma_writes_within_extends(hb, device.history(), m + 1, hb.len() as int, *chunk);
            assert(device.history()[m] == hw[m]);
        }
        match refined {
            Ok(found) => Ok(Some(found)),
            Err(e) => Err(e),
        }
    }

    /// Condemns the ranges of `bad`, all inside `chunk`, as refusing writes,
    /// and reports each; gives the number of sectors condemned.
    fn condemn<O: ScanObserver>(
        map: &mut SectorMap,
        observer: &mut O,
        bad: &Vec<LbaRange>,
        chunk: &LbaRange,
        defects: u64,
    ) -> (r: u64)
        requires
            forall|i: int|
                0 <= i < bad@.len() ==> chunk.start() <= (#[trigger] bad@[i]).start() && bad@[i].end() <= chunk.end(),
        ensures
            final(map).spec_geometry() == old(map).spec_geometry(),
            final(map).alias_seq() == old(map).alias_seq(),
            same_outside(*old(map), *final(map), chunk.start() as int, chunk.end() as int),
            only_condemned(*old(map), *final(map)),
            bad@.len() == 0 ==> forall|l: int| #[trigger] final(map).state(l) == old(map).state(l),
    {
        let mut defects = defects;
        let mut j: usize = 0;
        while j < bad.len()
            invariant
                j <= bad@.len(),
                forall|i: int|
                    0 <= i < bad@.len() ==> chunk.start() <= (#[trigger] bad@[i]).start() && bad@[i].end() <= chunk.end(),
                map.spec_geometry() == old(map).spec_geometry(),
                map.alias_seq() == old(map).alias_seq(),
                same_outside(*old(map), *map, chunk.start() as int, chunk.end() as int),
                only_condemned(*old(map), *map),
                j == 0 ==> *map == *old(map),
            decreases bad@.len() - j,
        {
            let r = bad[j];
            map.mark(r, SectorState::BadWrite);
            defects = defects.saturating_add(r.len());
            observer.on_defect(r, SectorState::BadWrite);
            j = j + 1;
        }
        defects
    }

    /// Writes the pattern walking the range back to front, so that aliasing
    /// surfaces at the nonexistent address rather than the valid one. Blocks
    /// that refuse the write are refined; three blocks in a row where not even
    /// a probe writes end the scan as a systemic failure.
    #[verifier::spinoff_prover]
    #[verifier::rlimit(100)]
    fn write_pass<D: BlockDevice, O: ScanObserver>(
        &self,
        device: &mut D,
        work: &LbaRange,
        buf: &mut Vec<u8>,
        ss: usize,
        map: &mut SectorMap,
        observer: &mut O,
    ) -> (r: Result<(), ScanError>)
        requires
            ss >= MIN_SECTOR_SIZE,
            max_u64(self.config.chunk_sectors, 1) * ss <= usize::MAX,
            work.end() <= old(map).total(),
        ensures
            final(device).reported() == old(device).reported(),
            final(map).spec_geometry() == old(map).spec_geometry(),
            final(map).alias_seq() == old(map).alias_seq(),
            same_outside(*old(map), *final(map), work.start() as int, work.end() as int),
            only_condemned(*old(map), *final(map)),
            work.is_empty() ==> r is Ok,
            r matches Err(e) ==> e is Cancelled || (e matches ScanError::SystemicWriteFailure { consecutive, .. }
                && consecutive == SYSTEMIC_FAILURE_THRESHOLD),
            write_pass_log(
                old(device).history(),
                final(device).history(),
                *work,
                self.config.chunk_sectors,
                self.pattern.spec_nonce(),
                self.pattern.spec_kind(),
                ss as int,
                *old(map),
                *final(map),
                r is Ok,
            ),
    {
        let ghost start_map = *map;
        let ghost h0 = device.history();
        let ghost nonce = self.pattern.spec_nonce();
        let ghost kind = self.pattern.spec_kind();
        let ghost mut marks: Seq<int> = seq![h0.len() as int];
        let chunks = work.chunks(self.config.chunk_sectors);
        let n = chunks.len();
        proof {
            reveal(blocks_of);
        }
        let mut done: u64 = 0;
        let mut defects: u64 = 0;
        let mut consecutive_dead_chunks: u32 = 0;
        let mut dead_sectors: u64 = 0;
        let mut k: usize = n;
        while k > 0
            invariant
                start_map == *old(map),
                ss >= MIN_SECTOR_SIZE,
                max_u64(self.config.chunk_sectors, 1) * ss <= usize::MAX,
                work.end() <= start_map.total(),
                n == chunks@.len(),
                k <= n,
                (n == 0) == work.is_empty(),
                tiling(chunks@, work.start(), work.end()),
                forall|i: int| 0 <= i < n ==> (#[trigger] chunks@[i]).len() <= max_u64(self.config.chunk_sectors, 1),
                done <= work.len(),
                k < n ==> done == work.end() - chunks@[k as int].start(),
                k == n ==> done == 0,
                consecutive_dead_chunks < SYSTEMIC_FAILURE_THRESHOLD,
                device.reported() == old(device).reported(),
                map.spec_geometry() == start_map.spec_geometry(),
                map.alias_seq() == start_map.alias_seq(),
                same_outside(start_map, *map, work.start() as int, work.end() as int),
                only_condemned(start_map, *map),
                h0 == old(device).history(),
                nonce == self.pattern.spec_nonce(),
                kind == self.pattern.spec_kind(),
                blocks_of(chunks@, *work, self.config.chunk_sectors),
                extends(device.history(), h0),
                marks.len() == n - k + 1,
                marks[0] == h0.len(),
                marks[marks.len() - 1] == device.history().len(),
                forall|i: int| 0 <= i < marks.len() - 1 ==> 0 <= #[trigger] marks[i] < device.history().len(),
                forall|i: int|
                    0 <= i < marks.len() - 1 ==> #[trigger] block_log(
                        device.history(),
                        marks[i],
                        marks[i + 1],
                        nonce,
                        kind,
                        chunks@[n - 1 - i],
                        ss as int,
                    ),
                forall|i: int, l: int|
                    #![trigger marks[i], map.state(l)]
                    0 <= i < marks.len() - 1 && device.history()[marks[i]].ok && chunks@[n - 1 - i].start() <= l
                        < chunks@[n - 1 - i].end() ==> map.state(l) == start_map.state(l),
                forall|l: int|
                    0 <= l < start_map.total() && l < (if k < n {
                        chunks@[k as int].start() as int
                    } else {
                        work.end() as int
                    }) ==> #[trigger] map.state(l) == start_map.state(l),
            decreases k,
        {
            let chunk = chunks[k - 1];
            proof {
                lemma_chunk_within(chunks@, work.start(), work.end(), k - 1);
                if k < n {
                    assert(chunks@[k - 1].end() == chunks@[k as int].start());
                }
            }
            match self.bail_if_cancelled() {
                Ok(()) => {},
                Err(e) => {
                    proof {
                        assert(pass_log(h0, device.history(), chunks@, marks, nonce, kind, ss as int, start_map, *map, false)) by {
                            reveal(pass_log);
                        }
                    }
                    return Err(e);
                },
            }
            let ghost iter_map = *map;
            let ghost hs = device.history();
            let ghost m = hs.len() as int;
            assert(chunk.len() * ss <= max_u64(self.config.chunk_sectors, 1) * ss) by (nonlinear_arith)
                requires
                    chunk.len() <= max_u64(self.config.chunk_sectors, 1),
                    ss >= 1,
            ;
            let written = self.write_block(device, &chunk, buf, ss, map, observer, PhaseProgress { done, total: work.len() });
            proof {
                lemma_extends_trans(h0, hs, device.history());
                lemma_close_block(hs, device.history(), marks, chunks@, n as int, nonce, kind, ss as int);
            }
            let ghost m2 = marks.push(device.history().len() as int);
            let bad = match written {
                Ok(Some(found)) => {
                    consecutive_dead_chunks = 0;
                    found
                },
                Ok(None) => {
                    consecutive_dead_chunks = consecutive_dead_chunks + 1;
                    dead_sectors = dead_sectors.saturating_add(chunk.len());
                    if consecutive_dead_chunks >= SYSTEMIC_FAILURE_THRESHOLD {
                        proof {
                            lemma_pass_stops(h0, hs, device.history(), marks, chunks@, n as int, *work, self.config.chunk_sectors, nonce, kind, ss as int, start_map, *map);
                        }
                        return Err(
                            ScanError::SystemicWriteFailure {
                                consecutive: consecutive_dead_chunks,
                                sectors: dead_sectors,
                            },
                        );
                    }
                    let mut whole: Vec<LbaRange> = Vec::new();
                    whole.push(chunk);
                    whole
                },
                Err(e) => {
                    proof {
                        lemma_pass_stops(h0, hs, device.history(), marks, chunks@, n as int, *work, self.config.chunk_sectors, nonce, kind, ss as int, start_map, *map);
                    }
                    return Err(e);
                },
            };
            defects = Self::condemn(map, observer, &bad, &chunk, defects);
            done = done + chunk.len();
            let progress = ScanProgress {
                phase: ScanPhase::Writing,
                sectors_done: done,
                sectors_total: work.len(),
                current_lba: chunk.start(),
                defects_found: defects,
            };
            observer.on_progress(&progress, map);
            proof {
                lemma_block_done(start_map, iter_map, *map, hs, device.history(), marks, chunks@, *work, k as int);
                marks = m2;
            }
            k = k - 1;
        }
        let ghost hf = device.history();
        let _ = device.flush();
        proof {
            lemma_extends_trans(h0, hf, device.history());
            assert forall|i: int| 0 <= i < marks.len() - 1 implies #[trigger] block_log(
                device.history(),
                marks[i],
                marks[i + 1],
                nonce,
                kind,
                chunks@[n - 1 - i],
                ss as int,
            ) by {
                lemma_block_log_extends(hf, device.history(), marks[i], marks[i + 1], nonce, kind, chunks@[n - 1 - i], ss as int);
            }
            assert(pass_log(h0, device.history(), chunks@, marks, nonce, kind, ss as int, start_map, *map, true)) by {
                reveal(pass_log);
                assert forall|i: int, l: int|
                    #![trigger marks[i], map.state(l)]
                    0 <= i < marks.len() - 1 && device.history()[marks[i]].ok && chunks@[n - 1 - i].start() <= l
                        < chunks@[n - 1 - i].end() implies map.state(l) == start_map.state(l) by {
                    assert(device.history()[marks[i]] == hf[marks[i]]);
                }
            }
        }
        Ok(())
    }
}

impl Scanner {
    /// Reads the range back front to back and classifies every sector; a
    /// block that fails to read is isolated by bisection.
    #[verifier::spinoff_prover]
    #[verifier::rlimit(100)]
    fn verify_pass<D: BlockDevice, O: ScanObserver>(
        &self,
        device: &mut D,
        work: &LbaRange,
        buf: &mut Vec<u8>,
        ss: usize,
        map: &mut SectorMap,
        observer: &mut O,
    ) -> (r: Result<(), ScanError>)
        requires
            ss >= MIN_SECTOR_SIZE,
            max_u64(self.config.chunk_sectors, 1) * ss <= usize::MAX,
            work.end() <= old(map).total(),
        ensures
            final(device).reported() == old(device).reported(),
            final(map).spec_geometry() == old(map).spec_geometry(),
            same_outside(*old(map), *final(map), work.start() as int, work.end() as int),
            r is Ok ==> inspected(*final(map), work.start() as int, work.end() as int),
            work.is_empty() ==> r is Ok,
            r is Err ==> r->Err_0 is Cancelled,
            extends(final(device).history(), old(device).history()),
            r is Ok ==> forall|l: int|
                work.start() <= l < work.end() ==> #[trigger] classified(
                    *final(map),
                    l,
                    final(device).history(),
                    old(device).history().len() as int,
                    final(device).history().len() as int,
                    self.pattern.spec_nonce(),
                    self.pattern.spec_kind(),
                    ss as int,
                ),
    {
        let ghost start_map = *map;
        let ghost h0 = device.history();
        let ghost nonce = self.pattern.spec_nonce();
        let ghost kind = self.pattern.spec_kind();
        let chunks = work.chunks(self.config.chunk_sectors);
        let n = chunks.len();
        let mut done: u64 = 0;
        let mut defects: u64 = 0;
        let mut k: usize = 0;
        while k < n
            invariant
                start_map == *old(map),
                ss >= MIN_SECTOR_SIZE,
                max_u64(self.config.chunk_sectors, 1) * ss <= usize::MAX,
                work.end() <= start_map.total(),
                n == chunks@.len(),
                k <= n,
                (n == 0) == work.is_empty(),
                tiling(chunks@, work.start(), work.end()),
                forall|i: int| 0 <= i < n ==> (#[trigger] chunks@[i]).len() <= max_u64(self.config.chunk_sectors, 1),
                k < n ==> done == chunks@[k as int].start() - work.start(),
                k == n ==> done == work.len(),
                k < n ==> inspected(*map, work.start() as int, chunks@[k as int].start() as int),
                k == n ==> inspected(*map, work.start() as int, work.end() as int),
                h0 == old(device).history(),
                nonce == self.pattern.spec_nonce(),
                kind == self.pattern.spec_kind(),
                extends(device.history(), h0),
                forall|l: int|
                    work.start() <= l < (if k < n {
                        chunks@[k as int].start() as int
                    } else {
                        work.end() as int
                    }) ==> #[trigger] classified(
                        *map,
                        l,
                        device.history(),
                        h0.len() as int,
                        device.history().len() as int,
                        nonce,
                        kind,
                        ss as int,
                    ),
                device.reported() == old(device).reported(),
                map.spec_geometry() == start_map.spec_geometry(),
                same_outside(start_map, *map, work.start() as int, work.end() as int),
            decreases n - k,
        {
            let chunk = chunks[k];
            proof {
                lemma_chunk_within(chunks@, work.start(), work.end(), k as int);
                if k + 1 < n {
                    assert(chunks@[k as int].end() == chunks@[k + 1].start());
                }
            }
            match self.bail_if_cancelled() {
                Ok(()) => {},
                Err(e) => return Err(e),
            }
            assert(chunk.len() * ss <= max_u64(self.config.chunk_sectors, 1) * ss && chunk.len() <= chunk.len() * ss)
                by (nonlinear_arith)
                requires
                    chunk.len() <= max_u64(self.config.chunk_sectors, 1),
                    ss >= 1,
            ;
            let bytes = (chunk.len() as usize) * ss;
            buf.resize(bytes, 0);
            let ghost before = *map;
            let ghost hb = device.history();
            match device.read_at(chunk.start(), buf.as_mut_slice()) {
                Ok(()) => {
                    let found = self.classify_chunk(&chunk, buf.as_slice(), ss, map, observer);
                    defects = defects.saturating_add(found);
                    proof {
                        let h = device.history();
                        assert(h[hb.len() as int] == read_op(chunk.start(), buf@, true));
                        assert forall|l: int| chunk.start() <= l < chunk.end() implies #[trigger] classified(
                            *map,
                            l,
                            h,
                            h0.len() as int,
                            h.len() as int,
                            nonce,
                            kind,
                            ss as int,
                        ) by {
                            assert(read_as(h[hb.len() as int], l, nonce, kind, ss as int, map.state(l)));
                            lemma_classified_by_read(*map, l, h, h0.len() as int, hb.len() as int, nonce, kind, ss as int, verdict_at(buf@, chunk.start() as int, l, nonce, kind, ss as int));
                        }
                    }
                },
                Err(_) => {
                    let ghost hr = device.history();
                    match self.refine_read(device, &chunk, buf, ss, map, observer) {
                        Ok(found) => {
                            defects = defects.saturating_add(found);
                            proof {
                                let h = device.history();
                                assert forall|l: int| chunk.start() <= l < chunk.end() implies #[trigger] classified(
                                    *map,
                                    l,
                                    h,
                                    h0.len() as int,
                                    h.len() as int,
                                    nonce,
                                    kind,
                                    ss as int,
                                ) by {
                                    lemma_classified_from(*map, l, h, h0.len() as int, hr.len() as int, nonce, kind, ss as int);
                                }
                            }
                        },
                        Err(e) => return Err(e),
                    }
                },
            }
            proof {
                let h = device.history();
                assert(extends(h, hb));
                lemma_extends_trans(h0, hb, h);
                lemma_verify_step(before, *map, hb, h, h0.len() as int, work.start() as int, chunk, nonce, kind, ss as int);
                assert forall|l: int| work.start() <= l < chunk.end() implies #[trigger] map.state(l)
                    != SectorState::Untested by {
                    if l < chunk.start() {
                        assert(before.state(l) != SectorState::Untested);
                        assert(map.state(l) == before.state(l));
                    }
                }
            }
            done = done + chunk.len();
            let progress = ScanProgress {
                phase: ScanPhase::Verifying,
                sectors_done: done,
                sectors_total: work.len(),
                current_lba: chunk.start(),
                defects_found: defects,
            };
            observer.on_progress(&progress, map);
            k = k + 1;
        }
        Ok(())
    }

    /// The first half of a scan: refuses a read-only device before anything
    /// is written, then runs the write pass over the part of the range that
    /// lies on the device.
    pub fn write_phase<D: BlockDevice, O: ScanObserver>(&self, device: &mut D, observer: &mut O) -> (r: Result<
        PendingScan,
        ScanError,
    >)
        requires
            blocks_fit(self.spec_config(), old(device).reported()),
        ensures
            final(device).reported() == old(device).reported(),
            r is Ok ==> r->Ok_0.started_with(self.spec_config(), old(device).reported()),
            r matches Err(e) ==> write_phase_error(e),
            !old(device).accepts_writes() <==> r matches Err(ScanError::NotWritable),
            old(device).accepts_writes() && on_device(
                scan_span(self.spec_config(), old(device).reported()),
                old(device).reported(),
            ).is_empty() ==> r is Ok,
            r matches Err(ScanError::NotWritable) ==> final(device).history() == old(device).history(),
            r is Ok ==> write_phase_log(
                old(device).history(),
                final(device).history(),
                self.spec_config(),
                old(device).reported(),
                r->Ok_0.spec_map(),
                true,
            ),
            (r matches Err(e) && !(e is NotWritable)) ==> exists|m: SectorMap|
                #[trigger] write_phase_log(
                    old(device).history(),
                    final(device).history(),
                    self.spec_config(),
                    old(device).reported(),
                    m,
                    false,
                ),
    {
        proof {
            use_type_invariant(self);
        }
        let geometry = device.geometry();
        proof {
            use_type_invariant(&geometry);
            geometry.lemma_valid();
        }
        let total = geometry.total_sectors();
        let full = geometry.full_range();
        let span = match self.config.range {
            Some(r) => r,
            None => full,
        };
        proof {
            LbaRange::lemma_spec_bounds(0, total);
            assert(span == scan_span(self.config, geometry));
        }
        let lo = if span.start() < total {
            span.start()
        } else {
            total
        };
        let hi = if span.end() < total {
            span.end()
        } else {
            total
        };
        let work = LbaRange::from_bounds(lo, hi);
        proof {
            LbaRange::lemma_spec_bounds(lo, hi);
        }
        let mut map = SectorMap::new(geometry);
        if !device.is_writable() {
            return Err(ScanError::NotWritable);
        }
        let ss = geometry.sector_size() as usize;
        let mut buf: Vec<u8> = Vec::new();
        let ghost blank = map;
        let passed = self.write_pass(device, &work, &mut buf, ss, &mut map, observer);
        proof {
            assert(work == on_device(scan_span(self.config, geometry), geometry));
            assert(untouched(blank));
            assert(write_phase_log(old(device).history(), device.history(), self.config, geometry, map, passed is Ok));
        }
        match passed {
            Ok(()) => {},
            Err(e) => return Err(e),
        }
        let pending = PendingScan { map, span, work, buf, ss };
        proof {
            assert forall|l: int| 0 <= l < pending.map.total() && !(span.start() <= l < span.end()) implies #[trigger] pending.map.state(
                l,
            ) == SectorState::Untested by {
                assert(!(work.start() <= l < work.end()));
            }
        }
        Ok(pending)
    }

    /// The second half of a scan: reads the range back and classifies every
    /// sector of it.
    pub fn verify_phase<D: BlockDevice, O: ScanObserver>(
        &self,
        pending: PendingScan,
        device: &mut D,
        observer: &mut O,
    ) -> (r: Result<ScanOutcome, ScanError>)
        requires
            pending.started_with(self.spec_config(), old(device).reported()),
        ensures
            final(device).reported() == old(device).reported(),
            r is Ok ==> scan_complete(self.spec_config(), old(device).reported(), r->Ok_0),
            on_device(scan_span(self.spec_config(), old(device).reported()), old(device).reported()).is_empty()
                ==> r is Ok,
            r is Err ==> r->Err_0 is Cancelled,
            extends(final(device).history(), old(device).history()),
            r is Ok ==> read_back_classified(
                old(device).history(),
                final(device).history(),
                self.spec_config(),
                old(device).reported(),
                r->Ok_0.map,
            ),
    {
        proof {
            use_type_invariant(self);
        }
        let ghost g = device.reported();
        let PendingScan { mut map, span, work, mut buf, ss } = pending;
        proof {
            LbaRange::lemma_spec_bounds(min_u64(span.start(), g.total_sectors()), min_u64(span.end(), g.total_sectors()));
        }
        match self.verify_pass(device, &work, &mut buf, ss, &mut map, observer) {
            Ok(()) => {},
            Err(e) => return Err(e),
        }
        let out = ScanOutcome { map, sectors_scanned: span.len() };
        proof {
            assert forall|l: int| 0 <= l < out.map.total() && !(span.start() <= l < span.end()) implies #[trigger] out.map.state(
                l,
            ) == SectorState::Untested by {
                assert(!(work.start() <= l < work.end()));
            }
        }
        Ok(out)
    }

    /// Walks the device and returns the state map: writes the whole range,
    /// then reads it back. A scan with a retention delay is run in its two
    /// phases, with the wait between them.
    pub fn run<D: BlockDevice, O: ScanObserver>(&self, device: &mut D, observer: &mut O) -> (r: Result<
        ScanOutcome,
        ScanError,
    >)
        requires
            self.spec_config().retention_delay_secs == 0,
            blocks_fit(self.spec_config(), old(device).reported()),
        ensures
            final(device).reported() == old(device).reported(),
            r is Ok ==> scan_complete(self.spec_config(), old(device).reported(), r->Ok_0),
            r matches Err(e) ==> write_phase_error(e),
            !old(device).accepts_writes() <==> r matches Err(ScanError::NotWritable),
            old(device).accepts_writes() && on_device(
                scan_span(self.spec_config(), old(device).reported()),
                old(device).reported(),
            ).is_empty() ==> r is Ok,
            r matches Err(ScanError::NotWritable) ==> final(device).history() == old(device).history(),
            r is Ok ==> scan_log(
                old(device).history(),
                final(device).history(),
                self.spec_config(),
                old(device).reported(),
                r->Ok_0.map,
            ),
    {
        let pending = match self.write_phase(device, observer) {
            Ok(p) => p,
            Err(e) => return Err(e),
        };
        let ghost hw = device.history();
        let ghost mw = pending.spec_map();
        let out = self.verify_phase(pending, device, observer);
        proof {
            if out is Ok {
                assert(write_phase_log(old(device).history(), hw, self.spec_config(), old(device).reported(), mw, true));
            }
        }
        out
    }
}

} // verus!
