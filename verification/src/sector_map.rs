//! Per-sector state map for a device.
//!
//! A 128 GB card holds 268 million sectors. Storing one byte per sector would
//! cost 268 MB of RAM to describe, almost always, "everything is fine". The map
//! is therefore run-length encoded: an ordered list of contiguous, disjoint
//! intervals covering exactly `[0, total_sectors)`. A healthy card fits in a
//! single entry; a worn one, in a few dozen.
//!
//! Three invariants are maintained, as the type's invariant, and every
//! operation is proved to keep them: total coverage with no gaps, no overlap,
//! and no two adjacent runs sharing a state (full coalescing).
use vstd::prelude::*;

use crate::geometry::{max_u64, min_u64, sat_add, DeviceGeometry, LbaRange};

verus! {

broadcast use LbaRange::lemma_ext;

/// Verification state of a sector.
#[derive(Debug, Clone, Copy, PartialEq, Eq, Hash, Structural)]
pub enum SectorState {
    /// Not inspected yet.
    Untested,
    /// Written and read back exactly.
    Good,
    /// A read failed with an I/O error.
    BadRead,
    /// A write failed with an I/O error.
    BadWrite,
    /// Read without error, but returned content differing from what was written.
    Corrupt,
    /// Returned another LBA's intact content: the address does not exist.
    Aliased,
    /// Withheld from data without being a proven defect: a healthy sector
    /// condemned for sitting too close to a defect, or one an earlier layout
    /// already fenced off. It is never proof of health.
    Fenced,
}

impl SectorState {
    /// Every state, in increasing order of severity.
    pub const ALL: [SectorState; 7] = [
        SectorState::Good,
        SectorState::Untested,
        SectorState::Fenced,
        SectorState::BadRead,
        SectorState::BadWrite,
        SectorState::Corrupt,
        SectorState::Aliased,
    ];

    pub open spec fn spec_is_usable(&self) -> bool {
        *self is Good
    }

    pub open spec fn spec_is_defective(&self) -> bool {
        *self is BadRead || *self is BadWrite || *self is Corrupt || *self is Aliased
    }

    pub open spec fn spec_severity(&self) -> u8 {
        match *self {
            SectorState::Good => 0,
            SectorState::Untested => 1,
            SectorState::Fenced => 2,
            SectorState::BadRead => 3,
            SectorState::BadWrite => 4,
            SectorState::Corrupt => 5,
            SectorState::Aliased => 6,
        }
    }

    /// Sectors that may safely hold user data: only a sector whose content was
    /// written and read back intact. Absence of proof is not proof of absence.
    #[verifier::when_used_as_spec(spec_is_usable)]
    pub fn is_usable(&self) -> (r: bool)
        ensures
            r == self.spec_is_usable(),
    {
        matches!(self, Self::Good)
    }

    /// Sectors with a proven defect.
    #[verifier::when_used_as_spec(spec_is_defective)]
    pub fn is_defective(&self) -> (r: bool)
        ensures
            r == self.spec_is_defective(),
    {
        matches!(self, Self::BadRead | Self::BadWrite | Self::Corrupt | Self::Aliased)
    }

    /// Whether this state represents an actually conclusive verification.
    pub fn is_conclusive(&self) -> (r: bool)
        ensures
            r == !(*self is Untested),
    {
        !matches!(self, Self::Untested)
    }

    /// Severity ordering, used to pick a block's dominant colour when the map
    /// is downsampled for display. The worst state present always wins.
    #[verifier::when_used_as_spec(spec_severity)]
    pub fn severity(&self) -> (r: u8)
        ensures
            r == self.spec_severity(),
    {
        match self {
            Self::Good => 0,
            Self::Untested => 1,
            Self::Fenced => 2,
            Self::BadRead => 3,
            Self::BadWrite => 4,
            Self::Corrupt => 5,
            Self::Aliased => 6,
        }
    }

    /// Stable identifier for serialization and for the presentation layer.
    pub fn as_str(&self) -> (r: &'static str)
        ensures
            r@ == state_name(*self)@,
    {
        match self {
            Self::Untested => "untested",
            Self::Good => "good",
            Self::BadRead => "bad_read",
            Self::BadWrite => "bad_write",
            Self::Corrupt => "corrupt",
            Self::Aliased => "aliased",
            Self::Fenced => "fenced",
        }
    }
}

/// Numeric code of each state, used in the visualization's compact vector.
pub open spec fn spec_state_code(s: SectorState) -> u8 {
    match s {
        SectorState::Untested => 0,
        SectorState::Good => 1,
        SectorState::BadRead => 2,
        SectorState::BadWrite => 3,
        SectorState::Corrupt => 4,
        SectorState::Aliased => 5,
        SectorState::Fenced => 6,
    }
}

/// Numeric code for a state, used in the visualization's compact vector.
/// Distinct states get distinct codes.
pub fn state_code(state: SectorState) -> (r: u8)
    ensures
        r == spec_state_code(state),
{
    match state {
        SectorState::Untested => 0,
        SectorState::Good => 1,
        SectorState::BadRead => 2,
        SectorState::BadWrite => 3,
        SectorState::Corrupt => 4,
        SectorState::Aliased => 5,
        SectorState::Fenced => 6,
    }
}

/// Distinct states never share a code.
pub proof fn lemma_state_codes_distinct(a: SectorState, b: SectorState)
    requires
        a != b,
    ensures
        spec_state_code(a) != spec_state_code(b),
{
}

/// Stable identifier of each state.
pub open spec fn state_name(s: SectorState) -> &'static str {
    match s {
        SectorState::Untested => "untested",
        SectorState::Good => "good",
        SectorState::BadRead => "bad_read",
        SectorState::BadWrite => "bad_write",
        SectorState::Corrupt => "corrupt",
        SectorState::Aliased => "aliased",
        SectorState::Fenced => "fenced",
    }
}

/// A contiguous run of sectors sharing one state.
#[derive(Debug, Clone, Copy, PartialEq, Eq, Structural)]
pub struct Run {
    /// Interval covered.
    pub range: LbaRange,
    /// State common to every sector in the interval.
    pub state: SectorState,
}

/// Record of a sector that returned another address's content.
#[derive(Debug, Clone, Copy, PartialEq, Eq, Structural)]
pub struct AliasObservation {
    /// The LBA that was requested from the device.
    pub requested_lba: u64,
    /// The LBA whose content the device actually returned.
    pub actual_lba: u64,
}

impl AliasObservation {
    pub open spec fn spec_stride(&self) -> u64 {
        if self.requested_lba >= self.actual_lba {
            (self.requested_lba - self.actual_lba) as u64
        } else {
            (self.actual_lba - self.requested_lba) as u64
        }
    }

    /// Distance between the requested and the returned address. Under modular
    /// wrap-around the real capacity divides this difference.
    #[verifier::when_used_as_spec(spec_stride)]
    pub fn stride(&self) -> (r: u64)
        ensures
            r == self.spec_stride(),
    {
        if self.requested_lba >= self.actual_lba {
            self.requested_lba - self.actual_lba
        } else {
            self.actual_lba - self.requested_lba
        }
    }
}

/// Sector counts per state.
#[derive(Debug, Clone, Copy, Default, PartialEq, Eq, Structural)]
pub struct SectorCounts {
    /// Sectors never inspected.
    pub untested: u64,
    /// Sectors verified good.
    pub good: u64,
    /// Sectors that failed to read.
    pub bad_read: u64,
    /// Sectors that failed to write.
    pub bad_write: u64,
    /// Sectors that returned corrupted content.
    pub corrupt: u64,
    /// Sectors that do not exist and were served by aliasing.
    pub aliased: u64,
    /// Sectors withheld from data without being defective.
    pub fenced: u64,
}

impl SectorCounts {
    /// The tally for one state.
    pub open spec fn of(self, s: SectorState) -> u64 {
        match s {
            SectorState::Untested => self.untested,
            SectorState::Good => self.good,
            SectorState::BadRead => self.bad_read,
            SectorState::BadWrite => self.bad_write,
            SectorState::Corrupt => self.corrupt,
            SectorState::Aliased => self.aliased,
            SectorState::Fenced => self.fenced,
        }
    }

    pub open spec fn spec_defective(&self) -> int {
        self.bad_read + self.bad_write + self.corrupt + self.aliased
    }

    pub open spec fn spec_total(&self) -> int {
        self.untested + self.good + self.fenced + self.spec_defective()
    }

    /// An all-zero tally.
    pub fn zero() -> (r: Self)
        ensures
            forall|s: SectorState| r.of(s) == 0,
    {
        SectorCounts {
            untested: 0,
            good: 0,
            bad_read: 0,
            bad_write: 0,
            corrupt: 0,
            aliased: 0,
            fenced: 0,
        }
    }

    /// Sum of every defective state.
    pub fn defective(&self) -> (r: u64)
        requires
            self.spec_defective() <= u64::MAX,
        ensures
            r == self.spec_defective(),
    {
        self.bad_read + self.bad_write + self.corrupt + self.aliased
    }

    /// Total sectors accounted for.
    pub fn total(&self) -> (r: u64)
        requires
            self.spec_total() <= u64::MAX,
        ensures
            r == self.spec_total(),
    {
        self.untested + self.good + self.fenced + self.defective()
    }

    /// Sectors already inspected.
    pub fn tested(&self) -> (r: u64)
        requires
            self.spec_total() <= u64::MAX,
        ensures
            r == self.spec_total() - self.untested,
    {
        self.total() - self.untested
    }

    /// Adds `sectors` to the tally for the given state, saturating.
    pub fn add(&mut self, state: SectorState, sectors: u64)
        ensures
            forall|s: SectorState|
                #[trigger] final(self).of(s) == if s == state {
                    crate::geometry::sat_add(old(self).of(s), sectors)
                } else {
                    old(self).of(s)
                },
    {
        match state {
            SectorState::Untested => self.untested = self.untested.saturating_add(sectors),
            SectorState::Good => self.good = self.good.saturating_add(sectors),
            SectorState::BadRead => self.bad_read = self.bad_read.saturating_add(sectors),
            SectorState::BadWrite => self.bad_write = self.bad_write.saturating_add(sectors),
            SectorState::Corrupt => self.corrupt = self.corrupt.saturating_add(sectors),
            SectorState::Aliased => self.aliased = self.aliased.saturating_add(sectors),
            SectorState::Fenced => self.fenced = self.fenced.saturating_add(sectors),
        }
    }
}

/// Summary of one display block after downsampling.
#[derive(Debug, Clone, Copy, PartialEq, Eq, Structural)]
pub struct MapBucket {
    /// LBA interval this block represents.
    pub range: LbaRange,
    /// Worst state present in the interval; determines the block's colour.
    pub dominant: SectorState,
    /// Detailed tally.
    pub counts: SectorCounts,
}

/// Structural invariant violations.
#[derive(Debug, PartialEq, Eq)]
pub enum MapInvariantError {
    /// The map holds no runs at all.
    Empty,
    /// The first run does not begin at LBA 0.
    DoesNotStartAtZero(u64),
    /// A gap or overlap exists between consecutive runs.
    Discontinuity {
        /// End of the preceding run.
        prev_end: u64,
        /// Start of the following run.
        next_start: u64,
    },
    /// Coverage does not reach the end of the device.
    DoesNotCoverDevice {
        /// Where coverage actually stops.
        actual: u64,
        /// Where it should stop.
        expected: u64,
    },
    /// Two neighbouring runs share a state and were not coalesced.
    NotCoalesced {
        /// Boundary where it occurs.
        at: u64,
        /// The repeated state.
        state: SectorState,
    },
    /// An empty run survived an operation.
    EmptyRun(u64),
}

// ---------------------------------------------------------------------------
// The model: a sequence of runs, read as a function from LBA to state.
// ---------------------------------------------------------------------------

/// Every run is non-empty and each one ends where the next begins.
#[verifier::opaque]
pub open spec fn contiguous(runs: Seq<Run>) -> bool {
    &&& forall|i: int|
        0 <= i < runs.len() ==> (#[trigger] runs[i]).range.start() < runs[i].range.end()
    &&& forall|i: int|
        0 <= i < runs.len() - 1 ==> #[trigger] runs[i].range.end() == runs[i + 1].range.start()
}

/// The runs cover exactly `[0, total)`.
pub open spec fn tiles(runs: Seq<Run>, total: u64) -> bool {
    &&& runs.len() > 0
    &&& contiguous(runs)
    &&& runs[0].range.start() == 0
    &&& runs.last().range.end() == total
}

/// No two neighbouring runs share a state.
#[verifier::opaque]
pub open spec fn coalesced(runs: Seq<Run>) -> bool {
    forall|i: int| 0 <= i < runs.len() - 1 ==> #[trigger] runs[i].state != runs[i + 1].state
}

/// State of `lba` according to a list of runs: that of the last run starting
/// at or before it.
pub open spec fn state_in(runs: Seq<Run>, lba: int) -> SectorState
    decreases runs.len(),
{
    if runs.len() == 0 {
        SectorState::Untested
    } else if runs.last().range.start() <= lba {
        runs.last().state
    } else {
        state_in(runs.drop_last(), lba)
    }
}

/// Length of `[a, b)` inside `[lo, hi)`.
pub open spec fn ov(a: int, b: int, lo: int, hi: int) -> int {
    let x = if a >= lo {
        a
    } else {
        lo
    };
    let y = if b <= hi {
        b
    } else {
        hi
    };
    if x < y {
        y - x
    } else {
        0
    }
}

/// Sectors of `r` inside `[lo, hi)`.
pub open spec fn overlap(r: LbaRange, lo: int, hi: int) -> int {
    ov(r.start() as int, r.end() as int, lo, hi)
}

/// Sectors in state `s` inside `[lo, hi)`, over a list of runs.
pub open spec fn state_total(runs: Seq<Run>, s: SectorState, lo: int, hi: int) -> int
    decreases runs.len(),
{
    if runs.len() == 0 {
        0
    } else {
        state_total(runs.drop_last(), s, lo, hi) + if runs.last().state == s {
            overlap(runs.last().range, lo, hi)
        } else {
            0
        }
    }
}

/// Sectors of any state inside `[lo, hi)`, over a list of runs.
pub open spec fn all_total(runs: Seq<Run>, lo: int, hi: int) -> int
    decreases runs.len(),
{
    if runs.len() == 0 {
        0
    } else {
        all_total(runs.drop_last(), lo, hi) + overlap(runs.last().range, lo, hi)
    }
}

/// The per-state tally of `[lo, hi)`.
pub open spec fn counts_of(runs: Seq<Run>, lo: int, hi: int) -> SectorCounts {
    SectorCounts {
        untested: state_total(runs, SectorState::Untested, lo, hi) as u64,
        good: state_total(runs, SectorState::Good, lo, hi) as u64,
        bad_read: state_total(runs, SectorState::BadRead, lo, hi) as u64,
        bad_write: state_total(runs, SectorState::BadWrite, lo, hi) as u64,
        corrupt: state_total(runs, SectorState::Corrupt, lo, hi) as u64,
        aliased: state_total(runs, SectorState::Aliased, lo, hi) as u64,
        fenced: state_total(runs, SectorState::Fenced, lo, hi) as u64,
    }
}


/// A per-state tally never exceeds the tally of every state.
pub proof fn lemma_state_total_bounds(s: Seq<Run>, st: SectorState, lo: int, hi: int)
    ensures
        0 <= state_total(s, st, lo, hi) <= all_total(s, lo, hi),
    decreases s.len(),
{
    if s.len() > 0 {
        lemma_state_total_bounds(s.drop_last(), st, lo, hi);
    }
}

/// Splitting `[a, c)` at `b` splits its overlap with `[lo, hi)`.
pub proof fn lemma_ov_split(a: int, b: int, c: int, lo: int, hi: int)
    requires
        a <= b <= c,
    ensures
        ov(a, b, lo, hi) + ov(b, c, lo, hi) == ov(a, c, lo, hi),
{
}

/// Nothing overlaps an empty interval.
pub proof fn lemma_state_total_empty(s: Seq<Run>, st: SectorState, lo: int, hi: int)
    requires
        hi <= lo,
    ensures
        state_total(s, st, lo, hi) == 0,
        all_total(s, lo, hi) == 0,
    decreases s.len(),
{
    if s.len() > 0 {
        lemma_state_total_empty(s.drop_last(), st, lo, hi);
    }
}

/// Over contiguous runs, the tally of every state is the overlap of the span
/// they cover.
pub proof fn lemma_all_total_span(s: Seq<Run>, lo: int, hi: int)
    requires
        contiguous(s),
        s.len() > 0,
    ensures
        all_total(s, lo, hi) == ov(s[0].range.start() as int, s.last().range.end() as int, lo, hi),
    decreases s.len(),
{
    if s.len() == 1 {
        let t = s.drop_last();
        assert(t.len() == 0);
        assert(all_total(t, lo, hi) == 0);
        assert(s.last() == s[0]);
        assert(all_total(s, lo, hi) == all_total(t, lo, hi) + overlap(s.last().range, lo, hi));
    } else {
        let t = s.drop_last();
        lemma_contiguous_prefix(s, s.len() - 1);
        assert(t == s.take(s.len() - 1));
        lemma_all_total_span(t, lo, hi);
        assert(t[0] == s[0]);
        assert(t.last() == s[s.len() - 2]);
        lemma_contiguous_at(s, s.len() - 2);
        lemma_contiguous_at(s, s.len() - 1);
        lemma_contiguous_at(s, 0);
        if s.len() > 2 {
            lemma_runs_ordered(s, 0, s.len() - 2);
        }
        assert(s[0].range.start() <= s.last().range.start());
        lemma_ov_split(
            s[0].range.start() as int,
            s.last().range.start() as int,
            s.last().range.end() as int,
            lo,
            hi,
        );
        assert(all_total(t, lo, hi) == ov(s[0].range.start() as int, s.last().range.start() as int, lo, hi));
        assert(all_total(s, lo, hi) == all_total(t, lo, hi) + overlap(s.last().range, lo, hi));
    }
}

/// The seven per-state tallies add up to the tally of every state.
pub proof fn lemma_states_sum(s: Seq<Run>, lo: int, hi: int)
    ensures
        state_total(s, SectorState::Untested, lo, hi) + state_total(s, SectorState::Good, lo, hi)
            + state_total(s, SectorState::BadRead, lo, hi) + state_total(s, SectorState::BadWrite, lo, hi)
            + state_total(s, SectorState::Corrupt, lo, hi) + state_total(s, SectorState::Aliased, lo, hi)
            + state_total(s, SectorState::Fenced, lo, hi) == all_total(s, lo, hi),
    decreases s.len(),
{
    if s.len() > 0 {
        lemma_states_sum(s.drop_last(), lo, hi);
    }
}

/// Runs contributing nothing to a tally can be dropped from its end.
pub proof fn lemma_state_total_take(s: Seq<Run>, i: int, st: SectorState, lo: int, hi: int)
    requires
        0 <= i <= s.len(),
        forall|j: int| i <= j < s.len() ==> overlap(#[trigger] s[j].range, lo, hi) == 0,
    ensures
        state_total(s, st, lo, hi) == state_total(s.take(i), st, lo, hi),
    decreases s.len(),
{
    if i == s.len() {
        assert(s.take(i) == s);
    } else {
        let t = s.drop_last();
        assert(forall|j: int| i <= j < t.len() ==> t[j] == s[j]);
        lemma_state_total_take(t, i, st, lo, hi);
        assert(t.take(i) == s.take(i));
    }
}

/// A prefix's tally never exceeds the whole list's.
pub proof fn lemma_all_total_prefix_le(s: Seq<Run>, i: int, lo: int, hi: int)
    requires
        0 <= i <= s.len(),
    ensures
        all_total(s.take(i), lo, hi) <= all_total(s, lo, hi),
    decreases s.len() - i,
{
    if i < s.len() {
        lemma_all_total_prefix_le(s, i + 1, lo, hi);
        assert(s.take(i + 1).drop_last() == s.take(i));
    } else {
        assert(s.take(i) == s);
    }
}

/// The tally of the first `i + 1` runs extends that of the first `i`.
pub proof fn lemma_state_total_step(s: Seq<Run>, i: int, st: SectorState, lo: int, hi: int)
    requires
        0 <= i < s.len(),
    ensures
        state_total(s.take(i + 1), st, lo, hi) == state_total(s.take(i), st, lo, hi) + if s[i].state
            == st {
            overlap(s[i].range, lo, hi)
        } else {
            0
        },
        all_total(s.take(i + 1), lo, hi) == all_total(s.take(i), lo, hi) + overlap(s[i].range, lo, hi),
{
    assert(s.take(i + 1).drop_last() == s.take(i));
}

pub proof fn lemma_push_drop_last<A>(s: Seq<A>, a: A)
    ensures
        s.push(a).drop_last() == s,
        s.push(a).last() == a,
        s.push(a).len() == s.len() + 1,
{
    assert(s.push(a).drop_last() =~= s);
}

/// The two facts `contiguous` states about one run.
pub proof fn lemma_contiguous_at(s: Seq<Run>, i: int)
    requires
        contiguous(s),
        0 <= i < s.len(),
    ensures
        s[i].range.start() < s[i].range.end(),
        i + 1 < s.len() ==> s[i].range.end() == s[i + 1].range.start(),
{
    reveal(contiguous);
}

/// The fact `coalesced` states about one pair of neighbours.
pub proof fn lemma_coalesced_at(s: Seq<Run>, i: int)
    requires
        coalesced(s),
        0 <= i < s.len() - 1,
    ensures
        s[i].state != s[i + 1].state,
{
    reveal(coalesced);
}

/// Dropping the last of coalesced runs leaves them coalesced.
proof fn lemma_coalesced_drop_last(s: Seq<Run>)
    requires
        coalesced(s),
        s.len() > 0,
    ensures
        coalesced(s.drop_last()),
{
    reveal(coalesced);
    let t = s.drop_last();
    assert forall|j: int| 0 <= j < t.len() - 1 implies #[trigger] t[j].state != t[j + 1].state by {
        assert(t[j] == s[j]);
        assert(t[j + 1] == s[j + 1]);
    }
}

/// Two coalesced tilings of `[0, total)` that give every address the same
/// state are the same runs.
proof fn lemma_runs_determined(a: Seq<Run>, b: Seq<Run>, total: u64)
    requires
        tiles(a, total),
        tiles(b, total),
        coalesced(a),
        coalesced(b),
        forall|l: int| 0 <= l < total ==> #[trigger] state_in(a, l) == state_in(b, l),
    ensures
        a == b,
    decreases a.len(),
{
    let la = a.last();
    let lb = b.last();
    lemma_contiguous_at(a, a.len() - 1);
    lemma_contiguous_at(b, b.len() - 1);
    lemma_state_in_run(a, a.len() - 1, total - 1);
    lemma_state_in_run(b, b.len() - 1, total - 1);
    assert(state_in(a, total - 1) == state_in(b, total - 1));
    assert(la.state == lb.state);
    if la.range.start() < lb.range.start() {
        let l = lb.range.start() - 1;
        assert(b.len() > 1);
        lemma_contiguous_at(b, b.len() - 2);
        lemma_coalesced_at(b, b.len() - 2);
        lemma_state_in_run(a, a.len() - 1, l);
        lemma_state_in_run(b, b.len() - 2, l);
        assert(false);
    }
    if lb.range.start() < la.range.start() {
        let l = la.range.start() - 1;
        assert(a.len() > 1);
        lemma_contiguous_at(a, a.len() - 2);
        lemma_coalesced_at(a, a.len() - 2);
        lemma_state_in_run(b, b.len() - 1, l);
        lemma_state_in_run(a, a.len() - 2, l);
        assert(false);
    }
    assert(la.range.start() == lb.range.start());
    LbaRange::lemma_ext(la.range, lb.range);
    assert(la == lb);
    let s0 = la.range.start();
    if a.len() == 1 || b.len() == 1 {
        if a.len() > 1 {
            lemma_runs_ordered(a, 0, a.len() - 1);
            lemma_contiguous_at(a, 0);
        }
        if b.len() > 1 {
            lemma_runs_ordered(b, 0, b.len() - 1);
            lemma_contiguous_at(b, 0);
        }
        assert(a.len() == 1 && b.len() == 1);
        assert(a =~= seq![la]);
        assert(b =~= seq![lb]);
    } else {
        let pa = a.drop_last();
        let pb = b.drop_last();
        lemma_contiguous_prefix(a, a.len() - 1);
        lemma_contiguous_prefix(b, b.len() - 1);
        assert(pa == a.take(a.len() - 1));
        assert(pb == b.take(b.len() - 1));
        lemma_coalesced_drop_last(a);
        lemma_coalesced_drop_last(b);
        lemma_contiguous_at(a, a.len() - 2);
        lemma_contiguous_at(b, b.len() - 2);
        assert(pa[0] == a[0] && pb[0] == b[0]);
        assert(pa.last() == a[a.len() - 2] && pb.last() == b[b.len() - 2]);
        assert forall|l: int| 0 <= l < s0 implies #[trigger] state_in(pa, l) == state_in(pb, l) by {
            assert(state_in(a, l) == state_in(pa, l));
            assert(state_in(b, l) == state_in(pb, l));
            assert(state_in(a, l) == state_in(b, l));
        }
        lemma_runs_determined(pa, pb, s0);
        assert(a =~= pa.push(la));
        assert(b =~= pb.push(lb));
    }
}

/// No runs at all are trivially contiguous and coalesced.
pub proof fn lemma_empty_runs()
    ensures
        contiguous(Seq::<Run>::empty()),
        coalesced(Seq::<Run>::empty()),
{
    reveal(contiguous);
    reveal(coalesced);
}

/// A single non-empty run is contiguous and coalesced.
pub proof fn lemma_single_run(r: Run)
    requires
        r.range.start() < r.range.end(),
    ensures
        contiguous(seq![r]),
        coalesced(seq![r]),
{
    reveal(contiguous);
    reveal(coalesced);
}

/// Appending a non-empty run where the last one ends keeps runs contiguous.
pub proof fn lemma_contiguous_push(s: Seq<Run>, r: Run)
    requires
        contiguous(s),
        r.range.start() < r.range.end(),
        s.len() > 0 ==> s.last().range.end() == r.range.start(),
    ensures
        contiguous(s.push(r)),
{
    reveal(contiguous);
    let t = s.push(r);
    assert forall|j: int| 0 <= j < t.len() - 1 implies #[trigger] t[j].range.end() == t[j
        + 1].range.start() by {
        assert(t[j] == s[j]);
        if j + 1 < s.len() {
            assert(t[j + 1] == s[j + 1]);
        }
    }
    assert forall|j: int| 0 <= j < t.len() implies (#[trigger] t[j]).range.start()
        < t[j].range.end() by {
        if j < s.len() {
            assert(t[j] == s[j]);
        }
    }
}

/// Appending a run whose state differs from the last keeps runs coalesced.
#[verifier::rlimit(40)]
pub proof fn lemma_coalesced_push(s: Seq<Run>, r: Run)
    requires
        coalesced(s),
        s.len() > 0 ==> s.last().state != r.state,
    ensures
        coalesced(s.push(r)),
{
    reveal(coalesced);
    let t = s.push(r);
    assert forall|j: int| 0 <= j < t.len() - 1 implies #[trigger] t[j].state != t[j + 1].state by {
        assert(t[j] == s[j]);
        if j + 1 < s.len() {
            assert(t[j + 1] == s[j + 1]);
        }
    }
}

/// Stretching the last run to the right keeps runs contiguous and coalesced.
pub proof fn lemma_extend_last(s: Seq<Run>, ext: Run)
    requires
        contiguous(s),
        coalesced(s),
        s.len() > 0,
        ext.range.start() == s.last().range.start(),
        ext.range.start() < ext.range.end(),
        ext.state == s.last().state,
    ensures
        contiguous(s.drop_last().push(ext)),
        coalesced(s.drop_last().push(ext)),
{
    let t = s.drop_last();
    lemma_contiguous_prefix(s, s.len() - 1);
    assert(t == s.take(s.len() - 1));
    if t.len() > 0 {
        lemma_contiguous_at(s, t.len() - 1);
        assert(t.last() == s[t.len() - 1]);
    }
    lemma_contiguous_push(t, ext);
    assert(coalesced(t)) by {
        reveal(coalesced);
        assert forall|j: int| 0 <= j < t.len() - 1 implies #[trigger] t[j].state != t[j + 1].state by {
            assert(t[j] == s[j] && t[j + 1] == s[j + 1]);
        }
    }
    if t.len() > 0 {
        assert(t.last().state != ext.state) by {
            reveal(coalesced);
            assert(s[t.len() - 1].state != s[t.len() as int].state);
        }
    }
    lemma_coalesced_push(t, ext);
}

/// Pushing a run only changes the state of addresses at or past its start.
pub proof fn lemma_state_in_push(s: Seq<Run>, r: Run, lba: int)
    ensures
        state_in(s.push(r), lba) == if r.range.start() <= lba {
            r.state
        } else {
            state_in(s, lba)
        },
{
    lemma_push_drop_last(s, r);
}

/// A prefix of contiguous runs is contiguous.
pub proof fn lemma_contiguous_prefix(s: Seq<Run>, n: int)
    requires
        contiguous(s),
        0 <= n <= s.len(),
    ensures
        contiguous(s.take(n)),
{
    reveal(contiguous);
    let t = s.take(n);
    assert forall|i: int| 0 <= i < t.len() - 1 implies #[trigger] t[i].range.end() == t[i
        + 1].range.start() by {
        assert(t[i] == s[i] && t[i + 1] == s[i + 1]);
    }
    assert forall|i: int| 0 <= i < t.len() implies (#[trigger] t[i]).range.start()
        < t[i].range.end() by {
        assert(t[i] == s[i]);
    }
}

/// Runs of a contiguous list appear in address order.
pub proof fn lemma_runs_ordered(s: Seq<Run>, i: int, j: int)
    requires
        contiguous(s),
        0 <= i < j < s.len(),
    ensures
        s[i].range.end() <= s[j].range.start(),
    decreases j - i,
{
    if j == i + 1 {
        lemma_contiguous_at(s, i);
    } else {
        lemma_runs_ordered(s, i, j - 1);
        lemma_contiguous_at(s, j - 1);
    }
}

/// The state of an address is the state of the run containing it.
pub proof fn lemma_state_in_run(s: Seq<Run>, i: int, lba: int)
    requires
        contiguous(s),
        0 <= i < s.len(),
        s[i].range.start() <= lba < s[i].range.end(),
    ensures
        state_in(s, lba) == s[i].state,
    decreases s.len(),
{
    if i == s.len() - 1 {
    } else {
        lemma_runs_ordered(s, i, s.len() - 1);
        lemma_contiguous_prefix(s, s.len() - 1);
        assert(s.drop_last() == s.take(s.len() - 1));
        assert(s.drop_last()[i] == s[i]);
        lemma_state_in_run(s.drop_last(), i, lba);
    }
}

/// Every address inside a contiguous list falls in some run.
pub proof fn lemma_lba_in_some_run(s: Seq<Run>, lba: int) -> (i: int)
    requires
        contiguous(s),
        s.len() > 0,
        s[0].range.start() <= lba < s.last().range.end(),
    ensures
        0 <= i < s.len(),
        s[i].range.start() <= lba < s[i].range.end(),
    decreases s.len(),
{
    if s.last().range.start() <= lba {
        s.len() - 1
    } else {
        lemma_contiguous_prefix(s, s.len() - 1);
        assert(s.drop_last() == s.take(s.len() - 1));
        let t = s.drop_last();
        assert(t.len() > 0) by {
            if s.len() == 1 {
                assert(s.last() == s[0]);
            }
        }
        assert(t.last() == s[s.len() - 2]);
        lemma_contiguous_at(s, s.len() - 2);
        assert(t[0] == s[0]);
        let k = lemma_lba_in_some_run(t, lba);
        assert(t[k] == s[k]);
        k
    }
}

/// The worst state with a non-zero tally, or `Good` when the tally is empty.
pub open spec fn dominant_of(c: SectorCounts) -> SectorState {
    if c.aliased > 0 {
        SectorState::Aliased
    } else if c.corrupt > 0 {
        SectorState::Corrupt
    } else if c.bad_write > 0 {
        SectorState::BadWrite
    } else if c.bad_read > 0 {
        SectorState::BadRead
    } else if c.fenced > 0 {
        SectorState::Fenced
    } else if c.untested > 0 {
        SectorState::Untested
    } else {
        SectorState::Good
    }
}

/// The worst state present in a tally; it determines a block's colour.
pub fn dominant_state(c: &SectorCounts) -> (r: SectorState)
    ensures
        r == dominant_of(*c),
{
    if c.aliased > 0 {
        SectorState::Aliased
    } else if c.corrupt > 0 {
        SectorState::Corrupt
    } else if c.bad_write > 0 {
        SectorState::BadWrite
    } else if c.bad_read > 0 {
        SectorState::BadRead
    } else if c.fenced > 0 {
        SectorState::Fenced
    } else if c.untested > 0 {
        SectorState::Untested
    } else {
        SectorState::Good
    }
}

/// The bounds `range` takes once clamped to a device of `total` sectors: the
/// intersection, or `[0, 0)` when there is none.
pub open spec fn clamp_bounds(range: LbaRange, total: u64) -> (u64, u64) {
    if range.start() < min_u64(range.end(), total) {
        (range.start(), min_u64(range.end(), total))
    } else {
        (0, 0)
    }
}

/// Number of display blocks asked for, at least one and at most one per
/// sector of the span (one when the span is empty).
pub open spec fn bucket_count(span: u64, buckets: u64) -> u64 {
    let b = if buckets >= 1 { buckets } else { 1 };
    let s = if span >= 1 { span } else { 1 };
    if b <= s { b } else { s }
}

/// Sectors per display block: the span divided by the block count, rounded up,
/// and at least one.
pub open spec fn bucket_width(span: u64, n: u64) -> u64 {
    if span == 0 {
        1
    } else {
        (span / n + if span % n == 0 { 0u64 } else { 1u64 }) as u64
    }
}

/// One display block summarising `[lo, hi)`.
pub open spec fn bucket_of(runs: Seq<Run>, b: MapBucket, lo: int, hi: int) -> bool {
    &&& b.range.start() == lo
    &&& b.range.end() == hi
    &&& b.counts == counts_of(runs, lo, hi)
    &&& b.dominant == dominant_of(b.counts)
}

/// First sector of block `k` when blocks of `per` sectors start at `lo`.
#[verifier::opaque]
pub open spec fn block_start(lo: int, k: int, per: int) -> int {
    lo + k * per
}

/// One past the last sector of block `k`, cut at `hi`.
pub open spec fn block_end(lo: int, k: int, per: int, hi: int) -> int {
    if block_start(lo, k + 1, per) <= hi {
        block_start(lo, k + 1, per)
    } else {
        hi
    }
}

/// Block `k` of `out` covers `[block_start(lo, k, per), block_end(lo, k, per, hi))`
/// and starts before `hi`.
pub open spec fn buckets_from(runs: Seq<Run>, out: Seq<MapBucket>, lo: int, hi: int, per: int) -> bool {
    forall|k: int|
        0 <= k < out.len() ==> bucket_of(runs, #[trigger] out[k], block_start(lo, k, per), block_end(lo, k, per, hi))
            && block_start(lo, k, per) < hi
}

/// The ranges of the runs whose state satisfies `f`, in address order.
pub open spec fn ranges_where(runs: Seq<Run>, f: spec_fn(SectorState) -> bool) -> Seq<LbaRange>
    decreases runs.len(),
{
    if runs.len() == 0 {
        Seq::empty()
    } else if f(runs.last().state) {
        ranges_where(runs.drop_last(), f).push(runs.last().range)
    } else {
        ranges_where(runs.drop_last(), f)
    }
}

/// `lba` lies on the device and its state is a proven defect.
pub open spec fn defective_at(runs: Seq<Run>, total: u64, lba: int) -> bool {
    0 <= lba < total && state_in(runs, lba).spec_is_defective()
}

/// `[a, b)` is a maximal stretch of defective sectors.
pub open spec fn defective_span(runs: Seq<Run>, total: u64, a: int, b: int) -> bool {
    &&& 0 <= a < b <= total
    &&& forall|x: int| a <= x < b ==> #[trigger] state_in(runs, x).spec_is_defective()
    &&& (a == 0 || !state_in(runs, a - 1).spec_is_defective())
    &&& (b == total || !state_in(runs, b).spec_is_defective())
}

impl SectorMap {
    /// The map's runs cover the device exactly and are fully coalesced.
    #[verifier::type_invariant]
    pub closed spec fn inv(self) -> bool {
        &&& tiles(self.runs@, self.geometry.total_sectors())
        &&& coalesced(self.runs@)
    }

    pub closed spec fn run_seq(&self) -> Seq<Run> {
        self.runs@
    }

    pub closed spec fn alias_seq(&self) -> Seq<AliasObservation> {
        self.aliases@
    }

    pub closed spec fn spec_geometry(&self) -> DeviceGeometry {
        self.geometry
    }

    /// Number of sectors on the mapped device.
    pub open spec fn total(&self) -> u64 {
        self.spec_geometry().total_sectors()
    }

    /// The map's structural invariants, stated over its runs.
    pub open spec fn wf(&self) -> bool {
        &&& tiles(self.run_seq(), self.total())
        &&& coalesced(self.run_seq())
    }

    /// State of one address.
    pub open spec fn state(&self, lba: int) -> SectorState {
        state_in(self.run_seq(), lba)
    }

    /// What the type invariant guarantees, stated over the accessors.
    pub proof fn lemma_wf(self)
        requires
            self.inv(),
        ensures
            self.wf(),
    {
    }

    /// A map is fixed by its geometry and the state it gives each address:
    /// two well-formed maps of one device that agree on every address hold
    /// the same runs.
    pub proof fn lemma_states_determine_runs(a: SectorMap, b: SectorMap)
        requires
            a.wf(),
            b.wf(),
            a.spec_geometry() == b.spec_geometry(),
            forall|l: int| 0 <= l < a.total() ==> #[trigger] a.state(l) == b.state(l),
        ensures
            a.run_seq() == b.run_seq(),
    {
        assert forall|l: int| 0 <= l < a.total() implies #[trigger] state_in(a.run_seq(), l) == state_in(b.run_seq(), l) by {
            assert(a.state(l) == b.state(l));
        }
        lemma_runs_determined(a.run_seq(), b.run_seq(), a.total());
    }

    /// Creates a map with the whole device marked as uninspected.
    pub fn new(geometry: DeviceGeometry) -> (r: Self)
        ensures
            r.spec_geometry() == geometry,
            r.alias_seq().len() == 0,
            r.run_seq().len() == 1,
            forall|lba: int| #[trigger] r.state(lba) == SectorState::Untested,
    {
        proof {
            use_type_invariant(&geometry);
            geometry.lemma_valid();
        }
        let full = geometry.full_range();
        let mut runs: Vec<Run> = Vec::new();
        runs.push(Run { range: full, state: SectorState::Untested });
        proof {
            lemma_single_run(runs@[0]);
            assert(runs@ == seq![runs@[0]]);
        }
        let r = Self { geometry, runs, aliases: Vec::new() };
        assert forall|lba: int| #[trigger] r.state(lba) == SectorState::Untested by {
            reveal_with_fuel(state_in, 2);
            assert(r.runs@.drop_last().len() == 0);
        }
        r
    }

    /// Geometry of the mapped device.
    pub fn geometry(&self) -> (r: &DeviceGeometry)
        ensures
            *r == self.spec_geometry(),
    {
        &self.geometry
    }

    /// Runs making up the map, in ascending LBA order.
    pub fn runs(&self) -> (r: &[Run])
        ensures
            r@ == self.run_seq(),
    {
        self.runs.as_slice()
    }

    /// Marks an interval with a state, preserving all invariants.
    ///
    /// The interval is clipped to the device bounds; marks past the end of the
    /// media are ignored rather than causing a panic.
    pub fn mark(&mut self, range: LbaRange, state: SectorState)
        ensures
            !(max_u64(range.start(), 0) < min_u64(range.end(), old(self).total())) ==> *final(self) == *old(self),
            final(self).spec_geometry() == old(self).spec_geometry(),
            final(self).alias_seq() == old(self).alias_seq(),
            forall|lba: int|
                0 <= lba < old(self).total() ==> #[trigger] final(self).state(lba) == if range.start()
                    <= lba < range.end() {
                    state
                } else {
                    old(self).state(lba)
                },
    {
        proof {
            use_type_invariant(&*self);
        }
        let full = self.geometry.full_range();
        let r = range.clamped_to(&full);
        if r.is_empty() {
            return;
        }
        let next = splice(&self.runs, r, state, Ghost(self.geometry.total_sectors()));
        let out = coalesce(next);
        self.runs = out;
    }

    /// Marks a single sector.
    pub fn mark_sector(&mut self, lba: u64, state: SectorState)
        ensures
            final(self).spec_geometry() == old(self).spec_geometry(),
            final(self).alias_seq() == old(self).alias_seq(),
            forall|l: int|
                0 <= l < old(self).total() ==> #[trigger] final(self).state(l) == if l == lba {
                    state
                } else {
                    old(self).state(l)
                },
    {
        self.mark(LbaRange::new(lba, 1), state);
    }

    /// Marks everything outside `span` as withheld from data.
    ///
    /// For an inspection deliberately narrowed to part of the device: area
    /// left out on purpose was not skipped out of ignorance, and calling it
    /// untested would deny the run any verdict. Nothing inside `span` is
    /// touched, and nothing is ever approved here.
    pub fn withhold_outside(&mut self, span: LbaRange)
        ensures
            final(self).spec_geometry() == old(self).spec_geometry(),
            final(self).alias_seq() == old(self).alias_seq(),
            forall|l: int|
                0 <= l < old(self).total() ==> #[trigger] final(self).state(l) == if l < span.start()
                    || l >= span.end() {
                    SectorState::Fenced
                } else {
                    old(self).state(l)
                },
    {
        let full = self.geometry.full_range();
        if span.start() > full.start() {
            self.mark(LbaRange::from_bounds(full.start(), span.start()), SectorState::Fenced);
        }
        if span.end() < full.end() {
            self.mark(LbaRange::from_bounds(span.end(), full.end()), SectorState::Fenced);
        }
    }

    /// Records an aliasing observation and marks the sector accordingly.
    pub fn record_alias(&mut self, requested_lba: u64, actual_lba: u64)
        ensures
            final(self).spec_geometry() == old(self).spec_geometry(),
            final(self).alias_seq() == old(self).alias_seq().push(
                AliasObservation { requested_lba, actual_lba },
            ),
            forall|l: int|
                0 <= l < old(self).total() ==> #[trigger] final(self).state(l) == if l
                    == requested_lba {
                    SectorState::Aliased
                } else {
                    old(self).state(l)
                },
    {
        proof {
            use_type_invariant(&*self);
        }
        let mut aliases = Vec::new();
        std::mem::swap(&mut aliases, &mut self.aliases);
        aliases.push(AliasObservation { requested_lba, actual_lba });
        self.aliases = aliases;
        self.mark_sector(requested_lba, SectorState::Aliased);
    }

    /// Index of the run holding `lba`, or `None` past the end of the device.
    fn run_index(&self, lba: u64) -> (r: Option<usize>)
        ensures
            r is Some <==> lba < self.total(),
            r is Some ==> r->Some_0 < self.run_seq().len() && self.run_seq()[r->Some_0 as int].range.start()
                <= lba < self.run_seq()[r->Some_0 as int].range.end(),
    {
        proof {
            use_type_invariant(self);
        }
        let ghost runs = self.runs@;
        let mut lo: usize = 0;
        let mut hi: usize = self.runs.len();
        while lo < hi
            invariant
                runs == self.runs@,
                tiles(runs, self.geometry.total_sectors()),
                0 <= lo <= hi <= runs.len(),
                forall|j: int| 0 <= j < lo ==> (#[trigger] runs[j]).range.end() <= lba,
                forall|j: int| hi <= j < runs.len() ==> (#[trigger] runs[j]).range.start() > lba,
            decreases hi - lo,
        {
            let mid = lo + (hi - lo) / 2;
            let run = self.runs[mid];
            if run.range.end() <= lba {
                proof {
                    assert forall|j: int| 0 <= j <= mid implies (#[trigger] runs[j]).range.end()
                        <= lba by {
                        if j < mid {
                            lemma_runs_ordered(runs, j, mid as int);
                        }
                    }
                }
                lo = mid + 1;
            } else if run.range.start() > lba {
                proof {
                    assert forall|j: int| mid <= j < runs.len() implies (#[trigger] runs[
                        j]).range.start() > lba by {
                        if j > mid {
                            lemma_runs_ordered(runs, mid as int, j);
                        }
                    }
                }
                hi = mid;
            } else {
                proof {
                    if mid + 1 < runs.len() {
                        lemma_runs_ordered(runs, mid as int, runs.len() - 1);
                        lemma_contiguous_at(runs, runs.len() - 1);
                    }
                }
                return Some(mid);
            }
        }
        proof {
            if lba < self.geometry.total_sectors() {
                let k = lemma_lba_in_some_run(runs, lba as int);
                assert(runs[k].range.start() <= lba < runs[k].range.end());
            }
        }
        None
    }

    /// State of a specific LBA, or `None` past the end of the device.
    pub fn state_at(&self, lba: u64) -> (r: Option<SectorState>)
        ensures
            r == if lba < self.total() {
                Some(self.state(lba as int))
            } else {
                None::<SectorState>
            },
    {
        proof {
            use_type_invariant(self);
        }
        match self.run_index(lba) {
            Some(i) => {
                proof {
                    lemma_state_in_run(self.runs@, i as int, lba as int);
                }
                Some(self.runs[i].state)
            },
            None => None,
        }
    }

    /// Sector counts per state over the whole device.
    pub fn counts(&self) -> (r: SectorCounts)
        ensures
            r == counts_of(self.run_seq(), 0, self.total() as int),
            r.spec_total() == self.total(),
    {
        proof {
            use_type_invariant(self);
            lemma_states_sum(self.runs@, 0, self.geometry.total_sectors() as int);
            lemma_all_total_span(self.runs@, 0, self.geometry.total_sectors() as int);
            lemma_contiguous_at(self.runs@, 0);
        }
        self.counts_in(self.geometry.full_range())
    }

    /// Tallies `[lo, hi)`, skipping the first `from` runs, which all end at
    /// or before `lo`.
    fn tally(&self, from: usize, lo: u64, hi: u64) -> (c: SectorCounts)
        requires
            lo <= hi <= self.total(),
            from <= self.run_seq().len(),
            forall|j: int| 0 <= j < from ==> (#[trigger] self.run_seq()[j]).range.end() <= lo,
        ensures
            forall|st: SectorState| #[trigger] c.of(st) == state_total(self.run_seq(), st, lo as int, hi as int),
    {
        proof {
            use_type_invariant(self);
        }
        let ghost runs = self.runs@;
        let ghost total = self.geometry.total_sectors();
        let ghost glo = lo as int;
        let ghost ghi = hi as int;
        let mut c = SectorCounts::zero();
        let n = self.runs.len();
        let mut i: usize = from;
        proof {
            assert(runs.take(n as int) =~= runs);
            let pre = runs.take(from as int);
            assert(pre.take(0) =~= Seq::<Run>::empty());
            assert forall|st: SectorState| #[trigger] c.of(st) == state_total(pre, st, glo, ghi) by {
                assert forall|j: int| 0 <= j < pre.len() implies overlap(#[trigger] pre[j].range, glo, ghi) == 0 by {
                    assert(pre[j] == runs[j]);
                }
                lemma_state_total_take(pre, 0, st, glo, ghi);
            }
            lemma_contiguous_at(runs, 0);
            lemma_all_total_span(runs, glo, ghi);
            lemma_all_total_prefix_le(runs, from as int, glo, ghi);
        }
        while i < n
            invariant
                runs == self.runs@,
                tiles(runs, total),
                n == runs.len(),
                runs.take(n as int) == runs,
                from <= i <= n,
                glo == lo,
                ghi == hi,
                lo <= hi <= total,
                all_total(runs, glo, ghi) <= ghi - glo,
                forall|st: SectorState| #[trigger] c.of(st) == state_total(runs.take(i as int), st, glo, ghi),
                all_total(runs.take(i as int), glo, ghi) <= all_total(runs, glo, ghi),
            ensures
                forall|st: SectorState| #[trigger] c.of(st) == state_total(runs, st, glo, ghi),
            decreases n - i,
        {
            let run = self.runs[i];
            if run.range.start() >= hi {
                proof {
                    lemma_contiguous_at(runs, i as int);
                    assert forall|j: int| i <= j < runs.len() implies overlap(#[trigger] runs[j].range, glo, ghi) == 0 by {
                        if j > i {
                            lemma_runs_ordered(runs, i as int, j);
                        }
                    }
                    assert forall|st: SectorState| #[trigger] c.of(st) == state_total(runs, st, glo, ghi) by {
                        lemma_state_total_take(runs, i as int, st, glo, ghi);
                    }
                }
                break;
            }
            let ghost before = c;
            proof {
                lemma_state_total_step(runs, i as int, run.state, glo, ghi);
                lemma_state_total_bounds(runs.take(i + 1), run.state, glo, ghi);
                if i + 1 < n {
                    lemma_all_total_prefix_le(runs, i + 1, glo, ghi);
                } else {
                    assert(runs.take(i + 1) == runs);
                }
            }
            let bucket = LbaRange::from_bounds(lo, hi);
            let piece: u64 = match run.range.intersection(&bucket) {
                Some(overlap_range) => overlap_range.len(),
                None => 0,
            };
            assert(piece == overlap(run.range, glo, ghi));
            c.add(run.state, piece);
            proof {
                assert forall|st: SectorState| #[trigger] c.of(st) == state_total(runs.take(i + 1), st, glo, ghi) by {
                    lemma_state_total_step(runs, i as int, st, glo, ghi);
                    assert(c.of(st) == if st == run.state {
                        sat_add(before.of(st), piece)
                    } else {
                        before.of(st)
                    });
                }
            }
            i = i + 1;
        }
        c
    }

    /// Tallies states inside one interval of the device, clamped to it.
    pub fn counts_in(&self, range: LbaRange) -> (r: SectorCounts)
        ensures
            r == counts_of(self.run_seq(), range.start() as int, min_u64(range.end(), self.total()) as int),
            r.spec_total() == ov(0, self.total() as int, range.start() as int, min_u64(range.end(), self.total()) as int),
    {
        proof {
            use_type_invariant(self);
        }
        let ghost runs = self.runs@;
        let ghost total = self.geometry.total_sectors();
        let clamped = range.clamped_to(&self.geometry.full_range());
        let c = self.tally(0, clamped.start(), clamped.end());
        proof {
            let lo = clamped.start() as int;
            let hi = clamped.end() as int;
            lemma_states_sum(runs, lo, hi);
            lemma_contiguous_at(runs, 0);
            lemma_all_total_span(runs, lo, hi);
            let tlo = range.start() as int;
            let thi = min_u64(range.end(), total) as int;
            if tlo < thi {
                assert(lo == tlo && hi == thi);
            } else {
                assert(lo == hi);
                lemma_state_total_empty(runs, SectorState::Untested, lo, hi);
                lemma_state_total_empty(runs, SectorState::Good, lo, hi);
                lemma_state_total_empty(runs, SectorState::BadRead, lo, hi);
                lemma_state_total_empty(runs, SectorState::BadWrite, lo, hi);
                lemma_state_total_empty(runs, SectorState::Corrupt, lo, hi);
                lemma_state_total_empty(runs, SectorState::Aliased, lo, hi);
                lemma_state_total_empty(runs, SectorState::Fenced, lo, hi);
                lemma_state_total_empty(runs, SectorState::Untested, tlo, thi);
                lemma_state_total_empty(runs, SectorState::Good, tlo, thi);
                lemma_state_total_empty(runs, SectorState::BadRead, tlo, thi);
                lemma_state_total_empty(runs, SectorState::BadWrite, tlo, thi);
                lemma_state_total_empty(runs, SectorState::Corrupt, tlo, thi);
                lemma_state_total_empty(runs, SectorState::Aliased, tlo, thi);
                lemma_state_total_empty(runs, SectorState::Fenced, tlo, thi);
            }
            assert(c.of(SectorState::Untested) == state_total(runs, SectorState::Untested, lo, hi));
            assert(c.of(SectorState::Good) == state_total(runs, SectorState::Good, lo, hi));
            assert(c.of(SectorState::BadRead) == state_total(runs, SectorState::BadRead, lo, hi));
            assert(c.of(SectorState::BadWrite) == state_total(runs, SectorState::BadWrite, lo, hi));
            assert(c.of(SectorState::Corrupt) == state_total(runs, SectorState::Corrupt, lo, hi));
            assert(c.of(SectorState::Aliased) == state_total(runs, SectorState::Aliased, lo, hi));
            assert(c.of(SectorState::Fenced) == state_total(runs, SectorState::Fenced, lo, hi));
        }
        c
    }

    /// Sector counts per display block over the whole device.
    pub fn downsample(&self, buckets: usize) -> (out: Vec<MapBucket>)
        ensures
            ({
                let hi = self.total();
                let n = bucket_count(hi, buckets as u64);
                let per = bucket_width(hi, n);
                &&& out.len() <= n
                &&& buckets_from(self.run_seq(), out@, 0, hi as int, per as int)
                &&& out.len() == n || block_start(0, out.len() as int, per as int) >= hi
                &&& out.len() > 0
                &&& out@.last().range.end() == hi
            }),
    {
        proof {
            use_type_invariant(self);
            use_type_invariant(&self.geometry);
            self.geometry.lemma_valid();
        }
        let full = self.geometry.full_range();
        let out = self.downsample_range(full, buckets);
        proof {
            let hi = self.total();
            assert(clamp_bounds(full, self.total()) == (0u64, self.total()));
            let n = bucket_count(hi, buckets as u64);
            let per = bucket_width(hi, n);
        }
        out
    }

    /// Reduces `range`, clamped to the device, to at most `buckets` uniform
    /// blocks, each reporting its tally and the worst state it contains.
    #[verifier::spinoff_prover]
    pub fn downsample_range(&self, range: LbaRange, buckets: usize) -> (out: Vec<MapBucket>)
        ensures
            ({
                let (lo, hi) = clamp_bounds(range, self.total());
                let n = bucket_count((hi - lo) as u64, buckets as u64);
                let per = bucket_width((hi - lo) as u64, n);
                &&& out.len() <= n
                &&& buckets_from(self.run_seq(), out@, lo as int, hi as int, per as int)
                &&& out.len() == n || block_start(lo as int, out.len() as int, per as int) >= hi
                &&& lo < hi ==> out.len() > 0 && out@.last().range.end() == hi
            }),
    {
        proof {
            use_type_invariant(self);
        }
        let ghost runs = self.runs@;
        let clamped = range.clamped_to(&self.geometry.full_range());
        let lo = clamped.start();
        let hi = clamped.end();
        let span = clamped.len();
        let want: u64 = if buckets == 0 { 1 } else { buckets as u64 };
        let cap: u64 = if span == 0 { 1 } else { span };
        let n: u64 = if want <= cap { want } else { cap };
        proof {
            if span > 0 {
                vstd::arithmetic::div_mod::lemma_fundamental_div_mod(span as int, n as int);
                let q = span / n;
                let rem = span % n;
                assert(q >= 1 && (rem != 0 ==> q < u64::MAX)) by (nonlinear_arith)
                    requires
                        span == n * q + rem,
                        0 <= rem < n,
                        1 <= n <= span,
                        q >= 0,
                        span <= u64::MAX,
                ;
            }
        }
        let per: u64 = if span == 0 {
            1
        } else {
            span / n + if span % n == 0 { 0 } else { 1 }
        };
        proof {
            assert(lo == clamp_bounds(range, self.total()).0);
            assert(hi == clamp_bounds(range, self.total()).1);
            assert(n == bucket_count(span, buckets as u64));
            assert(per == bucket_width(span, n));
            if span > 0 {
                vstd::arithmetic::div_mod::lemma_fundamental_div_mod(span as int, n as int);
                assert(n * per >= span) by (nonlinear_arith)
                    requires
                        span == n * (span / n) + span % n,
                        0 <= span % n < n,
                        per == span / n + (if span % n == 0 { 0int } else { 1int }),
                ;
            }
        }
        let mut out: Vec<MapBucket> = Vec::new();
        let mut cursor: usize = 0;
        let mut i: u64 = 0;
        while i < n
            invariant
                runs == self.runs@,
                tiles(runs, self.geometry.total_sectors()),
                lo <= hi <= self.geometry.total_sectors(),
                span == hi - lo,
                per >= 1,
                span > 0 ==> n * per >= span,
                i <= n,
                out.len() == i,
                cursor <= runs.len(),
                forall|j: int| 0 <= j < cursor ==> (#[trigger] runs[j]).range.end() <= block_start(lo as int, i as int, per as int),
                buckets_from(runs, out@, lo as int, hi as int, per as int),
            ensures
                out.len() <= n,
                buckets_from(runs, out@, lo as int, hi as int, per as int),
                out.len() == n || block_start(lo as int, out.len() as int, per as int) >= hi,
            decreases n - i,
        {
            let off = crate::geometry::saturating_mul_u64(i, per);
            let start = lo.saturating_add(off);
            proof {
                assert(i * per >= 0) by (nonlinear_arith)
                    requires
                        i >= 0,
                        per >= 1,
                ;
                if i * per > u64::MAX {
                    assert(off == u64::MAX);
                    assert(start >= hi);
                } else {
                    assert(off == i * per);
                }
                assert(start >= hi <==> lo + i * per >= hi);
                reveal(block_start);
            }
            if start >= hi {
                break;
            }
            assert(start == block_start(lo as int, i as int, per as int)) by {
                reveal(block_start);
            }
            let stop = start.saturating_add(per);
            let end = if stop <= hi { stop } else { hi };
            let bucket_range = LbaRange::from_bounds(start, end);
            while cursor < self.runs.len() && self.runs[cursor].range.end() <= start
                invariant
                    runs == self.runs@,
                    cursor <= runs.len(),
                    forall|j: int| 0 <= j < cursor ==> (#[trigger] runs[j]).range.end() <= start,
                decreases runs.len() - cursor,
            {
                cursor = cursor + 1;
            }
            let counts = self.tally(cursor, start, end);
            let dominant = dominant_state(&counts);
            let ghost old_out = out@;
            out.push(MapBucket { range: bucket_range, dominant, counts });
            proof {
                assert(block_start(lo as int, i + 1, per as int) == block_start(lo as int, i as int, per as int) + per) by {
                    reveal(block_start);
                    assert((i + 1) * per == i * per + per) by (nonlinear_arith);
                }
                assert(counts == counts_of(runs, start as int, end as int)) by {
                    assert(counts.of(SectorState::Untested) == state_total(runs, SectorState::Untested, start as int, end as int));
                    assert(counts.of(SectorState::Good) == state_total(runs, SectorState::Good, start as int, end as int));
                    assert(counts.of(SectorState::BadRead) == state_total(runs, SectorState::BadRead, start as int, end as int));
                    assert(counts.of(SectorState::BadWrite) == state_total(runs, SectorState::BadWrite, start as int, end as int));
                    assert(counts.of(SectorState::Corrupt) == state_total(runs, SectorState::Corrupt, start as int, end as int));
                    assert(counts.of(SectorState::Aliased) == state_total(runs, SectorState::Aliased, start as int, end as int));
                    assert(counts.of(SectorState::Fenced) == state_total(runs, SectorState::Fenced, start as int, end as int));
                }
                let glo = lo as int;
                let ghi = hi as int;
                let gper = per as int;
                assert(end == block_end(glo, i as int, gper, ghi));
                assert(bucket_range.start() == start && bucket_range.end() == end);
                assert(out@[i as int].range == bucket_range);
                assert forall|k: int| 0 <= k < out@.len() implies bucket_of(
                    runs,
                    #[trigger] out@[k],
                    block_start(glo, k, gper),
                    block_end(glo, k, gper, ghi),
                ) && block_start(glo, k, gper) < ghi by {
                    if k < i {
                        assert(out@[k] == old_out[k]);
                    }
                }
                assert(buckets_from(runs, out@, lo as int, hi as int, per as int));
            }
            i = i + 1;
        }
        proof {
            if lo < hi {
                assert(span > 0);
                reveal(block_start);
                if out.len() == 0 {
                    assert(lo + 0 * per >= hi);
                }
                let k = out.len() - 1;
                assert(lo + (k + 1) * per >= hi) by {
                    if out.len() == n {
                        assert((k + 1) * per == n * per);
                    }
                }
            }
        }
        out
    }

    /// Intervals in a specific state, in address order.
    pub fn ranges_with_state(&self, state: SectorState) -> (r: Vec<LbaRange>)
        ensures
            r@ == ranges_where(self.run_seq(), |s: SectorState| s == state),
    {
        let ghost f = |s: SectorState| s == state;
        let ghost runs = self.runs@;
        let mut out: Vec<LbaRange> = Vec::new();
        let mut i: usize = 0;
        proof {
            assert(runs.take(0) =~= Seq::<Run>::empty());
        }
        while i < self.runs.len()
            invariant
                runs == self.runs@,
                i <= runs.len(),
                f == (|s: SectorState| s == state),
                out@ == ranges_where(runs.take(i as int), f),
            decreases runs.len() - i,
        {
            let run = self.runs[i];
            proof {
                assert(runs.take(i + 1).drop_last() == runs.take(i as int));
                assert(runs.take(i + 1).last() == run);
                assert(runs.take(i + 1).len() > 0);
            }
            if run.state == state {
                out.push(run.range);
            }
            i = i + 1;
        }
        proof {
            assert(runs.take(runs.len() as int) == runs);
        }
        out
    }

    /// Intervals with a proven defect, in address order.
    pub fn defective_ranges(&self) -> (r: Vec<LbaRange>)
        ensures
            r@ == ranges_where(self.run_seq(), |s: SectorState| s.spec_is_defective()),
    {
        let ghost f = |s: SectorState| s.spec_is_defective();
        let ghost runs = self.runs@;
        let mut out: Vec<LbaRange> = Vec::new();
        let mut i: usize = 0;
        proof {
            assert(runs.take(0) =~= Seq::<Run>::empty());
        }
        while i < self.runs.len()
            invariant
                runs == self.runs@,
                i <= runs.len(),
                f == (|s: SectorState| s.spec_is_defective()),
                out@ == ranges_where(runs.take(i as int), f),
            decreases runs.len() - i,
        {
            let run = self.runs[i];
            proof {
                assert(runs.take(i + 1).drop_last() == runs.take(i as int));
                assert(runs.take(i + 1).last() == run);
                assert(runs.take(i + 1).len() > 0);
            }
            if run.state.is_defective() {
                out.push(run.range);
            }
            i = i + 1;
        }
        proof {
            assert(runs.take(runs.len() as int) == runs);
        }
        out
    }

    /// Intervals approved for use, in address order.
    pub fn usable_ranges(&self) -> (r: Vec<LbaRange>)
        ensures
            r@ == ranges_where(self.run_seq(), |s: SectorState| s.spec_is_usable()),
    {
        let ghost f = |s: SectorState| s.spec_is_usable();
        let ghost runs = self.runs@;
        let mut out: Vec<LbaRange> = Vec::new();
        let mut i: usize = 0;
        proof {
            assert(runs.take(0) =~= Seq::<Run>::empty());
        }
        while i < self.runs.len()
            invariant
                runs == self.runs@,
                i <= runs.len(),
                f == (|s: SectorState| s.spec_is_usable()),
                out@ == ranges_where(runs.take(i as int), f),
            decreases runs.len() - i,
        {
            let run = self.runs[i];
            proof {
                assert(runs.take(i + 1).drop_last() == runs.take(i as int));
                assert(runs.take(i + 1).last() == run);
                assert(runs.take(i + 1).len() > 0);
            }
            if run.state.is_usable() {
                out.push(run.range);
            }
            i = i + 1;
        }
        proof {
            assert(runs.take(runs.len() as int) == runs);
        }
        out
    }

    /// Index of the defective run holding `probe`, if it is one.
    fn defective_index(&self, probe: u64) -> (r: Option<usize>)
        ensures
            r is Some <==> defective_at(self.run_seq(), self.total(), probe as int),
            r is Some ==> r->Some_0 < self.run_seq().len() && self.run_seq()[r->Some_0 as int].range.start()
                <= probe < self.run_seq()[r->Some_0 as int].range.end()
                && self.run_seq()[r->Some_0 as int].state.spec_is_defective(),
    {
        proof {
            use_type_invariant(self);
        }
        match self.run_index(probe) {
            Some(i) => {
                proof {
                    lemma_state_in_run(self.runs@, i as int, probe as int);
                }
                if self.runs[i].state.is_defective() {
                    Some(i)
                } else {
                    None
                }
            },
            None => None,
        }
    }

    /// The unbroken defective span touching `lba`: the one holding `lba`, or
    /// failing that the one holding `lba - 1`. Runs of different defective
    /// states join into one span.
    pub fn defective_run_at(&self, lba: u64) -> (r: Option<LbaRange>)
        ensures
            r is Some <==> defective_at(self.run_seq(), self.total(), lba as int) || defective_at(
                self.run_seq(),
                self.total(),
                lba - 1,
            ),
            r is Some ==> ({
                let seed = if defective_at(self.run_seq(), self.total(), lba as int) {
                    lba as int
                } else {
                    lba - 1
                };
                &&& r->Some_0.start() <= seed < r->Some_0.end()
                &&& defective_span(self.run_seq(), self.total(), r->Some_0.start() as int, r->Some_0.end() as int)
            }),
    {
        proof {
            use_type_invariant(self);
        }
        let ghost runs = self.runs@;
        let ghost total = self.geometry.total_sectors();
        let seed = match self.defective_index(lba) {
            Some(i) => i,
            None => {
                if lba == 0 {
                    return None;
                }
                match self.defective_index(lba - 1) {
                    Some(i) => i,
                    None => return None,
                }
            },
        };
        let mut first = seed;
        while first > 0 && self.runs[first - 1].state.is_defective()
            invariant
                runs == self.runs@,
                seed < runs.len(),
                first <= seed,
                forall|k: int| first <= k <= seed ==> (#[trigger] runs[k]).state.spec_is_defective(),
            decreases first,
        {
            first = first - 1;
        }
        let mut last = seed;
        let n = self.runs.len();
        while last + 1 < n && self.runs[last + 1].state.is_defective()
            invariant
                runs == self.runs@,
                n == runs.len(),
                seed < runs.len(),
                seed <= last < runs.len(),
                forall|k: int| seed <= k <= last ==> (#[trigger] runs[k]).state.spec_is_defective(),
            decreases runs.len() - last,
        {
            last = last + 1;
        }
        let span = LbaRange::from_bounds(self.runs[first].range.start(), self.runs[last].range.end());
        proof {
            let a = runs[first as int].range.start() as int;
            let b = runs[last as int].range.end() as int;
            lemma_contiguous_at(runs, first as int);
            lemma_contiguous_at(runs, last as int);
            lemma_contiguous_at(runs, seed as int);
            if first < seed {
                lemma_runs_ordered(runs, first as int, seed as int);
            }
            if seed < last {
                lemma_runs_ordered(runs, seed as int, last as int);
            }
            assert(a < b);
            lemma_contiguous_at(runs, runs.len() - 1);
            if last + 1 < runs.len() {
                lemma_runs_ordered(runs, last as int, runs.len() - 1);
            }
            if first > 0 {
                lemma_runs_ordered(runs, 0, first as int);
            }
            assert(runs.last() == runs[runs.len() - 1]);
            assert forall|x: int| a <= x < b implies #[trigger] state_in(runs, x).spec_is_defective() by {
                let k = lemma_lba_in_some_run(runs, x);
                if k < first {
                    lemma_runs_ordered(runs, k, first as int);
                }
                if k > last {
                    lemma_runs_ordered(runs, last as int, k);
                }
                lemma_state_in_run(runs, k, x);
            }
            if first > 0 {
                lemma_contiguous_at(runs, first - 1);
                lemma_state_in_run(runs, first - 1, a - 1);
            }
            if last + 1 < runs.len() {
                lemma_contiguous_at(runs, last + 1);
                lemma_state_in_run(runs, last + 1, b);
            } else {
                assert(runs.last() == runs[last as int]);
            }
            if last + 1 >= runs.len() {
                assert(b == total);
            }
        }
        Some(span)
    }

    /// Checks the map's structural invariants: never fails, since every
    /// operation keeps them.
    pub fn check_invariants(&self) -> (r: Result<(), MapInvariantError>)
        ensures
            r is Ok,
    {
        proof {
            use_type_invariant(self);
        }
        if self.runs.len() == 0 {
            return Err(MapInvariantError::Empty);
        }
        let first = self.runs[0];
        if first.range.start() != 0 {
            return Err(MapInvariantError::DoesNotStartAtZero(first.range.start()));
        }
        let mut i: usize = 0;
        while i < self.runs.len()
            invariant
                contiguous(self.runs@),
            decreases self.runs.len() - i,
        {
            let run = self.runs[i];
            proof {
                lemma_contiguous_at(self.runs@, i as int);
            }
            if run.range.is_empty() {
                return Err(MapInvariantError::EmptyRun(run.range.start()));
            }
            i = i + 1;
        }
        let mut j: usize = 1;
        while j < self.runs.len()
            invariant
                contiguous(self.runs@),
                coalesced(self.runs@),
                1 <= j,
            decreases self.runs.len() - j,
        {
            let prev = self.runs[j - 1];
            let next = self.runs[j];
            proof {
                lemma_contiguous_at(self.runs@, j - 1);
                lemma_coalesced_at(self.runs@, j - 1);
            }
            if prev.range.end() != next.range.start() {
                return Err(MapInvariantError::Discontinuity {
                    prev_end: prev.range.end(),
                    next_start: next.range.start(),
                });
            }
            if prev.state == next.state {
                return Err(MapInvariantError::NotCoalesced { at: prev.range.end(), state: prev.state });
            }
            j = j + 1;
        }
        let end = self.runs[self.runs.len() - 1].range.end();
        assert(self.runs@.last() == self.runs@[self.runs.len() - 1]);
        if end != self.geometry.total_sectors() {
            return Err(MapInvariantError::DoesNotCoverDevice {
                actual: end,
                expected: self.geometry.total_sectors(),
            });
        }
        Ok(())
    }

    /// Accumulated aliasing observations.
    pub fn aliases(&self) -> (r: &[AliasObservation])
        ensures
            r@ == self.alias_seq(),
    {
        self.aliases.as_slice()
    }
}

/// State of `lba` once `[r)` has been marked `state` over `runs`.
pub open spec fn marked_state(runs: Seq<Run>, r: LbaRange, state: SectorState, lba: int)
    -> SectorState {
    if r.start() <= lba < r.end() {
        state
    } else {
        state_in(runs, lba)
    }
}

/// Runs under assembly: contiguous from 0 up to `cur`, describing the target
/// state function everywhere below `cur`.
pub open spec fn assembled(next: Seq<Run>, cur: int, runs: Seq<Run>, r: LbaRange, state: SectorState) -> bool {
    &&& contiguous(next)
    &&& (next.len() == 0) <==> (cur == 0)
    &&& next.len() > 0 ==> next[0].range.start() == 0 && next.last().range.end() == cur
    &&& forall|lba: int| 0 <= lba < cur ==> #[trigger] state_in(next, lba) == marked_state(runs, r, state, lba)
}

/// Appends one piece of the new map at the current frontier.
fn append_piece(
    next: &mut Vec<Run>,
    piece: Run,
    Ghost(cur): Ghost<int>,
    Ghost(runs): Ghost<Seq<Run>>,
    Ghost(r): Ghost<LbaRange>,
    Ghost(state): Ghost<SectorState>,
)
    requires
        assembled(old(next)@, cur, runs, r, state),
        piece.range.start() == cur,
        piece.range.start() < piece.range.end(),
        forall|lba: int|
            piece.range.start() <= lba < piece.range.end() ==> #[trigger] marked_state(runs, r, state, lba)
                == piece.state,
    ensures
        assembled(final(next)@, piece.range.end() as int, runs, r, state),
{
    let ghost old_next = next@;
    next.push(piece);
    proof {
        lemma_contiguous_push(old_next, piece);
        assert forall|lba: int| 0 <= lba < piece.range.end() implies #[trigger] state_in(
            next@,
            lba,
        ) == marked_state(runs, r, state, lba) by {
            lemma_state_in_push(old_next, piece, lba);
        }
        if old_next.len() > 0 {
            assert(next@[0] == old_next[0]);
        }
    }
}

/// The runs of `runs` with `[r)` overwritten by `state`, in address order and
/// not yet coalesced.
fn splice(runs: &Vec<Run>, r: LbaRange, state: SectorState, Ghost(total): Ghost<u64>) -> (next: Vec<Run>)
    requires
        tiles(runs@, total),
        r.start() < r.end() <= total,
    ensures
        next@.len() > 0,
        contiguous(next@),
        next@[0].range.start() == 0,
        next@.last().range.end() == total,
        forall|lba: int| 0 <= lba < total ==> #[trigger] state_in(next@, lba) == marked_state(runs@, r, state, lba),
{
    let n = runs.len();
    let mut next: Vec<Run> = Vec::new();
    let mut placed = false;
    let ghost mut cur: int = 0;
    proof {
        lemma_empty_runs();
    }
    let mut i: usize = 0;
    while i < n
        invariant
            n == runs@.len(),
            tiles(runs@, total),
            r.start() < r.end() <= total,
            0 <= i <= n,
            placed <==> (i > 0 && runs@[i - 1].range.end() > r.start()),
            cur == if placed {
                max_u64(runs@[i - 1].range.end(), r.end()) as int
            } else if i == 0 {
                0
            } else {
                runs@[i - 1].range.end() as int
            },
            assembled(next@, cur, runs@, r, state),
        decreases n - i,
    {
        let run = runs[i];
        let ghost prev_end: int = if i == 0 { 0 } else { runs@[i - 1].range.end() as int };
        proof {
            lemma_contiguous_at(runs@, i as int);
            if i > 0 {
                lemma_contiguous_at(runs@, i - 1);
            }
            assert(prev_end == run.range.start());
        }
        // The part of the run before the marked interval.
        if run.range.start() < r.start() {
            let stop = if run.range.end() < r.start() {
                run.range.end()
            } else {
                r.start()
            };
            let piece = Run { range: LbaRange::from_bounds(run.range.start(), stop), state: run.state };
            proof {
                assert forall|lba: int| piece.range.start() <= lba < piece.range.end() implies #[trigger] marked_state(runs@, r, state, lba) == piece.state by {
                    lemma_state_in_run(runs@, i as int, lba);
                }
            }
            append_piece(&mut next, piece, Ghost(cur), Ghost(runs@), Ghost(r), Ghost(state));
            proof {
                cur = stop as int;
            }
        }
        // The marked interval itself, placed once, in order.
        if !placed && run.range.end() > r.start() {
            let piece = Run { range: r, state };
            append_piece(&mut next, piece, Ghost(cur), Ghost(runs@), Ghost(r), Ghost(state));
            placed = true;
            proof {
                cur = r.end() as int;
            }
        }
        // The part of the run after the marked interval.
        let from = if run.range.start() > r.end() {
            run.range.start()
        } else {
            r.end()
        };
        if from < run.range.end() {
            let piece = Run { range: LbaRange::from_bounds(from, run.range.end()), state: run.state };
            proof {
                assert forall|lba: int| piece.range.start() <= lba < piece.range.end() implies #[trigger] marked_state(runs@, r, state, lba) == piece.state by {
                    lemma_state_in_run(runs@, i as int, lba);
                }
            }
            append_piece(&mut next, piece, Ghost(cur), Ghost(runs@), Ghost(r), Ghost(state));
            proof {
                cur = run.range.end() as int;
            }
        }
        i = i + 1;
    }
    proof {
        assert(runs@[n - 1] == runs@.last());
    }
    next
}

/// Merges adjacent runs that share a state.
fn coalesce(runs: Vec<Run>) -> (out: Vec<Run>)
    requires
        runs@.len() > 0,
        contiguous(runs@),
    ensures
        out@.len() > 0,
        contiguous(out@),
        coalesced(out@),
        out@[0].range.start() == runs@[0].range.start(),
        out@.last().range.end() == runs@.last().range.end(),
        forall|lba: int| #[trigger] state_in(out@, lba) == state_in(runs@, lba),
{
    let mut out: Vec<Run> = Vec::with_capacity(runs.len());
    proof {
        lemma_empty_runs();
    }
    let n = runs.len();
    let mut i: usize = 0;
    while i < n
        invariant
            n == runs@.len(),
            contiguous(runs@),
            0 <= i <= n,
            (out@.len() == 0) <==> (i == 0),
            contiguous(out@),
            coalesced(out@),
            i > 0 ==> out@[0].range.start() == runs@[0].range.start() && out@.last().range.end()
                == runs@[i - 1].range.end() && out@.last().state == runs@[i - 1].state,
            forall|lba: int| #[trigger] state_in(out@, lba) == state_in(runs@.take(i as int), lba),
        decreases n - i,
    {
        let run = runs[i];
        let ghost prefix = runs@.take(i as int);
        proof {
            assert(runs@.take(i + 1) == prefix.push(run));
            lemma_contiguous_at(runs@, i as int);
            if i > 0 {
                lemma_contiguous_at(runs@, i - 1);
            }
        }
        if run.range.is_empty() {
            // Never reached for contiguous input; kept so the function stays
            // correct on any list.
        } else if out.len() > 0 && out[out.len() - 1].state == run.state && out[out.len()
            - 1].range.end() == run.range.start() {
            let k = out.len() - 1;
            let last = out[k];
            let ext = Run { range: LbaRange::from_bounds(last.range.start(), run.range.end()), state: run.state };
            let ghost old_out = out@;
            out.set(k, ext);
            proof {
                assert(out@ == old_out.drop_last().push(ext));
                assert(old_out == old_out.drop_last().push(last));
                lemma_extend_last(old_out, ext);
                assert forall|lba: int| #[trigger] state_in(out@, lba) == state_in(
                    prefix.push(run),
                    lba,
                ) by {
                    lemma_state_in_push(old_out.drop_last(), ext, lba);
                    lemma_state_in_push(old_out.drop_last(), last, lba);
                    lemma_state_in_push(prefix, run, lba);
                }
                if k > 0 {
                    assert(out@[0] == old_out[0]);
                }
            }
        } else {
            let ghost old_out = out@;
            out.push(run);
            proof {
                lemma_contiguous_push(old_out, run);
                lemma_coalesced_push(old_out, run);
                assert forall|lba: int| #[trigger] state_in(out@, lba) == state_in(
                    prefix.push(run),
                    lba,
                ) by {
                    lemma_state_in_push(old_out, run, lba);
                    lemma_state_in_push(prefix, run, lba);
                }
                if old_out.len() > 0 {
                    assert(out@[0] == old_out[0]);
                }
            }
        }
        i = i + 1;
    }
    proof {
        assert(runs@.take(n as int) == runs@);
    }
    out
}

/// Complete state map for a device.
#[derive(Debug, PartialEq, Eq)]
pub struct SectorMap {
    geometry: DeviceGeometry,
    runs: Vec<Run>,
    aliases: Vec<AliasObservation>,
}


impl Clone for SectorMap {
    /// An identical, independent copy.
    fn clone(&self) -> (r: Self)
        ensures
            r.run_seq() == self.run_seq(),
            r.alias_seq() == self.alias_seq(),
            r.spec_geometry() == self.spec_geometry(),
    {
        proof {
            use_type_invariant(self);
        }
        let mut runs: Vec<Run> = Vec::new();
        let mut i: usize = 0;
        while i < self.runs.len()
            invariant
                i <= self.runs@.len(),
                runs@ == self.runs@.take(i as int),
            decreases self.runs.len() - i,
        {
            runs.push(self.runs[i]);
            i = i + 1;
            assert(runs@ =~= self.runs@.take(i as int));
        }
        let mut aliases: Vec<AliasObservation> = Vec::new();
        let mut j: usize = 0;
        while j < self.aliases.len()
            invariant
                j <= self.aliases@.len(),
                aliases@ == self.aliases@.take(j as int),
            decreases self.aliases.len() - j,
        {
            aliases.push(self.aliases[j]);
            j = j + 1;
            assert(aliases@ =~= self.aliases@.take(j as int));
        }
        assert(runs@ =~= self.runs@);
        assert(aliases@ =~= self.aliases@);
        SectorMap { geometry: self.geometry, runs, aliases }
    }
}

} // verus!
