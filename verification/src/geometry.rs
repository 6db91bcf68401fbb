//! Device geometry and LBA interval algebra.
//!
//! An [`LbaRange`] is a half-open interval `[start, end)` measured in sectors.
//! All arithmetic here saturates rather than wrapping. A failing card can
//! report nonsense geometry, and a silent overflow in this module would turn
//! into a write landing somewhere it should never reach.
use vstd::prelude::*;

verus! {

/// Sector size assumed when a device reports none.
pub const DEFAULT_SECTOR_SIZE: u32 = 512;

/// Default partition alignment: 4 MiB, the typical erase-block size of modern
/// microSD NAND.
pub const DEFAULT_ALIGNMENT_BYTES: u64 = 4194304;

/// Whether a sector size is one the tool accepts.
pub open spec fn valid_sector_size(sector_size: u32) -> bool {
    sector_size == 512 || sector_size == 1024 || sector_size == 2048 || sector_size == 4096
}

/// `a * b`, capped at `u64::MAX`.
pub open spec fn sat_mul(a: u64, b: u64) -> u64 {
    if a * b > u64::MAX {
        u64::MAX
    } else {
        (a * b) as u64
    }
}

/// `a + b`, capped at `u64::MAX`.
pub open spec fn sat_add(a: u64, b: u64) -> u64 {
    if a + b > u64::MAX {
        u64::MAX
    } else {
        (a + b) as u64
    }
}

/// `a - b`, floored at zero.
pub open spec fn sat_sub(a: u64, b: u64) -> u64 {
    if a < b {
        0
    } else {
        (a - b) as u64
    }
}

/// Saturating multiplication.
pub fn saturating_mul_u64(a: u64, b: u64) -> (r: u64)
    ensures
        r == sat_mul(a, b),
{
    match a.checked_mul(b) {
        Some(v) => v,
        None => u64::MAX,
    }
}

/// Errors produced while constructing a geometry.
#[derive(Debug, PartialEq, Eq, Structural)]
pub enum GeometryError {
    /// Sector size is not one of the supported powers of two.
    InvalidSectorSize(u32),
    /// The device reports no addressable sectors.
    EmptyDevice,
}

/// Geometry as reported by the device.
///
/// "Reported" is the operative word: a counterfeit card lies precisely here,
/// and exposing that lie is one of this tool's objectives.
#[derive(Debug, Clone, Copy, PartialEq, Eq, Structural)]
pub struct DeviceGeometry {
    sector_size: u32,
    total_sectors: u64,
}

impl DeviceGeometry {
    /// A geometry only exists with a supported sector size and at least one
    /// sector.
    #[verifier::type_invariant]
    pub closed spec fn inv(self) -> bool {
        valid_sector_size(self.sector_size) && self.total_sectors > 0
    }

    pub closed spec fn spec_sector_size(&self) -> u32 {
        self.sector_size
    }

    pub closed spec fn spec_total_sectors(&self) -> u64 {
        self.total_sectors
    }

    /// What the type invariant guarantees, stated over the accessors.
    pub proof fn lemma_valid(self)
        requires
            self.inv(),
        ensures
            valid_sector_size(self.sector_size()),
            self.total_sectors() > 0,
    {
    }

    /// Builds a geometry, validating the sector size.
    /// The geometry of a supported sector size and a non-zero sector count.
    pub(crate) fn of(sector_size: u32, total_sectors: u64) -> (r: Self)
        requires
            valid_sector_size(sector_size),
            total_sectors > 0,
        ensures
            r.sector_size() == sector_size,
            r.total_sectors() == total_sectors,
    {
        Self { sector_size, total_sectors }
    }

    pub fn new(sector_size: u32, total_sectors: u64) -> (r: Result<Self, GeometryError>)
        ensures
            !valid_sector_size(sector_size) ==> r == Err::<Self, _>(
                GeometryError::InvalidSectorSize(sector_size),
            ),
            valid_sector_size(sector_size) && total_sectors == 0 ==> r == Err::<Self, _>(
                GeometryError::EmptyDevice,
            ),
            valid_sector_size(sector_size) && total_sectors > 0 ==> r is Ok && r->Ok_0.sector_size()
                == sector_size && r->Ok_0.total_sectors() == total_sectors,
    {
        if !(sector_size == 512 || sector_size == 1024 || sector_size == 2048 || sector_size
            == 4096) {
            return Err(GeometryError::InvalidSectorSize(sector_size));
        }
        if total_sectors == 0 {
            return Err(GeometryError::EmptyDevice);
        }
        Ok(Self { sector_size, total_sectors })
    }

    /// Sector size in bytes.
    #[verifier::when_used_as_spec(spec_sector_size)]
    pub fn sector_size(&self) -> (r: u32)
        ensures
            r == self.spec_sector_size(),
            valid_sector_size(r),
    {
        proof {
            use_type_invariant(self);
        }
        self.sector_size
    }

    /// Total number of addressable sectors.
    #[verifier::when_used_as_spec(spec_total_sectors)]
    pub fn total_sectors(&self) -> (r: u64)
        ensures
            r == self.spec_total_sectors(),
            r > 0,
    {
        proof {
            use_type_invariant(self);
        }
        self.total_sectors
    }

    /// Total capacity in bytes, as reported by the device, saturating.
    pub fn total_bytes(&self) -> (r: u64)
        ensures
            r == sat_mul(self.total_sectors(), self.sector_size() as u64),
    {
        saturating_mul_u64(self.total_sectors(), self.sector_size() as u64)
    }

    /// Range covering the whole device.
    pub fn full_range(&self) -> (r: LbaRange)
        ensures
            r.start() == 0,
            r.end() == self.total_sectors(),
    {
        LbaRange::from_bounds(0, self.total_sectors())
    }

    /// Converts a byte count into sectors, rounding up.
    pub fn bytes_to_sectors_ceil(&self, bytes: u64) -> (r: u64)
        ensures
            r as int * self.sector_size() >= bytes,
            (r as int - 1) * self.sector_size() < bytes,
    {
        let ss = self.sector_size() as u64;
        let q = bytes / ss;
        assert(q < u64::MAX) by (nonlinear_arith)
            requires
                q == bytes / ss,
                ss >= 512,
        ;
        let r = if bytes % ss == 0 { q } else { q + 1 };
        proof {
            vstd::arithmetic::div_mod::lemma_fundamental_div_mod(bytes as int, ss as int);
            assert(r as int * ss >= bytes) by (nonlinear_arith)
                requires
                    bytes == ss * q + bytes % ss,
                    0 <= bytes % ss < ss,
                    r == (if bytes % ss == 0 { q as int } else { q + 1 }),
            ;
            assert((r as int - 1) * ss < bytes) by (nonlinear_arith)
                requires
                    bytes == ss * q + bytes % ss,
                    0 <= bytes % ss < ss,
                    r == (if bytes % ss == 0 { q as int } else { q + 1 }),
            ;
        }
        r
    }

    /// Default alignment expressed in sectors: 4 MiB over the sector size.
    /// Never zero.
    pub fn default_alignment_sectors(&self) -> (r: u64)
        ensures
            r == DEFAULT_ALIGNMENT_BYTES / (self.sector_size() as u64),
            r >= 1024,
    {
        let ss = self.sector_size() as u64;
        let a = DEFAULT_ALIGNMENT_BYTES / ss;
        proof {
            if ss == 512 {
                assert(a == 8192);
            } else if ss == 1024 {
                assert(a == 4096);
            } else if ss == 2048 {
                assert(a == 2048);
            } else {
                assert(ss == 4096);
                assert(a == 1024) by (nonlinear_arith)
                    requires
                        ss == 4096,
                        a == 4194304u64 / ss,
                ;
            }
        }
        if a == 0 {
            1
        } else {
            a
        }
    }
}

/// Half-open interval of logical block addresses: `[start, end)`.
#[derive(Debug, Clone, Copy, PartialEq, Eq, Structural, PartialOrd, Ord)]
pub struct LbaRange {
    start: u64,
    end: u64,
}

/// The lower of two values.
pub open spec fn min_u64(a: u64, b: u64) -> u64 {
    if a <= b {
        a
    } else {
        b
    }
}

/// The higher of two values.
pub open spec fn max_u64(a: u64, b: u64) -> u64 {
    if a >= b {
        a
    } else {
        b
    }
}

/// `v` rounded down to a multiple of `a`.
pub open spec fn round_down(v: u64, a: u64) -> u64 {
    (v - v % a) as u64
}

/// `v` rounded up to a multiple of `a`, saturating at `u64::MAX`.
pub open spec fn round_up_sat(v: u64, a: u64) -> u64 {
    if v % a == 0 {
        v
    } else {
        sat_add(v, (a - v % a) as u64)
    }
}

/// Rounding down to a multiple keeps order.
pub proof fn lemma_round_down_monotone(v1: u64, v2: u64, a: u64)
    requires
        a > 0,
        v1 <= v2,
    ensures
        round_down(v1, a) <= round_down(v2, a),
{
    vstd::arithmetic::div_mod::lemma_fundamental_div_mod(v1 as int, a as int);
    vstd::arithmetic::div_mod::lemma_fundamental_div_mod(v2 as int, a as int);
    vstd::arithmetic::div_mod::lemma_div_is_ordered(v1 as int, v2 as int, a as int);
    let q1 = v1 as int / a as int;
    let q2 = v2 as int / a as int;
    assert(v1 - v1 % a <= v2 - v2 % a) by (nonlinear_arith)
        requires
            q1 <= q2,
            a > 0,
            v1 == a * q1 + v1 % a,
            v2 == a * q2 + v2 % a,
    ;
}

/// Rounding up to a multiple, saturating, keeps order.
pub proof fn lemma_round_up_sat_monotone(v1: u64, v2: u64, a: u64)
    requires
        a > 0,
        v1 <= v2,
    ensures
        round_up_sat(v1, a) <= round_up_sat(v2, a),
{
    vstd::arithmetic::div_mod::lemma_fundamental_div_mod(v1 as int, a as int);
    vstd::arithmetic::div_mod::lemma_fundamental_div_mod(v2 as int, a as int);
    let q1 = v1 as int / a as int;
    let r1 = v1 as int % a as int;
    let q2 = v2 as int / a as int;
    let r2 = v2 as int % a as int;
    // The exact multiples reached before saturation.
    let u1: int = if r1 == 0 {
        v1 as int
    } else {
        v1 as int + (a - r1)
    };
    let u2: int = if r2 == 0 {
        v2 as int
    } else {
        v2 as int + (a - r2)
    };
    assert(u1 == (if r1 == 0 {
        q1
    } else {
        q1 + 1
    }) * a) by (nonlinear_arith)
        requires
            v1 == a * q1 + r1,
            u1 == (if r1 == 0 {
                v1 as int
            } else {
                v1 as int + (a - r1)
            }),
    ;
    assert(u2 == (if r2 == 0 {
        q2
    } else {
        q2 + 1
    }) * a) by (nonlinear_arith)
        requires
            v2 == a * q2 + r2,
            u2 == (if r2 == 0 {
                v2 as int
            } else {
                v2 as int + (a - r2)
            }),
    ;
    // The multiple reached from v2 is a multiple no smaller than v1, and the
    // one reached from v1 is the least such.
    let c1: int = if r1 == 0 {
        q1
    } else {
        q1 + 1
    };
    let c2: int = if r2 == 0 {
        q2
    } else {
        q2 + 1
    };
    assert(c1 <= c2) by (nonlinear_arith)
        requires
            v1 == a * q1 + r1,
            v2 == a * q2 + r2,
            0 <= r1 < a,
            0 <= r2 < a,
            v1 <= v2,
            c1 == (if r1 == 0 {
                q1
            } else {
                q1 + 1
            }),
            c2 == (if r2 == 0 {
                q2
            } else {
                q2 + 1
            }),
            a > 0,
    ;
    assert(u1 <= u2) by (nonlinear_arith)
        requires
            c1 <= c2,
            a > 0,
            u1 == c1 * a,
            u2 == c2 * a,
    ;
}

/// Rounding down lands on a multiple.
pub proof fn lemma_round_down_multiple(v: u64, a: u64)
    requires
        a > 0,
    ensures
        round_down(v, a) % a == 0,
{
    vstd::arithmetic::div_mod::lemma_fundamental_div_mod(v as int, a as int);
    let q = v as int / a as int;
    assert((v - v % a) == q * a) by (nonlinear_arith)
        requires
            v == a * q + v % a,
    ;
    vstd::arithmetic::div_mod::lemma_mod_multiples_basic(q, a as int);
}

/// Rounding up lands on a multiple unless it saturated.
pub proof fn lemma_round_up_multiple(v: u64, a: u64)
    requires
        a > 0,
        v % a == 0 || v + (a - v % a) <= u64::MAX,
    ensures
        round_up_sat(v, a) % a == 0,
{
    vstd::arithmetic::div_mod::lemma_fundamental_div_mod(v as int, a as int);
    let q = v as int / a as int;
    if v % a != 0 {
        assert(v + (a - v % a) == a * (q + 1)) by (nonlinear_arith)
            requires
                v == a * q + v % a,
        ;
        vstd::arithmetic::div_mod::lemma_mod_multiples_basic(q + 1, a as int);
    }
}

impl LbaRange {
    /// A range never ends before it starts.
    #[verifier::type_invariant]
    pub closed spec fn inv(self) -> bool {
        self.start <= self.end
    }

    pub closed spec fn spec_start(&self) -> u64 {
        self.start
    }

    pub closed spec fn spec_end(&self) -> u64 {
        self.end
    }

    pub open spec fn spec_len(&self) -> u64 {
        if self.end() >= self.start() {
            (self.end() - self.start()) as u64
        } else {
            0
        }
    }

    pub open spec fn spec_is_empty(&self) -> bool {
        self.end() <= self.start()
    }

    pub open spec fn spec_contains(&self, lba: u64) -> bool {
        self.start() <= lba && lba < self.end()
    }

    /// What the type invariant guarantees, stated over the accessors.
    pub proof fn lemma_ordered(self)
        requires
            self.inv(),
        ensures
            self.start() <= self.end(),
    {
    }

    /// The range `[start, end)`, or the empty range at `start` when `end` does
    /// not lie past it.
    pub closed spec fn spec_bounds(start: u64, end: u64) -> Self {
        if end <= start {
            LbaRange { start, end: start }
        } else {
            LbaRange { start, end }
        }
    }

    /// The bounds of `spec_bounds`.
    pub proof fn lemma_spec_bounds(start: u64, end: u64)
        ensures
            Self::spec_bounds(start, end).start() == start,
            Self::spec_bounds(start, end).end() == if end <= start {
                start
            } else {
                end
            },
    {
    }

    /// Two ranges with the same bounds are the same range.
    pub broadcast proof fn lemma_ext(a: Self, b: Self)
        requires
            #[trigger] a.start() == #[trigger] b.start(),
            a.end() == b.end(),
        ensures
            a == b,
    {
    }

    /// Builds from a start and a length. A zero length yields an empty range.
    pub fn new(start: u64, len: u64) -> (r: Self)
        ensures
            r.start() == start,
            r.end() == sat_add(start, len),
    {
        Self { start, end: start.saturating_add(len) }
    }

    /// Builds from bounds. If `end <= start`, the result is empty at `start`.
    pub fn from_bounds(start: u64, end: u64) -> (r: Self)
        ensures
            r == Self::spec_bounds(start, end),
            r.start() == start,
            r.end() == (if end <= start { start } else { end }),
    {
        if end <= start {
            Self { start, end: start }
        } else {
            Self { start, end }
        }
    }

    /// First LBA in the range.
    #[verifier::when_used_as_spec(spec_start)]
    pub fn start(&self) -> (r: u64)
        ensures
            r == self.spec_start(),
            r <= self.end(),
    {
        proof {
            use_type_invariant(self);
        }
        self.start
    }

    /// First LBA past the range.
    #[verifier::when_used_as_spec(spec_end)]
    pub fn end(&self) -> (r: u64)
        ensures
            r == self.spec_end(),
            self.start() <= r,
    {
        proof {
            use_type_invariant(self);
        }
        self.end
    }

    /// Number of sectors covered.
    #[verifier::when_used_as_spec(spec_len)]
    pub fn len(&self) -> (r: u64)
        ensures
            r == self.spec_len(),
            r as int == self.end() - self.start(),
    {
        proof {
            use_type_invariant(self);
        }
        self.end - self.start
    }

    /// True when the range covers no sectors.
    #[verifier::when_used_as_spec(spec_is_empty)]
    pub fn is_empty(&self) -> (r: bool)
        ensures
            r == self.spec_is_empty(),
            r == (self.start() == self.end()),
    {
        proof {
            use_type_invariant(self);
        }
        self.end <= self.start
    }

    /// True when `lba` falls inside the range.
    #[verifier::when_used_as_spec(spec_contains)]
    pub fn contains(&self, lba: u64) -> (r: bool)
        ensures
            r == self.spec_contains(lba),
    {
        lba >= self.start && lba < self.end
    }

    /// True when the two ranges share at least one sector.
    pub fn intersects(&self, other: &Self) -> (r: bool)
        ensures
            r == (max_u64(self.start(), other.start()) < min_u64(self.end(), other.end())),
    {
        let r = self.start < self.end && other.start < other.end && self.start < other.end && other.start
            < self.end;
        r
    }

    /// True when the ranges overlap or merely abut (`a.end == b.start`).
    pub fn touches_or_intersects(&self, other: &Self) -> (r: bool)
        ensures
            r == (self.start() <= other.end() && other.start() <= self.end()),
    {
        self.start <= other.end && other.start <= self.end
    }

    /// The portion common to both ranges, if any.
    pub fn intersection(&self, other: &Self) -> (r: Option<Self>)
        ensures
            r is Some <==> max_u64(self.start(), other.start()) < min_u64(self.end(), other.end()),
            r is Some ==> r->Some_0.start() == max_u64(self.start(), other.start())
                && r->Some_0.end() == min_u64(self.end(), other.end()),
    {
        let start = if self.start > other.start {
            self.start
        } else {
            other.start
        };
        let end = if self.end < other.end {
            self.end
        } else {
            other.end
        };
        if start < end {
            Some(Self { start, end })
        } else {
            None
        }
    }

    /// Smallest range containing both.
    pub fn hull(&self, other: &Self) -> (r: Self)
        ensures
            r.start() == min_u64(self.start(), other.start()),
            r.end() == max_u64(self.end(), other.end()),
    {
        proof {
            use_type_invariant(self);
            use_type_invariant(other);
        }
        let start = if self.start <= other.start {
            self.start
        } else {
            other.start
        };
        let end = if self.end >= other.end {
            self.end
        } else {
            other.end
        };
        Self { start, end }
    }

    /// Grows the range by `margin` sectors on each side, saturating at zero
    /// and at `u64::MAX`.
    pub fn expanded_by(&self, margin: u64) -> (r: Self)
        ensures
            r.start() == sat_sub(self.start(), margin),
            r.end() == sat_add(self.end(), margin),
    {
        proof {
            use_type_invariant(self);
        }
        Self { start: self.start.saturating_sub(margin), end: self.end.saturating_add(margin) }
    }

    /// Grows to `alignment` boundaries, always containing the original.
    ///
    /// Used so that a condemned region swallows the entire erase block holding
    /// it: neighbouring bad blocks tend to degrade together.
    pub fn aligned_outward(&self, alignment: u64) -> (r: Self)
        ensures
            alignment <= 1 ==> r == *self,
            alignment > 1 ==> r.start() == round_down(self.start(), alignment) && r.end()
                == round_up_sat(self.end(), alignment),
            r.start() <= self.start(),
            self.end() <= r.end(),
    {
        proof {
            use_type_invariant(self);
        }
        if alignment <= 1 {
            return *self;
        }
        assert(self.start % alignment <= self.start) by (nonlinear_arith)
            requires
                alignment > 1,
        ;
        let start = self.start - (self.start % alignment);
        let rem = self.end % alignment;
        let end = if rem == 0 {
            self.end
        } else {
            self.end.saturating_add(alignment - rem)
        };
        Self { start, end }
    }

    /// Shrinks to `alignment` boundaries, always contained by the original.
    ///
    /// Used for partitions, which must never extend past the approved region.
    pub fn aligned_inward(&self, alignment: u64) -> (r: Self)
        ensures
            alignment <= 1 ==> r == *self,
            alignment > 1 ==> r.start() == round_up_sat(self.start(), alignment) && r.end() == (
            if round_down(self.end(), alignment) <= round_up_sat(self.start(), alignment) {
                round_up_sat(self.start(), alignment)
            } else {
                round_down(self.end(), alignment)
            }),
            self.start() <= r.start(),
            r.end() <= self.end() || r.is_empty(),
    {
        proof {
            use_type_invariant(self);
        }
        if alignment <= 1 {
            return *self;
        }
        let rem = self.start % alignment;
        let start = if rem == 0 {
            self.start
        } else {
            self.start.saturating_add(alignment - rem)
        };
        assert(self.end % alignment <= self.end) by (nonlinear_arith)
            requires
                alignment > 1,
        ;
        let end = self.end - (self.end % alignment);
        Self::from_bounds(start, end)
    }

    /// Restricts the range to the given bounds.
    pub fn clamped_to(&self, bounds: &Self) -> (r: Self)
        ensures
            max_u64(self.start(), bounds.start()) < min_u64(self.end(), bounds.end()) ==> r.start()
                == max_u64(self.start(), bounds.start()) && r.end() == min_u64(
                self.end(),
                bounds.end(),
            ),
            !(max_u64(self.start(), bounds.start()) < min_u64(self.end(), bounds.end()))
                ==> r.start() == bounds.start() && r.end() == bounds.start(),
    {
        match self.intersection(bounds) {
            Some(r) => r,
            None => Self { start: bounds.start(), end: bounds.start() },
        }
    }

    /// Removes `other`, returning the surviving left and right fragments.
    pub fn subtract(&self, other: &Self) -> (r: (Option<Self>, Option<Self>))
        ensures
            !(self.start() < other.end() && other.start() < self.end()) ==> r == (
            Some(*self),
            None::<Self>,
            ),
            (self.start() < other.end() && other.start() < self.end()) ==> {
                &&& (r.0 is Some <==> self.start() < other.start())
                &&& (r.0 is Some ==> r.0->Some_0.start() == self.start() && r.0->Some_0.end()
                    == other.start())
                &&& (r.1 is Some <==> other.end() < self.end())
                &&& (r.1 is Some ==> r.1->Some_0.start() == other.end() && r.1->Some_0.end()
                    == self.end())
            },
    {
        if !(self.start < other.end && other.start < self.end) {
            return (Some(*self), None);
        }
        let left = if self.start < other.start {
            Some(Self { start: self.start, end: other.start })
        } else {
            None
        };
        let right = if other.end < self.end {
            Some(Self { start: other.end, end: self.end })
        } else {
            None
        };
        (left, right)
    }

    /// Splits the range into consecutive chunks of at most `chunk` sectors.
    ///
    /// The chunks tile the range exactly: the first starts where the range
    /// starts, each ends where the next begins, the last ends where the range
    /// ends, and every chunk but the last holds exactly `max(chunk, 1)`
    /// sectors.
    pub fn chunks(&self, chunk: u64) -> (v: Vec<Self>)
        ensures
            (v.len() == 0) == self.is_empty(),
            v.len() > 0 ==> v[0].start() == self.start() && v[v.len() - 1].end() == self.end(),
            forall|i: int| 0 <= i < v.len() - 1 ==> #[trigger] v[i].end() == v[i + 1].start(),
            forall|i: int|
                0 <= i < v.len() ==> !(#[trigger] v[i]).is_empty() && v[i].len() <= max_u64(
                    chunk,
                    1,
                ),
            forall|i: int| 0 <= i < v.len() - 1 ==> (#[trigger] v[i]).len() == max_u64(chunk, 1),
    {
        proof {
            use_type_invariant(self);
        }
        let chunk = if chunk == 0 {
            1
        } else {
            chunk
        };
        let mut out: Vec<Self> = Vec::new();
        let mut cursor = self.start;
        while cursor < self.end
            invariant
                self.start <= cursor <= self.end,
                chunk >= 1,
                (out.len() == 0) == (cursor == self.start),
                out.len() > 0 ==> out[0].start() == self.start && out[out.len() - 1].end()
                    == cursor,
                forall|i: int| 0 <= i < out.len() - 1 ==> #[trigger] out[i].end() == out[i
                    + 1].start(),
                forall|i: int|
                    0 <= i < out.len() ==> !(#[trigger] out[i]).is_empty() && out[i].len()
                        <= chunk,
                forall|i: int| 0 <= i < out.len() - 1 ==> (#[trigger] out[i]).len() == chunk,
                out.len() > 0 && cursor < self.end ==> out[out.len() - 1].len() == chunk,
            decreases self.end - cursor,
        {
            let stop = cursor.saturating_add(chunk);
            let end = if stop < self.end {
                stop
            } else {
                self.end
            };
            let r = Self { start: cursor, end };
            out.push(r);
            cursor = end;
        }
        out
    }

    /// Size of the range in bytes, given a geometry.
    pub fn byte_len(&self, geometry: &DeviceGeometry) -> (r: u64)
        ensures
            r == sat_mul(self.len(), geometry.sector_size() as u64),
    {
        saturating_mul_u64(self.len(), geometry.sector_size() as u64)
    }
}

} // verus!
