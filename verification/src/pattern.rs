//! Self-identifying verification pattern, derived from the sector's own LBA.
//!
//! A counterfeit card serves address `N` from cell `N mod real_capacity`;
//! writing and re-reading the same address always agrees, so a plain
//! write-and-compare test passes it. Here every sector carries a header with
//! its own LBA, a session nonce and a checksum binding the two: when the
//! device returns another address's contents, the header names which address
//! came back. The nonce keeps leftovers of an earlier inspection from being
//! read as approval of a new one.
//!
//! Several payload kinds exist because different patterns expose different
//! faults: pseudorandom data is the best general detector, saturated patterns
//! expose stuck cells, and a checkerboard stresses coupling between
//! neighbours. All of them keep the header.
use vstd::prelude::*;

use crate::bytes::{get_le64, le64, le64_bytes, lemma_le64_round_trip, read_le64};

verus! {

/// Signature marking a sector as written by this tool.
pub const MAGIC: u64 = 0x5344_4D41_5031_00A5;

/// Header bytes at the start of every sector: magic, LBA, nonce, checksum.
pub const HEADER_LEN: usize = 32;

/// Smallest supported sector: the header must fit with room for a payload.
pub const MIN_SECTOR_SIZE: usize = 64;

/// Increment of the SplitMix64 generator.
pub const GOLDEN_GAMMA: u64 = 0x9E37_79B9_7F4A_7C15;

/// MurmurHash3's 64-bit finalizer.
pub open spec fn mix(z: u64) -> u64 {
    let a = z ^ (z >> 33u64);
    let b = a.wrapping_mul(0xff51_afd7_ed55_8ccd);
    let c = b ^ (b >> 33u64);
    let d = c.wrapping_mul(0xc4ce_b9fe_1a85_ec53);
    d ^ (d >> 33u64)
}

/// MurmurHash3 finalizer, used to derive seeds and checksums.
fn fmix64(z: u64) -> (r: u64)
    ensures
        r == mix(z),
{
    let a = z ^ (z >> 33u64);
    let b = a.wrapping_mul(0xff51_afd7_ed55_8ccd);
    let c = b ^ (b >> 33u64);
    let d = c.wrapping_mul(0xc4ce_b9fe_1a85_ec53);
    d ^ (d >> 33u64)
}

/// The output SplitMix64 draws from its advanced state.
pub open spec fn splitmix_out(next: u64) -> u64 {
    let a = (next ^ (next >> 30u64)).wrapping_mul(0xBF58_476D_1CE4_E5B9);
    let b = (a ^ (a >> 27u64)).wrapping_mul(0x94D0_49BB_1331_11EB);
    b ^ (b >> 31u64)
}

/// The generator's state after `c` steps from `seed`.
pub open spec fn stream_state(seed: u64, c: nat) -> u64
    decreases c,
{
    if c == 0 {
        seed
    } else {
        stream_state(seed, (c - 1) as nat).wrapping_add(GOLDEN_GAMMA)
    }
}

/// The `c`-th word the generator draws from `seed`.
pub open spec fn stream_word(seed: u64, c: nat) -> u64 {
    splitmix_out(stream_state(seed, c + 1))
}

/// One step of SplitMix64: the advanced state and the word drawn. Speed and
/// determinism are what matter here, not unpredictability.
fn splitmix64(state: u64) -> (r: (u64, u64))
    ensures
        r.0 == state.wrapping_add(GOLDEN_GAMMA),
        r.1 == splitmix_out(r.0),
{
    let next = state.wrapping_add(GOLDEN_GAMMA);
    let a = (next ^ (next >> 30u64)).wrapping_mul(0xBF58_476D_1CE4_E5B9);
    let b = (a ^ (a >> 27u64)).wrapping_mul(0x94D0_49BB_1331_11EB);
    (next, b ^ (b >> 31u64))
}

/// Verdict for a single verified sector.
#[derive(Debug, Clone, Copy, PartialEq, Eq, Structural)]
pub enum SectorVerdict {
    /// The sector returned exactly what was written to it.
    Match,
    /// The sector returned another LBA's contents, intact: the device does
    /// not hold the requested address and silently remapped it.
    Aliased {
        /// The LBA whose contents were actually returned.
        actual_lba: u64,
    },
    /// Header valid and for the right LBA, but the payload diverged: silent
    /// corruption.
    Corrupt {
        /// Byte offset within the sector of the first mismatching byte.
        first_bad_offset: usize,
    },
    /// No header from this session was found.
    Foreign,
}

impl SectorVerdict {
    /// True only for a fully verified sector.
    pub fn is_ok(&self) -> (r: bool)
        ensures
            r == (*self is Match),
    {
        matches!(self, SectorVerdict::Match)
    }
}

/// Payload content written after the self-identifying header.
#[derive(Debug, Clone, Copy, PartialEq, Eq, Hash, Structural)]
pub enum PatternKind {
    /// Pseudorandom, seeded by nonce and LBA. The general-purpose default.
    Pseudorandom,
    /// All bits zero. Exposes cells that cannot hold a low state.
    Zeros,
    /// All bits one. Exposes cells that cannot hold a high state.
    Ones,
    /// Alternating `0xAA` / `0x55`. Stresses coupling between neighbours.
    Checkerboard,
}

/// Display label of each kind.
pub open spec fn kind_label(k: PatternKind) -> &'static str {
    match k {
        PatternKind::Pseudorandom => "pseudorandom",
        PatternKind::Zeros => "all zeros",
        PatternKind::Ones => "all ones",
        PatternKind::Checkerboard => "checkerboard",
    }
}

impl PatternKind {
    /// Recommended sequence for a thorough inspection: the pseudorandom
    /// pattern first, which resolves most cases alone, then the saturated ones.
    pub const SWEEP: [PatternKind; 4] = [
        PatternKind::Pseudorandom,
        PatternKind::Ones,
        PatternKind::Zeros,
        PatternKind::Checkerboard,
    ];

    /// Short label for display.
    pub fn label(&self) -> (r: &'static str)
        ensures
            r@ == kind_label(*self)@,
    {
        match self {
            PatternKind::Pseudorandom => "pseudorandom",
            PatternKind::Zeros => "all zeros",
            PatternKind::Ones => "all ones",
            PatternKind::Checkerboard => "checkerboard",
        }
    }
}

/// Header checksum binding magic, LBA and nonce, so that noise which happens
/// to hold the magic value is never reported as aliasing.
pub open spec fn header_checksum(nonce: u64, lba: u64) -> u64 {
    mix(MAGIC ^ mix(lba ^ mix(nonce)))
}

/// Seed of the pseudorandom payload for an LBA.
pub open spec fn payload_seed(nonce: u64, lba: u64) -> u64 {
    mix(nonce.wrapping_mul(GOLDEN_GAMMA) ^ lba)
}

/// The 32 header bytes: magic, LBA, nonce and checksum, little-endian.
pub open spec fn header_bytes(nonce: u64, lba: u64) -> Seq<u8> {
    le64(MAGIC) + le64(lba) + le64(nonce) + le64(header_checksum(nonce, lba))
}

/// Byte `j` of the payload: constant fills, the checkerboard, or the bytes of
/// the generator's words, eight per word, a trailing partial word cut short.
pub open spec fn payload_byte(kind: PatternKind, seed: u64, j: int) -> u8 {
    match kind {
        PatternKind::Zeros => 0x00,
        PatternKind::Ones => 0xFF,
        PatternKind::Checkerboard => if j % 2 == 0 {
            0xAA
        } else {
            0x55
        },
        PatternKind::Pseudorandom => le64(stream_word(seed, (j / 8) as nat))[j % 8],
    }
}

/// Byte `i` of the sector written for `lba`.
#[verifier::opaque]
pub open spec fn expected_byte(nonce: u64, kind: PatternKind, lba: u64, i: int) -> u8 {
    if i < HEADER_LEN {
        header_bytes(nonce, lba)[i]
    } else {
        payload_byte(kind, payload_seed(nonce, lba), i - HEADER_LEN)
    }
}

/// What byte `i` of a sector is, by where it lies.
pub proof fn lemma_expected_byte(nonce: u64, kind: PatternKind, lba: u64, i: int)
    ensures
        i < HEADER_LEN ==> expected_byte(nonce, kind, lba, i) == header_bytes(nonce, lba)[i],
        i >= HEADER_LEN ==> expected_byte(nonce, kind, lba, i) == payload_byte(kind, payload_seed(nonce, lba), i - HEADER_LEN),
{
    reveal(expected_byte);
}

/// The `len` bytes of the sector written for `lba`.
pub open spec fn pattern_sector(nonce: u64, kind: PatternKind, lba: u64, len: nat) -> Seq<u8> {
    Seq::new(len, |i: int| expected_byte(nonce, kind, lba, i))
}

/// The first byte from `j` on that differs from what was written for `lba`.
pub open spec fn first_mismatch(s: Seq<u8>, nonce: u64, kind: PatternKind, lba: u64, j: int) -> Option<usize>
    decreases s.len() - j,
{
    if 0 <= j < s.len() {
        if s[j] != expected_byte(nonce, kind, lba, j) {
            Some(j as usize)
        } else {
            first_mismatch(s, nonce, kind, lba, j + 1)
        }
    } else {
        None
    }
}

/// What a sector read back says about the address it was read from: foreign
/// without a header of this session whose checksum binds; aliased when that
/// header names another address; otherwise corrupt at the first payload byte
/// that differs, or a match.
pub open spec fn verdict(nonce: u64, kind: PatternKind, lba: u64, s: Seq<u8>) -> SectorVerdict {
    if s.len() < MIN_SECTOR_SIZE || read_le64(s, 0) != MAGIC {
        SectorVerdict::Foreign
    } else {
        let stored = read_le64(s, 8) as u64;
        if read_le64(s, 16) != nonce || read_le64(s, 24) != header_checksum(nonce, stored) {
            SectorVerdict::Foreign
        } else if stored != lba {
            SectorVerdict::Aliased { actual_lba: stored }
        } else {
            match first_mismatch(s, nonce, kind, lba, HEADER_LEN as int) {
                Some(k) => SectorVerdict::Corrupt { first_bad_offset: k },
                None => SectorVerdict::Match,
            }
        }
    }
}

/// Nonce used when the system clock reads before the Unix epoch.
pub const FALLBACK_NONCE: u64 = 0x5DA9_1C3B_7E44_0291;

/// Nanoseconds since the Unix epoch on the system clock, cut to 64 bits, or
/// `None` when the clock reads before it. Nothing is promised of the value:
/// it is the time.
#[verifier::external_body]
fn clock_nanos() -> Option<u64> {
    match std::time::SystemTime::now().duration_since(std::time::UNIX_EPOCH) {
        Ok(d) => Some(d.as_nanos() as u64),
        Err(_) => None,
    }
}

/// The nonce derived from a reading of the clock: the reading, or the
/// fallback when there is none, with its lowest bit set so that it is never
/// zero.
pub open spec fn nonce_from(nanos: Option<u64>) -> u64 {
    match nanos {
        Some(n) => n | 1,
        None => FALLBACK_NONCE | 1,
    }
}

/// Derives a session nonce from a reading of the clock.
pub fn nonce_from_clock(nanos: Option<u64>) -> (r: u64)
    ensures
        r == nonce_from(nanos),
        r != 0,
        r % 2 == 1,
{
    let base = match nanos {
        Some(n) => n,
        None => FALLBACK_NONCE,
    };
    let r = base | 1;
    assert(r != 0 && r % 2 == 1) by (bit_vector)
        requires
            r == base | 1,
    ;
    r
}

/// A nonce for this session, taken from the clock: a scan written under it is
/// told apart from one written in any other session. Never zero.
pub fn session_nonce() -> (r: u64)
    ensures
        r != 0,
        r % 2 == 1,
{
    nonce_from_clock(clock_nanos())
}

/// Deterministic pattern generator, parameterised by a session nonce.
#[derive(Debug, Clone, Copy, PartialEq, Eq, Structural)]
pub struct PatternGenerator {
    nonce: u64,
    kind: PatternKind,
}

/// Writes `bytes` at `at`.
fn put8(buf: &mut [u8], at: usize, bytes: &[u8; 8])
    requires
        at + 8 <= old(buf)@.len(),
    ensures
        final(buf)@.len() == old(buf)@.len(),
        forall|i: int| at <= i < at + 8 ==> final(buf)@[i] == bytes@[i - at],
        forall|i: int| 0 <= i < old(buf)@.len() && !(at <= i < at + 8) ==> final(buf)@[i] == old(buf)@[i],
{
    let n = buf.len();
    let mut k: usize = 0;
    while k < 8
        invariant
            n == buf@.len(),
            k <= 8,
            at + 8 <= buf@.len(),
            buf@.len() == old(buf)@.len(),
            forall|i: int| at <= i < at + k ==> buf@[i] == bytes@[i - at],
            forall|i: int| 0 <= i < old(buf)@.len() && !(at <= i < at + k) ==> buf@[i] == old(buf)@[i],
        decreases 8 - k,
    {
        buf[at + k] = bytes[k];
        k = k + 1;
    }
}

impl PatternGenerator {
    pub closed spec fn spec_nonce(&self) -> u64 {
        self.nonce
    }

    pub closed spec fn spec_kind(&self) -> PatternKind {
        self.kind
    }

    /// Creates a pseudorandom generator with the given nonce.
    pub fn new(nonce: u64) -> (r: Self)
        ensures
            r.spec_nonce() == nonce,
            r.spec_kind() == PatternKind::Pseudorandom,
    {
        PatternGenerator { nonce, kind: PatternKind::Pseudorandom }
    }

    /// Creates a generator producing a specific payload kind.
    pub fn with_kind(nonce: u64, kind: PatternKind) -> (r: Self)
        ensures
            r.spec_nonce() == nonce,
            r.spec_kind() == kind,
    {
        PatternGenerator { nonce, kind }
    }

    /// The payload kind this generator produces.
    pub fn kind(&self) -> (r: PatternKind)
        ensures
            r == self.spec_kind(),
    {
        self.kind
    }

    /// This session's nonce.
    pub fn nonce(&self) -> (r: u64)
        ensures
            r == self.spec_nonce(),
    {
        self.nonce
    }

    fn header_checksum(&self, lba: u64) -> (r: u64)
        ensures
            r == header_checksum(self.nonce, lba),
    {
        let a = fmix64(self.nonce);
        let b = fmix64(lba ^ a);
        fmix64(MAGIC ^ b)
    }

    fn payload_seed(&self, lba: u64) -> (r: u64)
        ensures
            r == payload_seed(self.nonce, lba),
    {
        fmix64(self.nonce.wrapping_mul(GOLDEN_GAMMA) ^ lba)
    }

    /// Writes the `len`-byte sector for `lba` at `at` in `buf`, leaving the
    /// rest of `buf` as it was.
    #[verifier::spinoff_prover]
    #[verifier::rlimit(80)]
    fn fill_at(&self, lba: u64, buf: &mut [u8], at: usize, len: usize)
        requires
            len >= MIN_SECTOR_SIZE,
            at + len <= old(buf)@.len(),
        ensures
            final(buf)@.len() == old(buf)@.len(),
            written(final(buf)@, self.nonce, self.kind, lba, at as int, at as int, at + len),
            forall|i: int| 0 <= i < old(buf)@.len() && !(at <= i < at + len) ==> final(buf)@[i] == old(buf)@[i],
    {
        let ghost orig = buf@;
        let n = buf.len();
        let ghost hdr = header_bytes(self.nonce, lba);
        let magic = le64_bytes(MAGIC);
        put8(buf, at, &magic);
        let lba_bytes = le64_bytes(lba);
        put8(buf, at + 8, &lba_bytes);
        let nonce_bytes = le64_bytes(self.nonce);
        put8(buf, at + 16, &nonce_bytes);
        let sum = le64_bytes(self.header_checksum(lba));
        put8(buf, at + 24, &sum);
        proof {
            assert forall|i: int| at <= i < at + HEADER_LEN implies #[trigger] buf@[i] == expected_byte(
                self.nonce,
                self.kind,
                lba,
                i - at,
            ) by {
                let k = i - at;
                lemma_expected_byte(self.nonce, self.kind, lba, k);
                if k < 8 {
                    assert(hdr[k] == le64(MAGIC)[k]);
                } else if k < 16 {
                    assert(hdr[k] == le64(lba)[k - 8]);
                } else if k < 24 {
                    assert(hdr[k] == le64(self.nonce)[k - 16]);
                } else {
                    assert(hdr[k] == le64(header_checksum(self.nonce, lba))[k - 24]);
                }
            }
        }
        let plen = len - HEADER_LEN;
        let base = at + HEADER_LEN;
        let seed = self.payload_seed(lba);
        let mut state = seed;
        let mut word: [u8; 8] = [0u8; 8];
        let mut j: usize = 0;
        while j < plen
            invariant
                n == orig.len(),
                buf@.len() == orig.len(),
                base + plen <= n,
                base == at + HEADER_LEN,
                plen == len - HEADER_LEN,
                j <= plen,
                seed == payload_seed(self.nonce, lba),
                self.kind == PatternKind::Pseudorandom ==> state == stream_state(seed, ((j + 7) / 8) as nat),
                self.kind == PatternKind::Pseudorandom && j % 8 != 0 ==> word@ == le64(
                    stream_word(seed, (j / 8) as nat),
                ),
                written(buf@, self.nonce, self.kind, lba, at as int, at as int, base + j),
                forall|i: int| 0 <= i < orig.len() && !(at <= i < at + len) ==> buf@[i] == orig[i],
            decreases plen - j,
        {
            let b = next_payload_byte(self.kind, Ghost(seed), j, &mut state, &mut word);
            proof {
                lemma_expected_byte(self.nonce, self.kind, lba, base + j - at);
            }
            buf[base + j] = b;
            j = j + 1;
        }
    }
}

impl PatternGenerator {
    /// Fills `sector` with the pattern for `lba`. A sector below
    /// [`MIN_SECTOR_SIZE`] cannot hold the header and a payload.
    pub fn fill_sector(&self, lba: u64, sector: &mut [u8])
        requires
            old(sector)@.len() >= MIN_SECTOR_SIZE,
        ensures
            final(sector)@ == pattern_sector(self.spec_nonce(), self.spec_kind(), lba, old(sector)@.len()),
    {
        let len = sector.len();
        self.fill_at(lba, sector, 0, len);
        assert(sector@ =~= pattern_sector(self.nonce, self.kind, lba, len as nat));
    }

    /// Fills a buffer spanning consecutive sectors starting at `start_lba`,
    /// which must be a whole number of sectors of at least the minimum size.
    /// Sector `k` gets the pattern of `start_lba + k`, saturating.
    pub fn fill_range(&self, start_lba: u64, sector_size: usize, buf: &mut [u8])
        requires
            sector_size >= MIN_SECTOR_SIZE,
            old(buf)@.len() % (sector_size as nat) == 0,
        ensures
            final(buf)@.len() == old(buf)@.len(),
            forall|k: int|
                0 <= k < old(buf)@.len() / (sector_size as nat) ==> #[trigger] written(
                    final(buf)@,
                    self.spec_nonce(),
                    self.spec_kind(),
                    crate::geometry::sat_add(start_lba, k as u64),
                    k * sector_size,
                    k * sector_size,
                    k * sector_size + sector_size,
                ),
    {
        let len = buf.len();
        let count = len / sector_size;
        assert(count * sector_size == len) by (nonlinear_arith)
            requires
                count == len / sector_size,
                len % sector_size == 0,
                sector_size > 0,
        ;
        let mut k: usize = 0;
        while k < count
            invariant
                buf@.len() == len,
                count == len / sector_size,
                count * sector_size == len,
                sector_size >= MIN_SECTOR_SIZE,
                k <= count,
                forall|q: int|
                    0 <= q < k ==> #[trigger] written(
                        buf@,
                        self.nonce,
                        self.kind,
                        crate::geometry::sat_add(start_lba, q as u64),
                        q * sector_size,
                        q * sector_size,
                        q * sector_size + sector_size,
                    ),
            decreases count - k,
        {
            assert(k * sector_size + sector_size <= count * sector_size) by (nonlinear_arith)
                requires
                    k < count,
                    sector_size > 0,
            ;
            let at = k * sector_size;
            let ghost before = buf@;
            let lba = start_lba.saturating_add(k as u64);
            self.fill_at(lba, buf, at, sector_size);
            proof {
                assert forall|q: int| 0 <= q < k + 1 implies #[trigger] written(
                    buf@,
                    self.nonce,
                    self.kind,
                    crate::geometry::sat_add(start_lba, q as u64),
                    q * sector_size,
                    q * sector_size,
                    q * sector_size + sector_size,
                ) by {
                    if q < k {
                        assert(q * sector_size + sector_size <= k * sector_size) by (nonlinear_arith)
                            requires
                                q < k,
                                sector_size > 0,
                        ;
                        assert(written(
                            before,
                            self.nonce,
                            self.kind,
                            crate::geometry::sat_add(start_lba, q as u64),
                            q * sector_size,
                            q * sector_size,
                            q * sector_size + sector_size,
                        ));
                    }
                }
            }
            k = k + 1;
        }
    }

    /// Offset of the first byte from the header on that differs from what was
    /// written for `lba`, if any.
    fn first_payload_mismatch(&self, lba: u64, sector: &[u8]) -> (r: Option<usize>)
        requires
            sector@.len() >= MIN_SECTOR_SIZE,
        ensures
            r == first_mismatch(sector@, self.nonce, self.kind, lba, HEADER_LEN as int),
    {
        let len = sector.len();
        let seed = self.payload_seed(lba);
        let mut state = seed;
        let mut word: [u8; 8] = [0u8; 8];
        let mut j: usize = 0;
        while HEADER_LEN + j < len
            invariant
                len == sector@.len(),
                len >= MIN_SECTOR_SIZE,
                HEADER_LEN + j <= len,
                seed == payload_seed(self.nonce, lba),
                self.kind == PatternKind::Pseudorandom ==> state == stream_state(seed, ((j + 7) / 8) as nat),
                self.kind == PatternKind::Pseudorandom && j % 8 != 0 ==> word@ == le64(
                    stream_word(seed, (j / 8) as nat),
                ),
                first_mismatch(sector@, self.nonce, self.kind, lba, HEADER_LEN as int) == first_mismatch(
                    sector@,
                    self.nonce,
                    self.kind,
                    lba,
                    HEADER_LEN + j,
                ),
            decreases len - j,
        {
            let b = next_payload_byte(self.kind, Ghost(seed), j, &mut state, &mut word);
            proof {
                lemma_expected_byte(self.nonce, self.kind, lba, HEADER_LEN + j);
            }
            if sector[HEADER_LEN + j] != b {
                return Some(HEADER_LEN + j);
            }
            j = j + 1;
        }
        None
    }

    /// Checks a sector that was read back against the pattern expected at
    /// `lba`. Allocation-free: the expected payload is recomputed in place.
    pub fn verify_sector(&self, lba: u64, sector: &[u8]) -> (r: SectorVerdict)
        ensures
            r == verdict(self.spec_nonce(), self.spec_kind(), lba, sector@),
            r is Match ==> sector@ == pattern_sector(self.spec_nonce(), self.spec_kind(), lba, sector@.len()),
            r matches SectorVerdict::Corrupt { first_bad_offset } ==> {
                let p = pattern_sector(self.spec_nonce(), self.spec_kind(), lba, sector@.len());
                &&& HEADER_LEN <= first_bad_offset < sector@.len()
                &&& sector@[first_bad_offset as int] != p[first_bad_offset as int]
                &&& forall|i: int| 0 <= i < first_bad_offset ==> sector@[i] == #[trigger] p[i]
            },
    {
        if sector.len() < MIN_SECTOR_SIZE {
            return SectorVerdict::Foreign;
        }
        let magic = get_le64(sector, 0);
        if magic != MAGIC {
            return SectorVerdict::Foreign;
        }
        let stored_lba = get_le64(sector, 8);
        let stored_nonce = get_le64(sector, 16);
        let stored_sum = get_le64(sector, 24);
        // A header from another session, or one whose checksum does not bind,
        // proves nothing and must not be reported as aliasing.
        if stored_nonce != self.nonce || stored_sum != self.header_checksum(stored_lba) {
            return SectorVerdict::Foreign;
        }
        if stored_lba != lba {
            return SectorVerdict::Aliased { actual_lba: stored_lba };
        }
        match self.first_payload_mismatch(lba, sector) {
            Some(offset) => {
                proof {
                    lemma_corrupt_is_the_first_difference(self.nonce, self.kind, lba, sector@, offset);
                }
                SectorVerdict::Corrupt { first_bad_offset: offset }
            },
            None => {
                proof {
                    lemma_match_is_the_written_sector(self.nonce, self.kind, lba, sector@);
                }
                SectorVerdict::Match
            },
        }
    }
}

/// Payload byte `j`, drawing the generator's next word at each multiple of
/// eight.
fn next_payload_byte(kind: PatternKind, Ghost(seed): Ghost<u64>, j: usize, state: &mut u64, word: &mut [u8; 8]) -> (b: u8)
    requires
        kind == PatternKind::Pseudorandom ==> *old(state) == stream_state(seed, ((j + 7) / 8) as nat),
        kind == PatternKind::Pseudorandom && j % 8 != 0 ==> old(word)@ == le64(stream_word(seed, (j / 8) as nat)),
    ensures
        b == payload_byte(kind, seed, j as int),
        kind == PatternKind::Pseudorandom ==> *final(state) == stream_state(seed, ((j + 8) / 8) as nat),
        kind == PatternKind::Pseudorandom && (j + 1) % 8 != 0 ==> final(word)@ == le64(
            stream_word(seed, ((j + 1) / 8) as nat),
        ),
{
    match kind {
        PatternKind::Zeros => 0x00,
        PatternKind::Ones => 0xFF,
        PatternKind::Checkerboard => if j % 2 == 0 {
            0xAA
        } else {
            0x55
        },
        PatternKind::Pseudorandom => {
            if j % 8 == 0 {
                let (next, value) = splitmix64(*state);
                *state = next;
                *word = le64_bytes(value);
            }
            word[j % 8]
        },
    }
}

/// Bytes `[from, to)` of `s` hold the sector written for `lba` at `at`.
pub open spec fn written(s: Seq<u8>, nonce: u64, kind: PatternKind, lba: u64, at: int, from: int, to: int) -> bool {
    forall|i: int| from <= i < to ==> s[i] == expected_byte(nonce, kind, lba, i - at)
}

/// Eight bytes of `s` at `at` that spell `le64(v)` read back as `v`.
proof fn lemma_read_word(s: Seq<u8>, at: int, v: u64)
    requires
        0 <= at,
        at + 8 <= s.len(),
        forall|i: int| 0 <= i < 8 ==> s[at + i] == #[trigger] le64(v)[i],
    ensures
        read_le64(s, at) == v,
{
    lemma_le64_round_trip(v);
    let w = le64(v);
    assert(s[at] == w[0] && s[at + 1] == w[1] && s[at + 2] == w[2] && s[at + 3] == w[3]);
    assert(s[at + 4] == w[4] && s[at + 5] == w[5] && s[at + 6] == w[6] && s[at + 7] == w[7]);
}

/// The header of a written sector reads back as magic, LBA, nonce and
/// checksum.
proof fn lemma_header_reads_back(nonce: u64, kind: PatternKind, lba: u64, len: nat)
    requires
        len >= MIN_SECTOR_SIZE,
    ensures
        read_le64(pattern_sector(nonce, kind, lba, len), 0) == MAGIC,
        read_le64(pattern_sector(nonce, kind, lba, len), 8) == lba,
        read_le64(pattern_sector(nonce, kind, lba, len), 16) == nonce,
        read_le64(pattern_sector(nonce, kind, lba, len), 24) == header_checksum(nonce, lba),
{
    let s = pattern_sector(nonce, kind, lba, len);
    let h = header_bytes(nonce, lba);
    assert forall|i: int| 0 <= i < HEADER_LEN implies s[i] == h[i] by {
        lemma_expected_byte(nonce, kind, lba, i);
    }
    assert forall|i: int| 0 <= i < 8 implies s[i] == #[trigger] le64(MAGIC)[i] by {
        assert(s[i] == h[i]);
    }
    assert forall|i: int| 0 <= i < 8 implies s[8 + i] == #[trigger] le64(lba)[i] by {
        assert(s[8 + i] == h[8 + i]);
    }
    assert forall|i: int| 0 <= i < 8 implies s[16 + i] == #[trigger] le64(nonce)[i] by {
        assert(s[16 + i] == h[16 + i]);
    }
    assert forall|i: int| 0 <= i < 8 implies s[24 + i] == #[trigger] le64(header_checksum(nonce, lba))[i] by {
        assert(s[24 + i] == h[24 + i]);
    }
    lemma_read_word(s, 0, MAGIC);
    lemma_read_word(s, 8, lba);
    lemma_read_word(s, 16, nonce);
    lemma_read_word(s, 24, header_checksum(nonce, lba));
}

/// No byte from `j` on differs from what was written.
proof fn lemma_no_mismatch(nonce: u64, kind: PatternKind, lba: u64, len: nat, j: int)
    requires
        0 <= j,
    ensures
        first_mismatch(pattern_sector(nonce, kind, lba, len), nonce, kind, lba, j) is None,
    decreases len - j,
{
    if j < len {
        lemma_no_mismatch(nonce, kind, lba, len, j + 1);
    }
}

/// A sector read back exactly as it was written verifies as a match.
pub proof fn lemma_written_sector_verifies(nonce: u64, kind: PatternKind, lba: u64, len: nat)
    requires
        len >= MIN_SECTOR_SIZE,
    ensures
        verdict(nonce, kind, lba, pattern_sector(nonce, kind, lba, len)) == SectorVerdict::Match,
{
    lemma_header_reads_back(nonce, kind, lba, len);
    lemma_no_mismatch(nonce, kind, lba, len, HEADER_LEN as int);
}

/// A sector written for one address and returned for another is reported as
/// aliased, naming the address it was written for, whatever the payload kind.
pub proof fn lemma_alias_names_its_source(
    nonce: u64,
    written_kind: PatternKind,
    expected_kind: PatternKind,
    requested: u64,
    actual: u64,
    len: nat,
)
    requires
        len >= MIN_SECTOR_SIZE,
        requested != actual,
    ensures
        verdict(nonce, expected_kind, requested, pattern_sector(nonce, written_kind, actual, len))
            == (SectorVerdict::Aliased { actual_lba: actual }),
{
    lemma_header_reads_back(nonce, written_kind, actual, len);
}

/// A sector written in another session is never accepted as proof.
pub proof fn lemma_other_session_is_foreign(
    written_nonce: u64,
    nonce: u64,
    written_kind: PatternKind,
    kind: PatternKind,
    written_lba: u64,
    lba: u64,
    len: nat,
)
    requires
        len >= MIN_SECTOR_SIZE,
        written_nonce != nonce,
    ensures
        verdict(nonce, kind, lba, pattern_sector(written_nonce, written_kind, written_lba, len))
            == (SectorVerdict::Foreign),
{
    lemma_header_reads_back(written_nonce, written_kind, written_lba, len);
}

/// Distinct addresses never share content.
pub proof fn lemma_distinct_lbas_differ(nonce: u64, kind: PatternKind, a: u64, b: u64, len: nat)
    requires
        len >= MIN_SECTOR_SIZE,
        a != b,
    ensures
        pattern_sector(nonce, kind, a, len) != pattern_sector(nonce, kind, b, len),
{
    lemma_header_reads_back(nonce, kind, a, len);
    lemma_header_reads_back(nonce, kind, b, len);
}

/// Eight bytes whose little-endian value is `v` are the bytes of `v`.
#[verifier::spinoff_prover]
proof fn lemma_word_bytes(s: Seq<u8>, at: int, v: u64)
    requires
        0 <= at,
        at + 8 <= s.len(),
        read_le64(s, at) == v,
    ensures
        forall|i: int| 0 <= i < 8 ==> s[at + i] == #[trigger] le64(v)[i],
{
    let b0 = s[at];
    let b1 = s[at + 1];
    let b2 = s[at + 2];
    let b3 = s[at + 3];
    let b4 = s[at + 4];
    let b5 = s[at + 5];
    let b6 = s[at + 6];
    let b7 = s[at + 7];
    assert(v == b0 + 0x100 * b1 + 0x1_0000 * b2 + 0x100_0000 * b3 + 0x1_0000_0000 * b4 + 0x100_0000_0000 * b5
        + 0x1_0000_0000_0000 * b6 + 0x100_0000_0000_0000 * b7);
    assert({
        &&& (v % 0x100) as u8 == b0
        &&& ((v / 0x100) % 0x100) as u8 == b1
        &&& ((v / 0x1_0000) % 0x100) as u8 == b2
        &&& ((v / 0x100_0000) % 0x100) as u8 == b3
        &&& ((v / 0x1_0000_0000) % 0x100) as u8 == b4
        &&& ((v / 0x100_0000_0000) % 0x100) as u8 == b5
        &&& ((v / 0x1_0000_0000_0000) % 0x100) as u8 == b6
        &&& ((v / 0x100_0000_0000_0000) % 0x100) as u8 == b7
    }) by (bit_vector)
        requires
            v == b0 + 0x100 * b1 + 0x1_0000 * b2 + 0x100_0000 * b3 + 0x1_0000_0000 * b4 + 0x100_0000_0000 * b5
                + 0x1_0000_0000_0000 * b6 + 0x100_0000_0000_0000 * b7,
    ;
    let w = le64(v);
    assert forall|i: int| 0 <= i < 8 implies s[at + i] == #[trigger] le64(v)[i] by {
        assert(w[0] == b0 && w[1] == b1 && w[2] == b2 && w[3] == b3);
        assert(w[4] == b4 && w[5] == b5 && w[6] == b6 && w[7] == b7);
    }
}

/// The value a header word holds is one a `u64` can hold.
proof fn lemma_word_bounded(s: Seq<u8>, at: int)
    requires
        0 <= at,
        at + 8 <= s.len(),
    ensures
        0 <= read_le64(s, at) <= u64::MAX,
{
    let b0 = s[at];
    let b1 = s[at + 1];
    let b2 = s[at + 2];
    let b3 = s[at + 3];
    let b4 = s[at + 4];
    let b5 = s[at + 5];
    let b6 = s[at + 6];
    let b7 = s[at + 7];
    assert(b0 + 0x100 * b1 + 0x1_0000 * b2 + 0x100_0000 * b3 + 0x1_0000_0000 * b4 + 0x100_0000_0000 * b5
        + 0x1_0000_0000_0000 * b6 + 0x100_0000_0000_0000 * b7 <= u64::MAX) by (bit_vector);
}

/// No difference from `j` on means every byte from `j` on is the one
/// written.
proof fn lemma_first_mismatch_none(s: Seq<u8>, nonce: u64, kind: PatternKind, lba: u64, j: int)
    requires
        0 <= j,
        first_mismatch(s, nonce, kind, lba, j) is None,
    ensures
        forall|i: int| j <= i < s.len() ==> s[i] == #[trigger] expected_byte(nonce, kind, lba, i),
    decreases s.len() - j,
{
    if j < s.len() {
        lemma_first_mismatch_none(s, nonce, kind, lba, j + 1);
    }
}

/// The difference found from `j` on is the first byte from `j` that differs
/// from the one written.
proof fn lemma_first_mismatch_some(s: Seq<u8>, nonce: u64, kind: PatternKind, lba: u64, j: int, k: usize)
    requires
        0 <= j,
        s.len() <= usize::MAX,
        first_mismatch(s, nonce, kind, lba, j) == Some(k),
    ensures
        j <= k < s.len(),
        s[k as int] != expected_byte(nonce, kind, lba, k as int),
        forall|i: int| j <= i < k ==> s[i] == #[trigger] expected_byte(nonce, kind, lba, i),
    decreases s.len() - j,
{
    if s[j] != expected_byte(nonce, kind, lba, j) {
    } else {
        lemma_first_mismatch_some(s, nonce, kind, lba, j + 1, k);
    }
}

/// A header that passed every check is the header written for `lba`.
#[verifier::spinoff_prover]
#[verifier::rlimit(40)]
proof fn lemma_header_is_written(nonce: u64, kind: PatternKind, lba: u64, s: Seq<u8>)
    requires
        s.len() >= MIN_SECTOR_SIZE,
        read_le64(s, 0) == MAGIC,
        read_le64(s, 8) == lba,
        read_le64(s, 16) == nonce,
        read_le64(s, 24) == header_checksum(nonce, lba),
    ensures
        forall|i: int| 0 <= i < HEADER_LEN ==> s[i] == #[trigger] expected_byte(nonce, kind, lba, i),
{
    lemma_word_bytes(s, 0, MAGIC);
    lemma_word_bytes(s, 8, lba);
    lemma_word_bytes(s, 16, nonce);
    lemma_word_bytes(s, 24, header_checksum(nonce, lba));
    let h = header_bytes(nonce, lba);
    assert forall|i: int| 0 <= i < HEADER_LEN implies s[i] == #[trigger] expected_byte(nonce, kind, lba, i) by {
        lemma_expected_byte(nonce, kind, lba, i);
        if i < 8 {
            assert(h[i] == le64(MAGIC)[i]);
        } else if i < 16 {
            assert(h[i] == le64(lba)[i - 8]);
            assert(s[8 + (i - 8)] == le64(lba)[i - 8]);
        } else if i < 24 {
            assert(h[i] == le64(nonce)[i - 16]);
            assert(s[16 + (i - 16)] == le64(nonce)[i - 16]);
        } else {
            assert(h[i] == le64(header_checksum(nonce, lba))[i - 24]);
            assert(s[24 + (i - 24)] == le64(header_checksum(nonce, lba))[i - 24]);
        }
    }
}

/// A sector whose header is the one written for `lba` reads back with that
/// header.
proof fn lemma_written_header_reads(nonce: u64, kind: PatternKind, lba: u64, s: Seq<u8>)
    requires
        s.len() >= MIN_SECTOR_SIZE,
        forall|i: int| 0 <= i < HEADER_LEN ==> s[i] == #[trigger] expected_byte(nonce, kind, lba, i),
    ensures
        read_le64(s, 0) == MAGIC,
        read_le64(s, 8) == lba,
        read_le64(s, 16) == nonce,
        read_le64(s, 24) == header_checksum(nonce, lba),
{
    let p = pattern_sector(nonce, kind, lba, s.len());
    lemma_header_reads_back(nonce, kind, lba, s.len());
    assert forall|i: int| 0 <= i < HEADER_LEN implies s[i] == p[i] by {
        assert(s[i] == expected_byte(nonce, kind, lba, i));
    }
}

/// A sector is verified as a match only when it holds, byte for byte, the
/// sector written for that address.
pub proof fn lemma_match_is_the_written_sector(nonce: u64, kind: PatternKind, lba: u64, s: Seq<u8>)
    requires
        verdict(nonce, kind, lba, s) == SectorVerdict::Match,
    ensures
        s == pattern_sector(nonce, kind, lba, s.len()),
{
    lemma_word_bounded(s, 8);
    lemma_header_is_written(nonce, kind, lba, s);
    lemma_first_mismatch_none(s, nonce, kind, lba, HEADER_LEN as int);
    assert(s =~= pattern_sector(nonce, kind, lba, s.len()));
}

/// A sector reported corrupt at offset `k` holds the sector written for its
/// address up to `k`, and differs from it at `k`, inside the payload.
pub proof fn lemma_corrupt_is_the_first_difference(nonce: u64, kind: PatternKind, lba: u64, s: Seq<u8>, k: usize)
    requires
        s.len() <= usize::MAX,
        verdict(nonce, kind, lba, s) == (SectorVerdict::Corrupt { first_bad_offset: k }),
    ensures
        HEADER_LEN <= k < s.len(),
        s[k as int] != pattern_sector(nonce, kind, lba, s.len())[k as int],
        forall|i: int| 0 <= i < k ==> s[i] == #[trigger] pattern_sector(nonce, kind, lba, s.len())[i],
{
    lemma_word_bounded(s, 8);
    lemma_header_is_written(nonce, kind, lba, s);
    lemma_first_mismatch_some(s, nonce, kind, lba, HEADER_LEN as int, k);
}

/// A sector that carries the header written for `lba` but differs from what
/// was written at payload offset `k` is reported corrupt, at `k` or before.
pub proof fn lemma_damaged_payload_is_corrupt(nonce: u64, kind: PatternKind, lba: u64, s: Seq<u8>, k: int)
    requires
        MIN_SECTOR_SIZE <= s.len() <= usize::MAX,
        forall|i: int| 0 <= i < HEADER_LEN ==> s[i] == #[trigger] pattern_sector(nonce, kind, lba, s.len())[i],
        HEADER_LEN <= k < s.len(),
        s[k] != pattern_sector(nonce, kind, lba, s.len())[k],
    ensures
        verdict(nonce, kind, lba, s) matches SectorVerdict::Corrupt { first_bad_offset } && first_bad_offset <= k,
{
    let p = pattern_sector(nonce, kind, lba, s.len());
    assert forall|i: int| 0 <= i < HEADER_LEN implies s[i] == #[trigger] expected_byte(nonce, kind, lba, i) by {
        assert(s[i] == p[i]);
    }
    lemma_written_header_reads(nonce, kind, lba, s);
    match first_mismatch(s, nonce, kind, lba, HEADER_LEN as int) {
        Some(j) => {
            lemma_first_mismatch_some(s, nonce, kind, lba, HEADER_LEN as int, j);
            if j > k {
                assert(s[k] == expected_byte(nonce, kind, lba, k));
            }
        },
        None => {
            lemma_first_mismatch_none(s, nonce, kind, lba, HEADER_LEN as int);
            assert(s[k] == expected_byte(nonce, kind, lba, k));
        },
    }
}

} // verus!
