//! What is remembered about a card between sessions.
//!
//! A full inspection of a large card takes hours; having paid that once, a
//! user should not pay it again to try a different layout on the same
//! findings. A record is a map of where to look, never a certificate: flash
//! degrades and the translation layer remaps, so a loaded record restores the
//! picture and the planning, and the area it covers is verified again before
//! any data partition is written from it.
//!
//! It also carries the partition table that was on the card before this
//! program first wrote one, which is what makes fencing reversible.
use vstd::prelude::*;
use vstd::string::{StringExecFns, StringSliceAdditionalSpecFns};

use crate::sector_map::SectorMap;

verus! {

/// Bytes of a master boot record.
pub const TABLE_BYTES: usize = 512;

/// Seconds since the Unix epoch on the system clock, or zero when the clock
/// reads before it. Nothing is promised of the value: it is the time.
#[verifier::external_body]
fn unix_now() -> u64 {
    std::time::SystemTime::now().duration_since(std::time::UNIX_EPOCH).map(|d| d.as_secs()).unwrap_or(0)
}

/// What is known about one card, from one earlier session.
#[derive(Debug, Clone, PartialEq, Eq)]
pub struct CardRecord {
    /// Identity of the card this describes: model, vendor, serial, geometry.
    /// Checked on load, since disk indices are recycled.
    pub fingerprint: String,
    /// When the inspection finished, in seconds since the Unix epoch. Shown
    /// beside the record rather than used to expire it.
    pub scanned_at: u64,
    /// The measured state of every sector.
    pub map: SectorMap,
    /// The partition table found before this program first wrote one, if it
    /// was ever captured.
    pub table_before: Option<Vec<u8>>,
}

/// The age of a record scanned at `scanned_at` when the clock reads `now`:
/// `None` for a record from the future, which means the clock moved.
pub open spec fn age_at(scanned_at: u64, now: u64) -> Option<u64> {
    if now >= scanned_at {
        Some((now - scanned_at) as u64)
    } else {
        None
    }
}

impl CardRecord {
    /// Builds a record for a map just measured, stamped with the current time.
    pub fn new(fingerprint: &str, map: SectorMap) -> (r: Self)
        ensures
            r.fingerprint@ == fingerprint@,
            r.map == map,
            r.table_before is None,
    {
        CardRecord { fingerprint: String::from_str(fingerprint), scanned_at: unix_now(), map, table_before: None }
    }

    /// Attaches the table that was on the card before this program wrote one:
    /// the first 512 bytes given, kept only the first time, so that the way
    /// back leads to the card's own table rather than one this program wrote.
    pub fn remember_table(&mut self, bytes: &[u8])
        ensures
            final(self).fingerprint == old(self).fingerprint,
            final(self).scanned_at == old(self).scanned_at,
            final(self).map == old(self).map,
            (old(self).table_before is None && bytes@.len() >= TABLE_BYTES) ==> final(self).table_before is Some
                && final(self).table_before->Some_0@ == bytes@.subrange(0, TABLE_BYTES as int),
            !(old(self).table_before is None && bytes@.len() >= TABLE_BYTES) ==> final(self).table_before == old(
                self,
            ).table_before,
    {
        if self.table_before.is_none() && bytes.len() >= TABLE_BYTES {
            let mut table: Vec<u8> = Vec::new();
            let mut i: usize = 0;
            while i < TABLE_BYTES
                invariant
                    i <= TABLE_BYTES,
                    bytes@.len() >= TABLE_BYTES,
                    table@ == bytes@.subrange(0, i as int),
                decreases TABLE_BYTES - i,
            {
                table.push(bytes[i]);
                i = i + 1;
                assert(table@ =~= bytes@.subrange(0, i as int));
            }
            self.table_before = Some(table);
        }
    }

    /// The age of the record when the clock reads `now`.
    pub fn age_at(&self, now: u64) -> (r: Option<u64>)
        ensures
            r == age_at(self.scanned_at, now),
    {
        now.checked_sub(self.scanned_at)
    }

    /// Seconds elapsed since the inspection, or `None` if the clock disagrees.
    pub fn age_seconds(&self) -> (r: Option<u64>)
        ensures
            exists|now: u64| r == age_at(self.scanned_at, now),
    {
        let now = unix_now();
        self.age_at(now)
    }

    /// Whether this record describes the given card.
    pub fn matches(&self, fingerprint: &str) -> (r: bool)
        ensures
            r == (self.fingerprint@ == fingerprint@),
    {
        let other = String::from_str(fingerprint);
        self.fingerprint == other
    }
}

/// Reasons a record could not be stored or retrieved.
#[derive(Debug, Clone, PartialEq, Eq)]
pub enum HistoryError {
    /// The underlying storage refused the operation.
    Unavailable(String),
    /// A stored record could not be read back as one.
    Corrupt(String),
    /// The record on file describes a different card.
    WrongCard,
}

/// Where records are kept: an interface, so that remembering a card stays free of
/// any particular storage.
pub trait CardHistory {
    /// The record for a card, if one was kept and still matches it.
    fn load(&self, fingerprint: &str) -> Result<Option<CardRecord>, HistoryError>;

    /// Stores a record, replacing any earlier one for the same card.
    fn save(&self, record: &CardRecord) -> Result<(), HistoryError>;

    /// Discards what is known about a card.
    fn forget(&self, fingerprint: &str) -> Result<(), HistoryError>;
}

/// The first record kept for `fingerprint`, if any.
pub open spec fn first_for(records: Seq<CardRecord>, fingerprint: Seq<char>) -> Option<int>
    decreases records.len(),
{
    if records.len() == 0 {
        None
    } else {
        match first_for(records.drop_last(), fingerprint) {
            Some(i) => Some(i),
            None => if records.last().fingerprint@ == fingerprint {
                Some(records.len() - 1)
            } else {
                None
            },
        }
    }
}

/// The records kept for other cards than `fingerprint`, in order.
pub open spec fn without(records: Seq<CardRecord>, fingerprint: Seq<char>) -> Seq<CardRecord>
    decreases records.len(),
{
    if records.len() == 0 {
        Seq::empty()
    } else if records.last().fingerprint@ == fingerprint {
        without(records.drop_last(), fingerprint)
    } else {
        without(records.drop_last(), fingerprint).push(records.last())
    }
}

proof fn lemma_first_for_bounds(records: Seq<CardRecord>, fingerprint: Seq<char>)
    ensures
        first_for(records, fingerprint) is Some ==> 0 <= first_for(records, fingerprint)->Some_0 < records.len()
            && records[first_for(records, fingerprint)->Some_0].fingerprint@ == fingerprint,
    decreases records.len(),
{
    if records.len() > 0 {
        lemma_first_for_bounds(records.drop_last(), fingerprint);
    }
}

/// The record kept for `fingerprint`, found among `records`.
pub fn find_record(records: &Vec<CardRecord>, fingerprint: &str) -> (r: Option<CardRecord>)
    ensures
        r is Some <==> first_for(records@, fingerprint@) is Some,
        r is Some ==> ({
            let k = first_for(records@, fingerprint@)->Some_0;
            &&& r->Some_0.fingerprint@ == records@[k].fingerprint@
            &&& r->Some_0.scanned_at == records@[k].scanned_at
            &&& r->Some_0.map.run_seq() == records@[k].map.run_seq()
            &&& r->Some_0.map.alias_seq() == records@[k].map.alias_seq()
            &&& r->Some_0.map.spec_geometry() == records@[k].map.spec_geometry()
        }),
{
    let mut i: usize = 0;
    proof {
        assert(records@.take(0) =~= Seq::<CardRecord>::empty());
    }
    while i < records.len()
        invariant
            i <= records@.len(),
            first_for(records@.take(i as int), fingerprint@) is None,
        decreases records@.len() - i,
    {
        proof {
            assert(records@.take(i + 1).drop_last() == records@.take(i as int));
        }
        if records[i].matches(fingerprint) {
            proof {
                lemma_first_for_prefix(records@, fingerprint@, i as int);
            }
            let r = &records[i];
            let found = CardRecord {
                fingerprint: r.fingerprint.clone(),
                scanned_at: r.scanned_at,
                map: r.map.clone(),
                table_before: r.table_before.clone(),
            };
            return Some(found);
        }
        i = i + 1;
    }
    proof {
        assert(records@.take(records@.len() as int) == records@);
    }
    None
}

/// Once a prefix holds no match and the next record matches, it is the first.
proof fn lemma_first_for_prefix(records: Seq<CardRecord>, fingerprint: Seq<char>, i: int)
    requires
        0 <= i < records.len(),
        first_for(records.take(i), fingerprint) is None,
        records[i].fingerprint@ == fingerprint,
    ensures
        first_for(records, fingerprint) == Some(i),
    decreases records.len(),
{
    if records.len() == i + 1 {
        assert(records.drop_last() == records.take(i));
    } else {
        let d = records.drop_last();
        assert(d.take(i) == records.take(i));
        lemma_first_for_prefix(d, fingerprint, i);
    }
}

/// Drops every record kept for `fingerprint`, keeping the others in order.
pub fn forget_record(records: &mut Vec<CardRecord>, fingerprint: &str)
    ensures
        final(records)@ == without(old(records)@, fingerprint@),
{
    let ghost start = records@;
    let ghost mut k: int = 0;
    let mut i: usize = 0;
    proof {
        assert(start.take(0) =~= Seq::<CardRecord>::empty());
        assert(records@.take(0) =~= without(start.take(0), fingerprint@));
        assert(records@.skip(0) =~= start.skip(0));
    }
    while i < records.len()
        invariant
            0 <= k <= start.len(),
            i <= records@.len(),
            records@.take(i as int) == without(start.take(k), fingerprint@),
            records@.skip(i as int) == start.skip(k),
            records@.len() - i == start.len() - k,
        decreases records@.len() - i,
    {
        let ghost before = records@;
        proof {
            assert(start.take(k + 1).drop_last() =~= start.take(k));
            assert(start.take(k + 1).last() == start[k]);
            assert(before[i as int] == before.skip(i as int)[0]);
            assert(start[k] == start.skip(k)[0]);
            assert forall|j: int| 0 <= j < before.len() - i implies #[trigger] before.skip(i as int)[j] == start.skip(
                k,
            )[j] by {}
        }
        if records[i].matches(fingerprint) {
            let _gone = records.remove(i);
            proof {
                assert(records@.take(i as int) =~= before.take(i as int));
                assert forall|j: int| 0 <= j < records@.len() - i implies #[trigger] records@.skip(i as int)[j]
                    == start.skip(k + 1)[j] by {
                    assert(records@[i + j] == before[i + j + 1]);
                    assert(before.skip(i as int)[j + 1] == start.skip(k)[j + 1]);
                }
                assert(records@.skip(i as int) =~= start.skip(k + 1));
                k = k + 1;
            }
        } else {
            proof {
                assert(records@.take(i + 1) =~= before.take(i as int).push(before[i as int]));
                assert forall|j: int| 0 <= j < records@.len() - (i + 1) implies #[trigger] records@.skip(i + 1)[j]
                    == start.skip(k + 1)[j] by {
                    assert(before.skip(i as int)[j + 1] == start.skip(k)[j + 1]);
                }
                assert(records@.skip(i + 1) =~= start.skip(k + 1));
                k = k + 1;
            }
            i = i + 1;
        }
    }
    proof {
        assert(k == start.len());
        assert(start.take(k) =~= start);
        assert(records@.take(i as int) =~= records@);
    }
}

/// Stores `record`, replacing every earlier one for the same card.
pub fn store_record(records: &mut Vec<CardRecord>, record: CardRecord)
    ensures
        final(records)@ == without(old(records)@, record.fingerprint@).push(record),
{
    forget_record(records, record.fingerprint.as_str());
    records.push(record);
}

/// std's mutual-exclusion lock, holding the records of a shared store.
#[verifier::external_type_specification]
#[verifier::external_body]
#[verifier::reject_recursive_types(T)]
pub struct ExMutex<T: ?Sized>(std::sync::Mutex<T>);

/// The guard of a held lock.
#[verifier::external_type_specification]
#[verifier::external_body]
#[verifier::reject_recursive_types(T)]
pub struct ExMutexGuard<'a, T: ?Sized + 'a>(std::sync::MutexGuard<'a, T>);

/// `Mutex::new`: a lock holding `v`. Nothing is stated of what another thread
/// may later find inside.
#[verifier::external_body]
fn new_lock(v: Vec<CardRecord>) -> std::sync::Mutex<Vec<CardRecord>> {
    std::sync::Mutex::new(v)
}

/// `Mutex::lock`: the guard, or `None` when a thread panicked while holding
/// the lock.
#[verifier::external_body]
fn lock(m: &std::sync::Mutex<Vec<CardRecord>>) -> Option<std::sync::MutexGuard<'_, Vec<CardRecord>>> {
    m.lock().ok()
}

/// `DerefMut` of the guard: the records behind the held lock. What they are
/// depends on every thread that held it before, so nothing is stated of them.
#[verifier::external_body]
fn guarded<'a, 'b>(g: &'a mut std::sync::MutexGuard<'b, Vec<CardRecord>>) -> &'a mut Vec<CardRecord> {
    &mut *g
}

/// An in-memory history, for tests and for a session that must not persist.
#[derive(Debug)]
pub struct MemoryHistory {
    records: std::sync::Mutex<Vec<CardRecord>>,
}

impl Default for MemoryHistory {
    fn default() -> Self {
        MemoryHistory { records: new_lock(Vec::new()) }
    }
}

fn poisoned() -> (r: HistoryError)
    ensures
        r matches HistoryError::Unavailable(s) && s@ == "poisoned"@,
{
    proof {
        reveal_strlit("poisoned");
    }
    HistoryError::Unavailable(String::from_str("poisoned"))
}

impl CardHistory for MemoryHistory {
    /// The record found is one for this card; the only failure is a lock
    /// that a panicking thread left poisoned.
    fn load(&self, fingerprint: &str) -> (r: Result<Option<CardRecord>, HistoryError>)
        ensures
            r matches Ok(Some(c)) ==> c.fingerprint@ == fingerprint@,
            r matches Err(e) ==> (e matches HistoryError::Unavailable(s) && s@ == "poisoned"@),
    {
        match lock(&self.records) {
            Some(mut guard) => {
                let records = guarded(&mut guard);
                let found = find_record(records, fingerprint);
                proof {
                    lemma_first_for_bounds(records@, fingerprint@);
                }
                Ok(found)
            },
            None => Err(poisoned()),
        }
    }

    /// Fails only on a poisoned lock.
    fn save(&self, record: &CardRecord) -> (r: Result<(), HistoryError>)
        ensures
            r matches Err(e) ==> (e matches HistoryError::Unavailable(s) && s@ == "poisoned"@),
    {
        match lock(&self.records) {
            Some(mut guard) => {
                let records = guarded(&mut guard);
                store_record(records, record.clone());
                Ok(())
            },
            None => Err(poisoned()),
        }
    }

    /// Fails only on a poisoned lock.
    fn forget(&self, fingerprint: &str) -> (r: Result<(), HistoryError>)
        ensures
            r matches Err(e) ==> (e matches HistoryError::Unavailable(s) && s@ == "poisoned"@),
    {
        match lock(&self.records) {
            Some(mut guard) => {
                let records = guarded(&mut guard);
                forget_record(records, fingerprint);
                Ok(())
            },
            None => Err(poisoned()),
        }
    }
}

/// The lower-case hexadecimal digit of `d`.
pub open spec fn hex_digit(d: int) -> char {
    if d < 10 {
        ('0' as int + d) as char
    } else {
        ('a' as int + d - 10) as char
    }
}

/// The last `n` hexadecimal digits of `v`, most significant first.
pub open spec fn hex_digits(v: u64, n: nat) -> Seq<char>
    decreases n,
{
    if n == 0 {
        Seq::empty()
    } else {
        hex_digits(v / 16, (n - 1) as nat).push(hex_digit((v % 16) as int))
    }
}

fn hex_char(d: u64) -> (r: char)
    requires
        d < 16,
    ensures
        r == hex_digit(d as int),
{
    if d < 10 {
        (('0' as u8) + (d as u8)) as char
    } else {
        (('a' as u8) + (d as u8) - 10) as char
    }
}

/// Appends the last `n` hexadecimal digits of `v`.
fn push_hex(s: &mut String, v: u64, n: usize)
    ensures
        final(s)@ == old(s)@ + hex_digits(v, n as nat),
    decreases n,
{
    if n > 0 {
        push_hex(s, v / 16, n - 1);
        crate::text::push_char(s, hex_char(v % 16));
        proof {
            assert(old(s)@ + hex_digits(v / 16, (n - 1) as nat) + seq![hex_digit((v % 16) as int)] =~= old(s)@
                + hex_digits(v, n as nat));
        }
    } else {
        assert(old(s)@ + hex_digits(v, 0) =~= old(s)@);
    }
}

/// A short, stable, filename-safe digest of a fingerprint: FNV-1a of its
/// bytes, as sixteen lower-case hexadecimal digits. A collision is caught by
/// the fingerprint check on load.
pub fn digest(text: &str) -> (r: String)
    ensures
        r@ == hex_digits(crate::apply::fnv1a(text.spec_bytes()), 16),
{
    let h = crate::apply::fnv1a_of(text);
    let mut s = String::new();
    push_hex(&mut s, h, 16);
    assert(s@ =~= hex_digits(h, 16));
    s
}

} // verus!
