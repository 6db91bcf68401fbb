//! Diagnosis: turns a sector map into a failure classification, and from that
//! into the level of assurance the tool may honestly offer.
//!
//! Fencing bad sectors protects real data when the defect boundary is stable,
//! and protects nothing when the controller is collapsing progressively.
//! Conflating those two cases is the one way this tool could cause data loss,
//! so the distinction is explicit and carries its own type. This module
//! returns classifications and numbers, never sentences.
use vstd::prelude::*;

use crate::geometry::{max_u64, min_u64, LbaRange};
use crate::planner::{disjoint, in_address_order, insert_in_order, largest_len, len_sum, max_len};
use crate::sector_map::{
    contiguous, counts_of, lemma_contiguous_at, lemma_state_in_run, ranges_where, state_in, tiles, AliasObservation,
    Run, SectorCounts, SectorMap, SectorState,
};

verus! {

broadcast use LbaRange::lemma_ext;

/// Greatest common divisor, by Euclid's recurrence.
pub open spec fn gcd_of(a: nat, b: nat) -> nat
    decreases b,
{
    if b == 0 {
        a
    } else {
        gcd_of(b, a % b)
    }
}

/// Greatest common divisor, used to recover the wrap-around modulus.
fn gcd(a: u64, b: u64) -> (r: u64)
    ensures
        r == gcd_of(a as nat, b as nat),
{
    let mut x = a;
    let mut y = b;
    while y != 0
        invariant
            gcd_of(x as nat, y as nat) == gcd_of(a as nat, b as nat),
        decreases y,
    {
        let t = y;
        y = x % y;
        x = t;
    }
    x
}

/// `d` divides `n`.
pub open spec fn divides(d: u64, n: u64) -> bool {
    d > 0 && n % d == 0
}

/// `d` is the smallest divisor of the non-zero `n` above `floor`.
pub open spec fn least_divisor_above(n: u64, floor: u64, d: u64) -> bool {
    &&& n > 0
    &&& divides(d, n)
    &&& d > floor
    &&& forall|e: u64| divides(e, n) && e > floor ==> d <= e
}

/// `d`, or the divisor paired with it, is below `i`.
spec fn covered(n: u64, i: u64, d: u64) -> bool {
    divides(d, n) && (d < i || n / d < i)
}

proof fn lemma_cofactor(n: u64, d: u64)
    requires
        divides(d, n),
    ensures
        n / d * d == n,
        n > 0 ==> n / d > 0,
        n / d > 0 ==> divides((n / d) as u64, n) && n / (n / d) == d,
{
    assert(n / d * d == n) by (nonlinear_arith)
        requires
            d > 0,
            n % d == 0,
    ;
    if n > 0 {
        assert(n / d > 0) by (nonlinear_arith)
            requires
                n / d * d == n,
                n > 0,
                d > 0,
        ;
    }
    if n / d > 0 {
        let c = n / d;
        assert(n % c == 0 && n / c == d) by (nonlinear_arith)
            requires
                c * d == n,
                c > 0,
                d > 0,
        ;
    }
}

/// A divisor whose cofactor is `i` is `n / i`, and `i` then divides `n`.
proof fn lemma_cofactor_is(n: u64, e: u64, i: u64)
    requires
        divides(e, n),
        n / e == i,
        i > 0,
    ensures
        n % i == 0,
        e == n / i,
{
    lemma_cofactor(n, e);
    assert(n % i == 0 && e == n / i) by (nonlinear_arith)
        requires
            i * e == n,
            i > 0,
            e > 0,
    ;
}

/// Once `i * i` exceeds `n`, every divisor of `n` is covered.
proof fn lemma_all_covered(n: u64, i: u64, e: u64)
    requires
        divides(e, n),
        i * i > n,
    ensures
        covered(n, i, e),
{
    if e >= i {
        lemma_cofactor(n, e);
        let c = n / e;
        assert(c < i) by (nonlinear_arith)
            requires
                c * e == n,
                e >= i,
                i * i > n,
                c >= 0,
        ;
    }
}

/// `b` folded with the candidate `d` when `d` is above `floor`: the smaller.
spec fn merge(b: Option<u64>, d: u64, floor: u64) -> Option<u64> {
    if d > floor {
        match b {
            Some(x) => Some(if x < d { x } else { d }),
            None => Some(d),
        }
    } else {
        b
    }
}

/// `best` is the smallest covered divisor above `floor`, if any is covered.
spec fn best_ok(n: u64, floor: u64, i: u64, best: Option<u64>) -> bool {
    &&& best is None ==> forall|e: u64| covered(n, i, e) ==> e <= floor
    &&& best is Some ==> ({
        let b = best->Some_0;
        &&& covered(n, i, b)
        &&& b > floor
        &&& forall|e: u64| covered(n, i, e) && e > floor ==> b <= e
    })
}

/// Visiting `i` adds `i` and `n / i` to what is covered, when `i` divides `n`.
proof fn lemma_visit(n: u64, i: u64, e: u64)
    requires
        n > 0,
        1 <= i <= n,
        i < u64::MAX,
    ensures
        covered(n, (i + 1) as u64, e) <==> covered(n, i, e) || (n % i == 0 && (e == i || e == n / i)),
{
    if n % i == 0 {
        lemma_cofactor(n, i);
    }
    if covered(n, (i + 1) as u64, e) && !covered(n, i, e) && e != i {
        lemma_cofactor_is(n, e, i);
    }
}

proof fn lemma_best_step(n: u64, floor: u64, i: u64, best: Option<u64>)
    requires
        best_ok(n, floor, i, best),
        n > 0,
        1 <= i <= n,
        i < u64::MAX,
    ensures
        best_ok(
            n,
            floor,
            (i + 1) as u64,
            if n % i == 0 {
                merge(merge(best, i, floor), (n / i) as u64, floor)
            } else {
                best
            },
        ),
{
    let i1 = (i + 1) as u64;
    assert forall|e: u64| #[trigger] covered(n, i1, e) <==> covered(n, i, e) || (n % i == 0 && (e == i || e
        == n / i)) by {
        lemma_visit(n, i, e);
    }
    if n % i == 0 {
        lemma_cofactor(n, i);
        let b1 = merge(best, i, floor);
        let b2 = merge(b1, (n / i) as u64, floor);
        assert(covered(n, i1, i));
        assert(covered(n, i1, (n / i) as u64));
    }
}

/// Smallest divisor of `n` strictly greater than `floor`, or `None` when
/// there is none (or `n` is zero). Time proportional to the square root of `n`.
fn smallest_divisor_above(n: u64, floor: u64) -> (r: Option<u64>)
    ensures
        r is Some ==> least_divisor_above(n, floor, r->Some_0),
        r is None ==> n == 0 || forall|e: u64| divides(e, n) ==> e <= floor,
{
    if n == 0 {
        return None;
    }
    let mut best: Option<u64> = None;
    let mut i: u64 = 1;
    proof {
        assert forall|e: u64| !covered(n, 1, e) by {
            if divides(e, n) {
                lemma_cofactor(n, e);
            }
        }
    }
    while i <= n / i
        invariant
            n > 0,
            1 <= i <= 0x1_0000_0000,
            best_ok(n, floor, i, best),
        decreases n + 1 - i,
    {
        assert(i * i <= n) by (nonlinear_arith)
            requires
                i <= n / i,
                i >= 1,
        ;
        assert(i < 0x1_0000_0000 && i <= n) by (nonlinear_arith)
            requires
                i * i <= n,
                n < 0x1_0000_0000_0000_0000,
                i >= 1,
        ;
        proof {
            lemma_best_step(n, floor, i, best);
        }
        if n % i == 0 {
            let other = n / i;
            if i > floor {
                best = match best {
                    Some(b) => Some(if b < i { b } else { i }),
                    None => Some(i),
                };
            }
            if other > floor {
                best = match best {
                    Some(b) => Some(if b < other { b } else { other }),
                    None => Some(other),
                };
            }
        }
        i = i + 1;
    }
    proof {
        assert(i * i > n) by (nonlinear_arith)
            requires
                i > n / i,
                i >= 1,
        ;
        assert forall|e: u64| divides(e, n) implies covered(n, i, e) by {
            lemma_all_covered(n, i, e);
        }
    }
    best
}

/// Lowest requested address among the observations.
pub open spec fn min_requested(a: Seq<AliasObservation>) -> u64
    decreases a.len(),
{
    if a.len() == 0 {
        u64::MAX
    } else if a.last().requested_lba < min_requested(a.drop_last()) {
        a.last().requested_lba
    } else {
        min_requested(a.drop_last())
    }
}

/// Highest returned address among the observations.
pub open spec fn max_actual(a: Seq<AliasObservation>) -> u64
    decreases a.len(),
{
    if a.len() == 0 {
        0
    } else if a.last().actual_lba > max_actual(a.drop_last()) {
        a.last().actual_lba
    } else {
        max_actual(a.drop_last())
    }
}

/// Greatest common divisor of the non-zero strides.
pub open spec fn stride_gcd(a: Seq<AliasObservation>) -> nat
    decreases a.len(),
{
    if a.len() == 0 {
        0
    } else if a.last().spec_stride() > 0 {
        gcd_of(stride_gcd(a.drop_last()), a.last().spec_stride() as nat)
    } else {
        stride_gcd(a.drop_last())
    }
}

/// The capacity a wrapping card is estimated to really have: the smallest
/// divisor of the strides' common divisor above every address known to exist,
/// when that does not exceed the lowest address seen aliasing; otherwise that
/// lowest address, a guaranteed ceiling.
pub open spec fn capacity_estimate(a: Seq<AliasObservation>) -> u64 {
    let lo = min_requested(a);
    let hi = max_actual(a);
    let m = stride_gcd(a) as u64;
    if exists|d: u64| least_divisor_above(m, hi, d) && d <= lo {
        choose|d: u64| least_divisor_above(m, hi, d)
    } else {
        lo
    }
}

/// Estimates the real capacity of a card that lies about its size.
///
/// Under modular wrap-around the card returns `req mod C` for `req`, so `C`
/// divides every stride and therefore their GCD. The GCD itself can be a
/// multiple of `C`; since every returned address exists, `C` is above the
/// largest of them, and the smallest divisor of the GCD above that floor is
/// the most conservative estimate consistent with the evidence. The estimate
/// never exceeds the lowest address seen aliasing.
pub fn estimate_real_capacity(map: &SectorMap) -> (r: Option<u64>)
    ensures
        map.alias_seq().len() == 0 ==> r is None,
        map.alias_seq().len() > 0 ==> r == Some(capacity_estimate(map.alias_seq())),
        r is Some ==> r->Some_0 <= min_requested(map.alias_seq()),
        r is Some && min_requested(map.alias_seq()) > max_actual(map.alias_seq()) ==> r->Some_0 > max_actual(
            map.alias_seq(),
        ),
{
    let aliases = map.aliases();
    if aliases.len() == 0 {
        return None;
    }
    let ghost a = aliases@;
    let mut lowest: u64 = u64::MAX;
    let mut highest: u64 = 0;
    let mut modulus: u64 = 0;
    let mut i: usize = 0;
    proof {
        assert(a.take(0) =~= Seq::<AliasObservation>::empty());
    }
    while i < aliases.len()
        invariant
            a == aliases@,
            i <= a.len(),
            lowest == min_requested(a.take(i as int)),
            highest == max_actual(a.take(i as int)),
            modulus == stride_gcd(a.take(i as int)),
        decreases a.len() - i,
    {
        let o = aliases[i];
        proof {
            assert(a.take(i + 1).drop_last() == a.take(i as int));
            assert(a.take(i + 1).last() == o);
        }
        if o.requested_lba < lowest {
            lowest = o.requested_lba;
        }
        if o.actual_lba > highest {
            highest = o.actual_lba;
        }
        let s = o.stride();
        if s > 0 {
            modulus = gcd(modulus, s);
        }
        i = i + 1;
    }
    proof {
        assert(a.take(a.len() as int) == a);
    }
    let found = smallest_divisor_above(modulus, highest);
    let r = match found {
        Some(c) => if c <= lowest {
            c
        } else {
            lowest
        },
        None => lowest,
    };
    proof {
        let m = stride_gcd(a) as u64;
        assert(m == modulus);
        if let Some(c) = found {
            if c <= lowest {
                assert(least_divisor_above(m, highest, c) && c <= lowest);
                let d = choose|d: u64| least_divisor_above(m, highest, d);
                assert(d == c);
            } else {
                assert forall|d: u64| least_divisor_above(m, highest, d) implies !(d <= lowest) by {
                    assert(d == c);
                }
            }
        } else {
            assert forall|d: u64| least_divisor_above(m, highest, d) implies !(d <= lowest) by {}
        }
    }
    Some(r)
}

/// No sector of `[a, b)` is a proven defect.
pub open spec fn clean_in(runs: Seq<Run>, a: int, b: int) -> bool {
    forall|x: int| a <= x < b ==> !(#[trigger] state_in(runs, x)).spec_is_defective()
}

/// `r` is the first of the longest stretches of `[0, total)` free of proven
/// defects; the empty range at zero when every sector is defective.
pub open spec fn first_longest_clean(runs: Seq<Run>, total: u64, r: LbaRange) -> bool {
    &&& r.start() <= r.end() <= total
    &&& clean_in(runs, r.start() as int, r.end() as int)
    &&& forall|a: int, b: int|
        0 <= a <= b <= total && #[trigger] clean_in(runs, a, b) ==> b - a <= r.len()
    &&& forall|a: int, b: int|
        0 <= a <= b <= total && #[trigger] clean_in(runs, a, b) && b - a == r.len() ==> r.start() <= a
}

/// `best` is the first longest defect-free stretch ending by `e`.
spec fn best_upto(runs: Seq<Run>, e: int, best: LbaRange) -> bool {
    &&& best.start() <= best.end() <= e
    &&& clean_in(runs, best.start() as int, best.end() as int)
    &&& forall|a: int, b: int| 0 <= a <= b <= e && #[trigger] clean_in(runs, a, b) ==> b - a <= best.len()
    &&& forall|a: int, b: int|
        0 <= a <= b <= e && #[trigger] clean_in(runs, a, b) && b - a == best.len() ==> best.start() <= a
    &&& best.len() == 0 ==> best.start() == 0
}

/// `current` is the defect-free stretch ending at `e`, when there is one.
spec fn stretch_at(runs: Seq<Run>, e: int, current: Option<LbaRange>) -> bool {
    match current {
        Some(c) => {
            &&& c.start() <= c.end() == e
            &&& clean_in(runs, c.start() as int, e)
            &&& (c.start() == 0 || state_in(runs, c.start() - 1).spec_is_defective())
        },
        None => e == 0 || state_in(runs, e - 1).spec_is_defective(),
    }
}

/// A defective stretch `[e, e2)` leaves the best stretch as it was.
proof fn lemma_defective_step(runs: Seq<Run>, e: int, e2: int, best: LbaRange)
    requires
        best_upto(runs, e, best),
        0 <= e < e2,
        forall|x: int| e <= x < e2 ==> (#[trigger] state_in(runs, x)).spec_is_defective(),
    ensures
        best_upto(runs, e2, best),
        stretch_at(runs, e2, None),
{
    assert(state_in(runs, e2 - 1).spec_is_defective());
    assert forall|a: int, b: int| 0 <= a <= b <= e2 && #[trigger] clean_in(runs, a, b) implies b <= e || a == b by {
        if b > e && a < b {
            assert(state_in(runs, b - 1).spec_is_defective());
        }
    }
}

/// A defect-free stretch `[e, e2)` extends the open stretch, which replaces the
/// best one when it has grown longer.
proof fn lemma_clean_step(runs: Seq<Run>, e: int, e2: int, best: LbaRange, current: Option<LbaRange>, ext: LbaRange)
    requires
        best_upto(runs, e, best),
        stretch_at(runs, e, current),
        0 <= e < e2,
        forall|x: int| e <= x < e2 ==> !(#[trigger] state_in(runs, x)).spec_is_defective(),
        ext.end() == e2,
        ext.start() == match current {
            Some(c) => c.start(),
            None => e as u64,
        },
    ensures
        stretch_at(runs, e2, Some(ext)),
        best_upto(runs, e2, if ext.len() > best.len() { ext } else { best }),
{
    let s = ext.start() as int;
    assert(s <= e);
    assert(s == 0 || state_in(runs, s - 1).spec_is_defective());
    assert forall|x: int| s <= x < e2 implies !(#[trigger] state_in(runs, x)).spec_is_defective() by {
        if x < e {
            let c = current->Some_0;
            assert(clean_in(runs, c.start() as int, e));
        }
    }
    // A stretch reaching past `e` cannot start before the open stretch.
    assert forall|a: int, b: int| 0 <= a <= b <= e2 && #[trigger] clean_in(runs, a, b) && b > e implies a >= s by {
        if a < s {
            assert(!state_in(runs, s - 1).spec_is_defective());
        }
    }
    if ext.len() <= best.len() && best.len() > 0 && s < e {
        assert(clean_in(runs, s, e));
        if best.start() > s {
            assert(false);
        }
    }
}

/// Largest contiguous run free of any proven defect: the first of the longest
/// ones. It counts never-inspected space too, so it authorises nothing on its
/// own; it answers where a full scan is worth spending.
pub fn largest_defect_free_run(map: &SectorMap) -> (r: LbaRange)
    ensures
        first_longest_clean(map.run_seq(), map.total(), r),
{
    proof {
        use_type_invariant(map);
        map.lemma_wf();
    }
    let runs = map.runs();
    let ghost rs = map.run_seq();
    let mut best = LbaRange::from_bounds(0, 0);
    let mut current: Option<LbaRange> = None;
    let mut i: usize = 0;
    let ghost mut e: int = 0;
    proof {
        lemma_contiguous_at(rs, 0);
        assert forall|a: int, b: int| 0 <= a <= b <= 0 && #[trigger] clean_in(rs, a, b) implies b - a <= best.len() by {}
    }
    while i < runs.len()
        invariant
            rs == runs@,
            rs == map.run_seq(),
            tiles(rs, map.total()),
            i <= rs.len(),
            i < rs.len() ==> e == rs[i as int].range.start(),
            i == rs.len() ==> e == map.total(),
            0 <= e,
            best_upto(rs, e, best),
            stretch_at(rs, e, current),
        decreases rs.len() - i,
    {
        let run = runs[i];
        proof {
            lemma_contiguous_at(rs, i as int);
            assert forall|x: int| run.range.start() <= x < run.range.end() implies #[trigger] state_in(rs, x)
                == run.state by {
                lemma_state_in_run(rs, i as int, x);
            }
        }
        let ghost e2 = run.range.end() as int;
        if run.state.is_defective() {
            proof {
                lemma_defective_step(rs, e, e2, best);
            }
            current = None;
        } else {
            let extended = match current {
                Some(c) => LbaRange::from_bounds(c.start(), run.range.end()),
                None => run.range,
            };
            proof {
                if current is Some {
                    LbaRange::lemma_spec_bounds(current->Some_0.start(), run.range.end());
                }
                lemma_clean_step(rs, e, e2, best, current, extended);
            }
            if extended.len() > best.len() {
                best = extended;
            }
            current = Some(extended);
        }
        proof {
            e = e2;
        }
        i = i + 1;
    }
    best
}

/// The part two ranges share, when they share a sector.
pub open spec fn meet(a: LbaRange, b: LbaRange) -> Option<LbaRange> {
    let lo = max_u64(a.start(), b.start());
    let hi = min_u64(a.end(), b.end());
    if lo < hi {
        Some(LbaRange::spec_bounds(lo, hi))
    } else {
        None
    }
}

/// The parts of `r` shared with the runs of `prev` that were verified good,
/// in the order of those runs.
pub open spec fn meets(r: LbaRange, prev: Seq<Run>) -> Seq<LbaRange>
    decreases prev.len(),
{
    if prev.len() == 0 {
        Seq::empty()
    } else {
        let m = meets(r, prev.drop_last());
        let p = prev.last();
        if p.state == SectorState::Good && meet(p.range, r) is Some {
            m.push(meet(p.range, r)->Some_0)
        } else {
            m
        }
    }
}

/// For each defective run of `cur`, in order, the parts of it that `prev`
/// had verified good.
pub open spec fn regressions(cur: Seq<Run>, prev: Seq<Run>) -> Seq<LbaRange>
    decreases cur.len(),
{
    if cur.len() == 0 {
        Seq::empty()
    } else {
        let m = regressions(cur.drop_last(), prev);
        if cur.last().state.spec_is_defective() {
            m + meets(cur.last().range, prev)
        } else {
            m
        }
    }
}

/// `v` clipped to `[lo, hi]`.
spec fn clip(v: int, lo: int, hi: int) -> int {
    if v < lo {
        lo
    } else if v > hi {
        hi
    } else {
        v
    }
}

/// The regions that regressed and the number of sectors in them.
fn collect_regressions(previous: &SectorMap, current: &SectorMap) -> (r: (Vec<LbaRange>, u64))
    ensures
        in_address_order(r.0@, regressions(current.run_seq(), previous.run_seq())),
        r.1 == len_sum(regressions(current.run_seq(), previous.run_seq())),
        separated(r.0@),
        forall|k: int| 0 <= k < r.0@.len() ==> (#[trigger] r.0@[k]).end() <= current.total(),
{
    proof {
        use_type_invariant(current);
        use_type_invariant(previous);
        current.lemma_wf();
        previous.lemma_wf();
    }
    let cur = current.runs();
    let prev = previous.runs();
    let ghost cs = cur@;
    let ghost ps = prev@;
    let mut out: Vec<LbaRange> = Vec::new();
    let mut sum: u64 = 0;
    let mut i: usize = 0;
    proof {
        assert(cs.take(0) =~= Seq::<Run>::empty());
        lemma_contiguous_at(cs, 0);
    }
    while i < cur.len()
        invariant
            cs == cur@,
            ps == prev@,
            tiles(cs, current.total()),
            tiles(ps, previous.total()),
            i <= cs.len(),
            in_address_order(out@, regressions(cs.take(i as int), ps)),
            sum == len_sum(regressions(cs.take(i as int), ps)),
            sum <= if i == 0 { 0 } else { cs[i - 1].range.end() as int },
            separated(out@),
            forall|x: LbaRange| #[trigger] out@.contains(x) ==> x.end() <= if i == 0 { 0 } else { cs[i - 1].range.end() as int },
        decreases cs.len() - i,
    {
        let run = cur[i];
        proof {
            lemma_contiguous_at(cs, i as int);
            if i > 0 {
                lemma_contiguous_at(cs, i - 1);
            }
            assert(cs.take(i + 1).drop_last() == cs.take(i as int));
            assert(cs.take(i + 1).last() == run);
        }
        let ghost base = regressions(cs.take(i as int), ps);
        if run.state.is_defective() {
            let lo = run.range.start();
            let hi = run.range.end();
            let mut j: usize = 0;
            proof {
                assert(ps.take(0) =~= Seq::<Run>::empty());
                assert(base + meets(run.range, ps.take(0)) =~= base);
                lemma_contiguous_at(ps, 0);
            }
            while j < prev.len()
                invariant
                    cs == cur@,
                    ps == prev@,
                    tiles(ps, previous.total()),
                    j <= ps.len(),
                    lo == run.range.start(),
                    hi == run.range.end(),
                    lo < hi,
                    in_address_order(out@, base + meets(run.range, ps.take(j as int))),
                    sum == len_sum(base + meets(run.range, ps.take(j as int))),
                    separated(out@),
                    forall|x: LbaRange| #[trigger] out@.contains(x) ==> x.end() <= hi && x.end() <= (if j == 0 {
                        lo as int
                    } else {
                        max_u64(lo, ps[j - 1].range.end()) as int
                    }),
                    sum <= lo + clip(if j == 0 { 0 } else { ps[j - 1].range.end() as int }, lo as int, hi as int) - lo,
                decreases ps.len() - j,
            {
                let p = prev[j];
                proof {
                    lemma_contiguous_at(ps, j as int);
                    if j > 0 {
                        lemma_contiguous_at(ps, j - 1);
                    }
                    assert(ps.take(j + 1).drop_last() == ps.take(j as int));
                    assert(ps.take(j + 1).last() == p);
                }
                let ghost before = base + meets(run.range, ps.take(j as int));
                if p.state == SectorState::Good {
                    match p.range.intersection(&run.range) {
                        Some(overlap) => {
                            proof {
                                let m = meet(p.range, run.range);
                                LbaRange::lemma_spec_bounds(
                                    max_u64(p.range.start(), run.range.start()),
                                    min_u64(p.range.end(), run.range.end()),
                                );
                                assert(m == Some(overlap));
                                assert(base + meets(run.range, ps.take(j + 1)) =~= before.push(overlap));
                                assert(before.push(overlap).drop_last() == before);
                            }
                            proof {
                                if j > 0 {
                                    assert(ps[j - 1].range.end() == p.range.start());
                                }
                                assert forall|k: int| 0 <= k < out@.len() implies disjoint(#[trigger] out@[k], overlap) by {
                                    assert(out@.contains(out@[k]));
                                }
                            }
                            let ghost old_out = out@;
                            insert_in_order(&mut out, overlap, Ghost(before));
                            proof {
                                assert forall|x: LbaRange| #[trigger] out@.contains(x) implies x.end() <= hi && x.end() <= max_u64(
                                    lo,
                                    ps[j as int].range.end(),
                                ) by {
                                    if x != overlap {
                                        assert(old_out.contains(x));
                                    }
                                }
                                assert forall|k: int| 0 <= k < out@.len() implies (#[trigger] out@[k]).start() < out@[k].end() by {
                                    assert(out@.contains(out@[k]));
                                    if out@[k] != overlap {
                                        assert(old_out.contains(out@[k]));
                                        let m = choose|m: int| 0 <= m < old_out.len() && old_out[m] == out@[k];
                                        assert(old_out[m].start() < old_out[m].end());
                                    }
                                }
                            }
                            sum = sum + overlap.len();
                        },
                        None => {
                            proof {
                                assert(meets(run.range, ps.take(j + 1)) == meets(run.range, ps.take(j as int)));
                            }
                        },
                    }
                } else {
                    proof {
                        assert(meets(run.range, ps.take(j + 1)) == meets(run.range, ps.take(j as int)));
                    }
                }
                j = j + 1;
            }
            proof {
                assert(ps.take(ps.len() as int) == ps);
                assert(regressions(cs.take(i + 1), ps) == base + meets(run.range, ps));
            }
        } else {
            proof {
                assert(regressions(cs.take(i + 1), ps) == base);
            }
        }
        i = i + 1;
    }
    proof {
        assert(cs.take(cs.len() as int) == cs);
        assert forall|k: int| 0 <= k < out@.len() implies (#[trigger] out@[k]).end() <= current.total() by {
            assert(out@.contains(out@[k]));
        }
    }
    (out, sum)
}

/// Every range is non-empty and no two share a sector.
pub open spec fn separated(s: Seq<LbaRange>) -> bool {
    &&& forall|k: int| 0 <= k < s.len() ==> (#[trigger] s[k]).start() < s[k].end()
    &&& forall|i: int, j: int| 0 <= i < s.len() && 0 <= j < s.len() && i != j ==> disjoint(#[trigger] s[i], #[trigger] s[j])
}

/// Sorted by start, non-empty and sharing no sector, ranges start in
/// strictly increasing order.
proof fn lemma_separated_increasing(s: Seq<LbaRange>)
    requires
        separated(s),
        crate::planner::sorted_by_start(s),
    ensures
        forall|i: int, j: int| 0 <= i < j < s.len() ==> (#[trigger] s[i]).start() < (#[trigger] s[j]).start(),
{
    assert forall|i: int, j: int| 0 <= i < j < s.len() implies (#[trigger] s[i]).start() < (#[trigger] s[j]).start() by {
        assert(disjoint(s[i], s[j]));
        assert(s[i].start() < s[i].end() && s[j].start() < s[j].end());
    }
}

/// Two sequences whose starts strictly increase and which hold the same
/// ranges, as many of them, are the same sequence.
proof fn lemma_increasing_unique(s: Seq<LbaRange>, t: Seq<LbaRange>)
    requires
        s.len() == t.len(),
        forall|x: LbaRange| s.contains(x) <==> t.contains(x),
        forall|i: int, j: int| 0 <= i < j < s.len() ==> (#[trigger] s[i]).start() < (#[trigger] s[j]).start(),
        forall|i: int, j: int| 0 <= i < j < t.len() ==> (#[trigger] t[i]).start() < (#[trigger] t[j]).start(),
    ensures
        s == t,
    decreases s.len(),
{
    if s.len() == 0 {
        assert(s =~= t);
        return;
    }
    assert(s.contains(s[0]));
    assert(t.contains(t[0]));
    let k = choose|k: int| 0 <= k < t.len() && t[k] == s[0];
    let m = choose|m: int| 0 <= m < s.len() && s[m] == t[0];
    if k > 0 {
        assert(t[0].start() < t[k].start());
        if m > 0 {
            assert(s[0].start() < s[m].start());
        }
        assert(false);
    }
    assert(s[0] == t[0]);
    let s1 = s.drop_first();
    let t1 = t.drop_first();
    assert forall|x: LbaRange| s1.contains(x) <==> t1.contains(x) by {
        if s1.contains(x) {
            let i = choose|i: int| 0 <= i < s1.len() && s1[i] == x;
            assert(s[i + 1] == x);
            assert(s.contains(x));
            let j = choose|j: int| 0 <= j < t.len() && t[j] == x;
            assert(s[0].start() < s[i + 1].start());
            assert(j != 0);
            assert(t1[j - 1] == x);
        }
        if t1.contains(x) {
            let i = choose|i: int| 0 <= i < t1.len() && t1[i] == x;
            assert(t[i + 1] == x);
            assert(t.contains(x));
            let j = choose|j: int| 0 <= j < s.len() && s[j] == x;
            assert(t[0].start() < t[i + 1].start());
            assert(j != 0);
            assert(s1[j - 1] == x);
        }
    }
    assert forall|i: int, j: int| 0 <= i < j < s1.len() implies (#[trigger] s1[i]).start() < (#[trigger] s1[j]).start() by {
        assert(s1[i] == s[i + 1] && s1[j] == s[j + 1]);
    }
    assert forall|i: int, j: int| 0 <= i < j < t1.len() implies (#[trigger] t1[i]).start() < (#[trigger] t1[j]).start() by {
        assert(t1[i] == t[i + 1] && t1[j] == t[j + 1]);
    }
    lemma_increasing_unique(s1, t1);
    assert(s =~= seq![s[0]] + s1);
    assert(t =~= seq![t[0]] + t1);
}

/// Holding the ranges of `t` in address order, without overlap, fixes a
/// list: two such lists are the same list.
pub proof fn lemma_address_order_unique(s1: Seq<LbaRange>, s2: Seq<LbaRange>, t: Seq<LbaRange>)
    requires
        in_address_order(s1, t),
        in_address_order(s2, t),
        separated(s1),
        separated(s2),
    ensures
        s1 == s2,
{
    lemma_separated_increasing(s1);
    lemma_separated_increasing(s2);
    lemma_increasing_unique(s1, s2);
}

/// Some range of `s` holds sector `l`.
pub open spec fn holds_sector(s: Seq<LbaRange>, l: int) -> bool {
    exists|i: int| 0 <= i < s.len() && (#[trigger] s[i]).start() <= l < s[i].end()
}

/// Runs tile `[runs[0].start, runs.last().end)`, and `l` lies in that span.
pub open spec fn within_runs(runs: Seq<Run>, l: int) -> bool {
    runs.len() > 0 && runs[0].range.start() <= l < runs.last().range.end()
}

proof fn lemma_covered_push(s: Seq<LbaRange>, x: LbaRange, l: int)
    ensures
        holds_sector(s.push(x), l) <==> holds_sector(s, l) || x.start() <= l < x.end(),
{
    let t = s.push(x);
    if holds_sector(s, l) {
        let i = choose|i: int| 0 <= i < s.len() && (#[trigger] s[i]).start() <= l < s[i].end();
        assert(t[i] == s[i]);
    }
    if x.start() <= l < x.end() {
        assert(t[s.len() as int] == x);
    }
    if holds_sector(t, l) {
        let i = choose|i: int| 0 <= i < t.len() && (#[trigger] t[i]).start() <= l < t[i].end();
        if i < s.len() {
            assert(t[i] == s[i]);
        }
    }
}

proof fn lemma_covered_concat(a: Seq<LbaRange>, b: Seq<LbaRange>, l: int)
    ensures
        holds_sector(a + b, l) <==> holds_sector(a, l) || holds_sector(b, l),
{
    let t = a + b;
    if holds_sector(a, l) {
        let i = choose|i: int| 0 <= i < a.len() && (#[trigger] a[i]).start() <= l < a[i].end();
        assert(t[i] == a[i]);
    }
    if holds_sector(b, l) {
        let i = choose|i: int| 0 <= i < b.len() && (#[trigger] b[i]).start() <= l < b[i].end();
        assert(t[a.len() + i] == b[i]);
    }
    if holds_sector(t, l) {
        let i = choose|i: int| 0 <= i < t.len() && (#[trigger] t[i]).start() <= l < t[i].end();
        if i < a.len() {
            assert(t[i] == a[i]);
        } else {
            assert(t[i] == b[i - a.len()]);
        }
    }
}

/// Dropping the last of contiguous runs leaves them contiguous.
proof fn lemma_contiguous_prefix(runs: Seq<Run>)
    requires
        contiguous(runs),
        runs.len() > 0,
    ensures
        contiguous(runs.drop_last()),
{
    reveal(contiguous);
    let p = runs.drop_last();
    assert forall|i: int| 0 <= i < p.len() implies (#[trigger] p[i]).range.start() < p[i].range.end() by {
        assert(p[i] == runs[i]);
    }
    assert forall|i: int| 0 <= i < p.len() - 1 implies #[trigger] p[i].range.end() == p[i + 1].range.start() by {
        assert(p[i] == runs[i]);
        assert(p[i + 1] == runs[i + 1]);
    }
}

/// In contiguous runs the first starts no later than the last.
proof fn lemma_first_before_last(runs: Seq<Run>)
    requires
        contiguous(runs),
        runs.len() > 0,
    ensures
        runs[0].range.start() <= runs.last().range.start(),
    decreases runs.len(),
{
    if runs.len() > 1 {
        let p = runs.drop_last();
        lemma_contiguous_prefix(runs);
        lemma_first_before_last(p);
        assert(p[p.len() - 1] == runs[runs.len() - 2]);
        assert(p[0] == runs[0]);
        lemma_contiguous_at(runs, runs.len() - 2);
    }
}

/// The parts of `r` that runs verified good hold sector `l` exactly when `r`
/// holds it and the runs, covering it, call it good.
proof fn lemma_meets_covered(r: LbaRange, prev: Seq<Run>, l: int)
    requires
        contiguous(prev),
    ensures
        holds_sector(meets(r, prev), l) <==> (r.start() <= l < r.end() && within_runs(prev, l) && state_in(prev, l)
            == SectorState::Good),
    decreases prev.len(),
{
    if prev.len() == 0 {
        return;
    }
    let p = prev.drop_last();
    let last = prev.last();
    lemma_contiguous_prefix(prev);
    lemma_meets_covered(r, p, l);
    lemma_contiguous_at(prev, prev.len() - 1);
    if p.len() > 0 {
        lemma_contiguous_at(prev, prev.len() - 2);
        assert(p.last() == prev[prev.len() - 2]);
        assert(p[0] == prev[0]);
        lemma_first_before_last(prev);
    }
    let m = meets(r, p);
    let lo = max_u64(last.range.start(), r.start());
    let hi = min_u64(last.range.end(), r.end());
    if lo < hi {
        LbaRange::lemma_spec_bounds(lo, hi);
    }
    if last.state == SectorState::Good && meet(last.range, r) is Some {
        lemma_covered_push(m, meet(last.range, r)->Some_0, l);
        assert(meets(r, prev) == m.push(meet(last.range, r)->Some_0));
    } else {
        assert(meets(r, prev) == m);
    }
    if l >= last.range.start() {
        assert(state_in(prev, l) == last.state);
        if p.len() > 0 {
            assert(!within_runs(p, l));
        }
    } else {
        assert(state_in(prev, l) == state_in(p, l));
    }
}

/// The regressions of `cur` against `prev` hold sector `l` exactly when `cur`
/// calls it defective and `prev` called it good.
proof fn lemma_regressions_covered(cur: Seq<Run>, prev: Seq<Run>, l: int)
    requires
        contiguous(cur),
        contiguous(prev),
    ensures
        holds_sector(regressions(cur, prev), l) <==> (within_runs(cur, l) && state_in(cur, l).spec_is_defective()
            && within_runs(prev, l) && state_in(prev, l) == SectorState::Good),
    decreases cur.len(),
{
    if cur.len() == 0 {
        return;
    }
    let p = cur.drop_last();
    let last = cur.last();
    lemma_contiguous_prefix(cur);
    lemma_regressions_covered(p, prev, l);
    lemma_meets_covered(last.range, prev, l);
    lemma_contiguous_at(cur, cur.len() - 1);
    if p.len() > 0 {
        lemma_contiguous_at(cur, cur.len() - 2);
        assert(p.last() == cur[cur.len() - 2]);
        assert(p[0] == cur[0]);
        lemma_first_before_last(cur);
    }
    if last.state.spec_is_defective() {
        lemma_covered_concat(regressions(p, prev), meets(last.range, prev), l);
    }
}

/// A sector lies in a region that regressed between two passes exactly when
/// the earlier pass verified it good and the later one found it defective.
pub proof fn lemma_regressions_exact(previous: SectorMap, current: SectorMap, l: int)
    requires
        previous.wf(),
        current.wf(),
        0 <= l < previous.total(),
        l < current.total(),
    ensures
        holds_sector(regressions(current.run_seq(), previous.run_seq()), l) <==> (previous.state(l) == SectorState::Good
            && current.state(l).spec_is_defective()),
{
    lemma_regressions_covered(current.run_seq(), previous.run_seq(), l);
}

/// Regions that passed in `previous` and failed in `current`, in address
/// order. The comparison is the only way to separate a stable card from a
/// collapsing one: a single map carries no time dimension.
pub fn newly_failed_regions(previous: &SectorMap, current: &SectorMap) -> (r: Vec<LbaRange>)
    ensures
        in_address_order(r@, regressions(current.run_seq(), previous.run_seq())),
        forall|l: int|
            0 <= l < previous.total() && l < current.total() ==> (#[trigger] holds_sector(r@, l) <==> (previous.state(l)
                == SectorState::Good && current.state(l).spec_is_defective())),
        separated(r@),
        forall|k: int| 0 <= k < r@.len() ==> (#[trigger] r@[k]).end() <= current.total(),
        previous.spec_geometry() == current.spec_geometry() && (forall|l: int|
            0 <= l < current.total() ==> !(previous.state(l) == SectorState::Good && #[trigger] current.state(
                l,
            ).spec_is_defective())) ==> r@.len() == 0,
{
    let (regions, _) = collect_regressions(previous, current);
    proof {
        use_type_invariant(previous);
        use_type_invariant(current);
        previous.lemma_wf();
        current.lemma_wf();
        let t = regressions(current.run_seq(), previous.run_seq());
        assert forall|l: int| 0 <= l < previous.total() && l < current.total() implies (#[trigger] holds_sector(regions@, l)
            <==> (previous.state(l) == SectorState::Good && current.state(l).spec_is_defective())) by {
            lemma_regressions_exact(*previous, *current, l);
            if holds_sector(regions@, l) {
                let i = choose|i: int| 0 <= i < regions@.len() && (#[trigger] regions@[i]).start() <= l < regions@[i].end();
                assert(regions@.contains(regions@[i]));
                assert(t.contains(regions@[i]));
                let j = choose|j: int| 0 <= j < t.len() && t[j] == regions@[i];
                assert(t[j].start() <= l < t[j].end());
            }
            if holds_sector(t, l) {
                let j = choose|j: int| 0 <= j < t.len() && (#[trigger] t[j]).start() <= l < t[j].end();
                assert(t.contains(t[j]));
                assert(regions@.contains(t[j]));
                let i = choose|i: int| 0 <= i < regions@.len() && regions@[i] == t[j];
                assert(regions@[i].start() <= l < regions@[i].end());
            }
        }
    }
    proof {
        if previous.spec_geometry() == current.spec_geometry() && regions@.len() > 0 && (forall|l: int|
            0 <= l < current.total() ==> !(previous.state(l) == SectorState::Good && #[trigger] current.state(
                l,
            ).spec_is_defective())) {
            let l = regions@[0].start() as int;
            assert(regions@[0].start() <= l < regions@[0].end());
            assert(holds_sector(regions@, l));
            assert(current.state(l).spec_is_defective());
        }
    }
    regions
}

/// Nature of the device's failure.
#[derive(Debug, Clone, PartialEq, Eq)]
pub enum FailureScenario {
    /// No defect found in the inspected area.
    Pristine,
    /// The card lies about its own capacity: it accepts addresses that do not
    /// exist and remaps them into the real area. The boundary is set by
    /// firmware rather than wear, so fencing the real region resolves it.
    CounterfeitCapacity {
        /// Estimated real capacity, in sectors.
        real_capacity_sectors: u64,
        /// Capacity advertised by the device, in sectors.
        reported_capacity_sectors: u64,
        /// How many independent aliasing observations support the conclusion.
        evidence_count: usize,
    },
    /// The translation layer has exhausted its spare blocks: two passes
    /// produced the same defects, which suggests stability at the end of the
    /// card's service life.
    ExhaustedSpare {
        /// Number of distinct defective regions.
        defect_regions: usize,
    },
    /// The device is deteriorating during the inspection itself: sectors that
    /// passed one pass failed the next. No layout protects against this.
    ActivelyDegrading {
        /// Sectors that passed the first verification and failed the second.
        newly_failed_sectors: u64,
        /// Regions where the degradation appeared.
        newly_failed_regions: Vec<LbaRange>,
    },
    /// Defects exist, but only one pass was run: the two cases above cannot
    /// be told apart.
    Indeterminate {
        /// Number of distinct defective regions.
        defect_regions: usize,
    },
    /// The scan did not cover the whole device, so nothing can be concluded
    /// about it as a whole. Silence is never presented as evidence.
    NotProven {
        /// Sectors the scan never reached.
        unverified_sectors: u64,
        /// Defects found regardless; these are real.
        defect_regions: usize,
    },
}

/// Stable identifier of each scenario.
pub open spec fn scenario_kind(s: FailureScenario) -> &'static str {
    match s {
        FailureScenario::Pristine => "pristine",
        FailureScenario::CounterfeitCapacity { .. } => "counterfeit_capacity",
        FailureScenario::ExhaustedSpare { .. } => "exhausted_spare",
        FailureScenario::ActivelyDegrading { .. } => "actively_degrading",
        FailureScenario::Indeterminate { .. } => "indeterminate",
        FailureScenario::NotProven { .. } => "not_proven",
    }
}

impl FailureScenario {
    /// Stable identifier for serialization and presentation lookup.
    pub fn kind(&self) -> (r: &'static str)
        ensures
            r@ == scenario_kind(*self)@,
    {
        match self {
            FailureScenario::Pristine => "pristine",
            FailureScenario::CounterfeitCapacity { .. } => "counterfeit_capacity",
            FailureScenario::ExhaustedSpare { .. } => "exhausted_spare",
            FailureScenario::ActivelyDegrading { .. } => "actively_degrading",
            FailureScenario::Indeterminate { .. } => "indeterminate",
            FailureScenario::NotProven { .. } => "not_proven",
        }
    }
}

/// How far the result can be trusted after fencing. There is deliberately no
/// "guaranteed" level: no software can guarantee integrity on hardware that
/// has already shown a defect. Ordered from worst to best.
#[derive(Debug, Clone, Copy, PartialEq, Eq, PartialOrd, Ord, Hash, Structural)]
pub enum Assurance {
    /// No basis for any claim: the card is collapsing, or nothing was verified.
    NoBasis,
    /// Fencing helps, but the defect boundary may move.
    Low,
    /// Defects appear stable; fencing is a solid mitigation.
    Moderate,
    /// Boundary set by firmware rather than wear: fencing addresses the cause.
    High,
}

/// Stable identifier of each level.
pub open spec fn assurance_name(a: Assurance) -> &'static str {
    match a {
        Assurance::NoBasis => "none",
        Assurance::Low => "low",
        Assurance::Moderate => "moderate",
        Assurance::High => "high",
    }
}

impl Assurance {
    /// Stable identifier for serialization and presentation lookup.
    pub fn as_str(&self) -> (r: &'static str)
        ensures
            r@ == assurance_name(*self)@,
    {
        match self {
            Assurance::NoBasis => "none",
            Assurance::Low => "low",
            Assurance::Moderate => "moderate",
            Assurance::High => "high",
        }
    }
}

/// Complete diagnosis of a device.
#[derive(Debug, Clone, PartialEq, Eq)]
pub struct HealthReport {
    /// Nature of the failure.
    pub scenario: FailureScenario,
    /// Level of assurance achievable through fencing.
    pub assurance: Assurance,
    /// Sector counts per state.
    pub counts: SectorCounts,
    /// Largest contiguous verified-good area, in sectors.
    pub largest_usable_sectors: u64,
    /// Largest contiguous run free of any proven defect. It includes
    /// never-inspected area and so authorises nothing on its own.
    pub largest_defect_free: LbaRange,
    /// Whether fencing is worth offering for this device.
    pub isolation_is_worthwhile: bool,
}

/// Number of distinct defective regions of a map.
pub open spec fn defect_region_count(map: SectorMap) -> int {
    ranges_where(map.run_seq(), |s: SectorState| s.spec_is_defective()).len() as int
}

/// Length of the largest verified-good run of a map.
pub open spec fn largest_usable(map: SectorMap) -> u64 {
    max_len(ranges_where(map.run_seq(), |s: SectorState| s.spec_is_usable()))
}

/// A run whose state `f` accepts has its range among `ranges_where(runs, f)`.
proof fn lemma_ranges_where_has(runs: Seq<Run>, f: spec_fn(SectorState) -> bool, k: int)
    requires
        0 <= k < runs.len(),
        f(runs[k].state),
    ensures
        ranges_where(runs, f).contains(runs[k].range),
    decreases runs.len(),
{
    let p = runs.drop_last();
    if k == runs.len() - 1 {
        assert(ranges_where(runs, f).last() == runs[k].range);
    } else {
        assert(p[k] == runs[k]);
        lemma_ranges_where_has(p, f, k);
        let i = choose|i: int| 0 <= i < ranges_where(p, f).len() && ranges_where(p, f)[i] == runs[k].range;
        if f(runs.last().state) {
            assert(ranges_where(runs, f)[i] == ranges_where(p, f)[i]);
        }
    }
}

/// Every range of `ranges_where(runs, f)` is the range of a run `f` accepts.
proof fn lemma_ranges_where_from(runs: Seq<Run>, f: spec_fn(SectorState) -> bool, i: int) -> (k: int)
    requires
        0 <= i < ranges_where(runs, f).len(),
    ensures
        0 <= k < runs.len(),
        runs[k].range == ranges_where(runs, f)[i],
        f(runs[k].state),
    decreases runs.len(),
{
    let p = runs.drop_last();
    if f(runs.last().state) && i == ranges_where(runs, f).len() - 1 {
        runs.len() - 1
    } else {
        if f(runs.last().state) {
            assert(ranges_where(runs, f)[i] == ranges_where(p, f)[i]);
        }
        let k = lemma_ranges_where_from(p, f, i);
        assert(p[k] == runs[k]);
        k
    }
}

/// Every sector of `[a, b)`, on the device, is verified good.
pub open spec fn good_stretch(m: SectorMap, a: int, b: int) -> bool {
    &&& 0 <= a <= b <= m.total()
    &&& forall|l: int| a <= l < b ==> #[trigger] m.state(l) == SectorState::Good
}

/// The largest usable length is that of the longest stretch of good sectors:
/// no stretch of good sectors on the device is longer, and when it is not
/// zero, a stretch of good sectors of exactly that length exists.
pub proof fn lemma_largest_usable_is_longest(m: SectorMap)
    requires
        m.wf(),
    ensures
        forall|a: int, b: int| #[trigger] good_stretch(m, a, b) ==> b - a <= largest_usable(m),
        largest_usable(m) > 0 ==> exists|a: int| #[trigger] good_stretch(m, a, a + largest_usable(m)),
        largest_usable(m) == 0 ==> forall|l: int| 0 <= l < m.total() ==> #[trigger] m.state(l) != SectorState::Good,
{
    let runs = m.run_seq();
    let f = |s: SectorState| s.spec_is_usable();
    let rw = ranges_where(runs, f);
    assert(largest_usable(m) == max_len(rw));
    crate::planner::lemma_max_len_is_maximum(rw);
    assert forall|a: int, b: int| #[trigger] good_stretch(m, a, b) implies b - a <= largest_usable(m) by {
        if a < b {
            let k = crate::sector_map::lemma_lba_in_some_run(runs, a);
            lemma_state_in_run(runs, k, a);
            assert(m.state(a) == SectorState::Good);
            if runs[k].range.end() < b {
                let c = runs[k].range.end() as int;
                lemma_contiguous_at(runs, k);
                assert(k + 1 < runs.len()) by {
                    if k + 1 >= runs.len() {
                        assert(runs[k] == runs.last());
                    }
                }
                crate::sector_map::lemma_coalesced_at(runs, k);
                lemma_contiguous_at(runs, k + 1);
                lemma_state_in_run(runs, k + 1, c);
                assert(m.state(c) == SectorState::Good);
                assert(false);
            }
            lemma_ranges_where_has(runs, f, k);
            let i = choose|i: int| 0 <= i < rw.len() && rw[i] == runs[k].range;
            assert(rw[i].len() <= max_len(rw));
            lemma_contiguous_at(runs, k);
        }
    }
    if largest_usable(m) > 0 {
        let i = choose|i: int| 0 <= i < rw.len() && max_len(rw) == (#[trigger] rw[i]).len();
        let k = lemma_ranges_where_from(runs, f, i);
        lemma_contiguous_at(runs, k);
        if k < runs.len() - 1 {
            crate::sector_map::lemma_runs_ordered(runs, k, runs.len() - 1);
            lemma_contiguous_at(runs, runs.len() - 1);
        }
        let a = runs[k].range.start() as int;
        assert forall|l: int| a <= l < a + largest_usable(m) implies #[trigger] m.state(l) == SectorState::Good by {
            lemma_state_in_run(runs, k, l);
        }
        assert(good_stretch(m, a, a + largest_usable(m)));
    } else {
        assert forall|l: int| 0 <= l < m.total() implies #[trigger] m.state(l) != SectorState::Good by {
            if m.state(l) == SectorState::Good {
                assert(forall|x: int| l <= x < l + 1 ==> #[trigger] m.state(x) == SectorState::Good);
                assert(good_stretch(m, l, l + 1));
            }
        }
    }
}

/// What the diagnosis concludes: scenario, assurance and whether fencing is
/// worth offering, checked in order of precedence. Aliasing comes first, being
/// the only evidence of a root cause; then any sector nobody inspected, which
/// denies every verdict about the card as a whole (though the area that was
/// verified is still worth using); then the absence of defects; then, with an
/// earlier pass to compare against, stable or regressing defects.
pub open spec fn diagnosis_holds(current: SectorMap, previous: Option<SectorMap>, r: HealthReport) -> bool {
    let counts = counts_of(current.run_seq(), 0, current.total() as int);
    let regions = defect_region_count(current) as usize;
    let aliases = current.alias_seq();
    if aliases.len() > 0 {
        &&& r.scenario == FailureScenario::CounterfeitCapacity {
            real_capacity_sectors: capacity_estimate(aliases),
            reported_capacity_sectors: current.total(),
            evidence_count: aliases.len() as usize,
        }
        &&& r.assurance == Assurance::High
        &&& r.isolation_is_worthwhile
    } else if counts.untested > 0 {
        &&& r.scenario == FailureScenario::NotProven { unverified_sectors: counts.untested, defect_regions: regions }
        &&& r.assurance == Assurance::NoBasis
        &&& r.isolation_is_worthwhile == (largest_usable(current) > 0)
    } else if counts.spec_defective() == 0 {
        &&& r.scenario == FailureScenario::Pristine
        &&& r.assurance == Assurance::High
        &&& !r.isolation_is_worthwhile
    } else {
        match previous {
            None => {
                &&& r.scenario == FailureScenario::Indeterminate { defect_regions: regions }
                &&& r.assurance == Assurance::Low
                &&& r.isolation_is_worthwhile
            },
            Some(prev) => {
                let reg = regressions(current.run_seq(), prev.run_seq());
                if reg.len() == 0 {
                    &&& r.scenario == FailureScenario::ExhaustedSpare { defect_regions: regions }
                    &&& r.assurance == Assurance::Moderate
                    &&& r.isolation_is_worthwhile
                } else {
                    &&& r.scenario matches FailureScenario::ActivelyDegrading {
                        newly_failed_sectors,
                        newly_failed_regions,
                    }
                    &&& newly_failed_sectors == len_sum(reg)
                    &&& in_address_order(newly_failed_regions@, reg)
                    &&& separated(newly_failed_regions@)
                    &&& r.assurance == Assurance::NoBasis
                    &&& !r.isolation_is_worthwhile
                }
            },
        }
    }
}

/// Classifies a device from its current map and, when available, an earlier
/// pass for temporal comparison.
pub fn diagnose(current: &SectorMap, previous: Option<&SectorMap>) -> (r: HealthReport)
    ensures
        r.counts == counts_of(current.run_seq(), 0, current.total() as int),
        r.largest_usable_sectors == largest_usable(*current),
        forall|a: int, b: int| #[trigger] good_stretch(*current, a, b) ==> b - a <= r.largest_usable_sectors,
        r.largest_usable_sectors > 0 ==> exists|a: int| #[trigger] good_stretch(*current, a, a + r.largest_usable_sectors),
        first_longest_clean(current.run_seq(), current.total(), r.largest_defect_free),
        diagnosis_holds(
            *current,
            match previous {
                Some(p) => Some(*p),
                None => None,
            },
            r,
        ),
{
    let counts = current.counts();
    let usable = current.usable_ranges();
    let largest_usable_sectors = largest_len(&usable);
    proof {
        use_type_invariant(current);
        current.lemma_wf();
        lemma_largest_usable_is_longest(*current);
    }
    let largest_defect_free = largest_defect_free_run(current);
    let defect_regions = current.defective_ranges().len();
    let aliases = current.aliases();
    if aliases.len() > 0 {
        let reported = current.geometry().total_sectors();
        let estimate = match estimate_real_capacity(current) {
            Some(c) => c,
            None => reported,
        };
        return HealthReport {
            scenario: FailureScenario::CounterfeitCapacity {
                real_capacity_sectors: estimate,
                reported_capacity_sectors: reported,
                evidence_count: aliases.len(),
            },
            assurance: Assurance::High,
            counts,
            largest_usable_sectors,
            largest_defect_free,
            isolation_is_worthwhile: true,
        };
    }
    if counts.untested > 0 {
        return HealthReport {
            scenario: FailureScenario::NotProven { unverified_sectors: counts.untested, defect_regions },
            assurance: Assurance::NoBasis,
            counts,
            largest_usable_sectors,
            largest_defect_free,
            isolation_is_worthwhile: largest_usable_sectors > 0,
        };
    }
    if counts.defective() == 0 {
        return HealthReport {
            scenario: FailureScenario::Pristine,
            assurance: Assurance::High,
            counts,
            largest_usable_sectors,
            largest_defect_free,
            isolation_is_worthwhile: false,
        };
    }
    match previous {
        Some(prev) => {
            let (regions, newly_failed_sectors) = collect_regressions(prev, current);
            if regions.len() == 0 {
                HealthReport {
                    scenario: FailureScenario::ExhaustedSpare { defect_regions },
                    assurance: Assurance::Moderate,
                    counts,
                    largest_usable_sectors,
                    largest_defect_free,
                    isolation_is_worthwhile: true,
                }
            } else {
                HealthReport {
                    scenario: FailureScenario::ActivelyDegrading {
                        newly_failed_sectors,
                        newly_failed_regions: regions,
                    },
                    assurance: Assurance::NoBasis,
                    counts,
                    largest_usable_sectors,
                    largest_defect_free,
                    isolation_is_worthwhile: false,
                }
            }
        },
        None => HealthReport {
            scenario: FailureScenario::Indeterminate { defect_regions },
            assurance: Assurance::Low,
            counts,
            largest_usable_sectors,
            largest_defect_free,
            isolation_is_worthwhile: true,
        },
    }
}

/// Every sector of `x` lies in `r` and was verified good according to `ps`.
spec fn good_part_of(x: LbaRange, r: LbaRange, ps: Seq<Run>) -> bool {
    forall|lba: int|
        x.start() <= lba < x.end() ==> r.start() <= lba < r.end() && #[trigger] state_in(ps, lba)
            == SectorState::Good
}

/// Every sector of `x` was verified good according to `ps` and holds a proven
/// defect according to `cs`.
pub open spec fn regressed(x: LbaRange, cs: Seq<Run>, ps: Seq<Run>) -> bool {
    forall|lba: int|
        x.start() <= lba < x.end() ==> state_in(ps, lba) == SectorState::Good && (#[trigger] state_in(
            cs,
            lba,
        )).spec_is_defective()
}

/// Every part `meets` reports lies in `r` and in a run of `ps` verified good.
proof fn lemma_meets_inside(r: LbaRange, ps: Seq<Run>, k: int)
    requires
        contiguous(ps),
        0 <= k <= ps.len(),
    ensures
        forall|n: int| 0 <= n < meets(r, ps.take(k)).len() ==> good_part_of(#[trigger] meets(r, ps.take(k))[n], r, ps),
    decreases k,
{
    if k > 0 {
        lemma_meets_inside(r, ps, k - 1);
        let s = ps.take(k);
        assert(s.drop_last() == ps.take(k - 1));
        assert(s.last() == ps[k - 1]);
        let p = ps[k - 1];
        let m = meets(r, ps.take(k - 1));
        let cur = meets(r, s);
        if p.state == SectorState::Good && meet(p.range, r) is Some {
            let x = meet(p.range, r)->Some_0;
            LbaRange::lemma_spec_bounds(max_u64(p.range.start(), r.start()), min_u64(p.range.end(), r.end()));
            assert(good_part_of(x, r, ps)) by {
                assert forall|lba: int| x.start() <= lba < x.end() implies r.start() <= lba < r.end() && #[trigger] state_in(ps, lba)
                    == SectorState::Good by {
                    lemma_state_in_run(ps, k - 1, lba);
                }
            }
            assert forall|n: int| 0 <= n < cur.len() implies good_part_of(#[trigger] cur[n], r, ps) by {
                if n < m.len() {
                    assert(cur[n] == m[n]);
                }
            }
        } else {
            assert(cur == m);
        }
    }
}

/// Every region `regressions` reports regressed.
proof fn lemma_regressions_inside(cs: Seq<Run>, ps: Seq<Run>, k: int)
    requires
        contiguous(cs),
        contiguous(ps),
        0 <= k <= cs.len(),
    ensures
        forall|n: int| 0 <= n < regressions(cs.take(k), ps).len() ==> regressed(#[trigger] regressions(cs.take(k), ps)[n], cs, ps),
    decreases k,
{
    if k > 0 {
        lemma_regressions_inside(cs, ps, k - 1);
        let s = cs.take(k);
        assert(s.drop_last() == cs.take(k - 1));
        assert(s.last() == cs[k - 1]);
        let c = cs[k - 1];
        let m = regressions(cs.take(k - 1), ps);
        let cur = regressions(s, ps);
        if c.state.spec_is_defective() {
            lemma_meets_inside(c.range, ps, ps.len() as int);
            assert(ps.take(ps.len() as int) == ps);
            let tail = meets(c.range, ps);
            assert forall|n: int| 0 <= n < cur.len() implies regressed(#[trigger] cur[n], cs, ps) by {
                if n < m.len() {
                    assert(cur[n] == m[n]);
                } else {
                    let x = tail[n - m.len()];
                    assert(cur[n] == x);
                    assert(good_part_of(x, c.range, ps));
                    assert forall|lba: int| x.start() <= lba < x.end() implies state_in(ps, lba) == SectorState::Good
                        && (#[trigger] state_in(cs, lba)).spec_is_defective() by {
                        assert(state_in(ps, lba) == SectorState::Good);
                        lemma_state_in_run(cs, k - 1, lba);
                    }
                }
            }
        } else {
            assert(cur == m);
        }
    }
}

/// Every sector of a region reported as newly failed was verified good in the
/// earlier pass and holds a proven defect in the later one.
pub proof fn lemma_newly_failed_sectors_regressed(previous: SectorMap, current: SectorMap)
    requires
        previous.wf(),
        current.wf(),
    ensures
        forall|n: int|
            0 <= n < regressions(current.run_seq(), previous.run_seq()).len() ==> regressed(
                #[trigger] regressions(current.run_seq(), previous.run_seq())[n],
                current.run_seq(),
                previous.run_seq(),
            ),
{
    let cs = current.run_seq();
    lemma_regressions_inside(cs, previous.run_seq(), cs.len() as int);
    assert(cs.take(cs.len() as int) == cs);
}

/// A run of a map meets no other run of the same map.
proof fn lemma_meets_self_disjoint(rs: Seq<Run>, i: int, k: int)
    requires
        contiguous(rs),
        0 <= i < rs.len(),
        rs[i].state.spec_is_defective(),
        0 <= k <= rs.len(),
    ensures
        meets(rs[i].range, rs.take(k)).len() == 0,
    decreases k,
{
    if k > 0 {
        lemma_meets_self_disjoint(rs, i, k - 1);
        let s = rs.take(k);
        assert(s.drop_last() == rs.take(k - 1));
        assert(s.last() == rs[k - 1]);
        let j = k - 1;
        if rs[j].state == SectorState::Good {
            if j < i {
                crate::sector_map::lemma_runs_ordered(rs, j, i);
            } else {
                crate::sector_map::lemma_runs_ordered(rs, i, j);
            }
            assert(meet(rs[j].range, rs[i].range) is None);
        }
    }
}

proof fn lemma_regressions_self_empty(rs: Seq<Run>, k: int)
    requires
        contiguous(rs),
        0 <= k <= rs.len(),
    ensures
        regressions(rs.take(k), rs).len() == 0,
    decreases k,
{
    if k > 0 {
        lemma_regressions_self_empty(rs, k - 1);
        let s = rs.take(k);
        assert(s.drop_last() == rs.take(k - 1));
        assert(s.last() == rs[k - 1]);
        if rs[k - 1].state.spec_is_defective() {
            lemma_meets_self_disjoint(rs, k - 1, rs.len() as int);
            assert(rs.take(rs.len() as int) == rs);
        }
    }
}

/// A defect that was already there is not degradation: a map compared with
/// itself shows no newly failed region.
pub proof fn lemma_no_regression_against_itself(map: SectorMap)
    requires
        map.wf(),
    ensures
        regressions(map.run_seq(), map.run_seq()).len() == 0,
{
    let rs = map.run_seq();
    lemma_regressions_self_empty(rs, rs.len() as int);
    assert(rs.take(rs.len() as int) == rs);
}

} // verus!
