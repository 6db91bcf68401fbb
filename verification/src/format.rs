//! Byte counts as a person reads them.
//!
//! Decimal units (kB, MB, GB, TB) rather than binary ones, as card packaging
//! prints them: a "32 GB" card reads as 32 GB, not 29.8 GiB. Below a
//! kilobyte the count is printed exactly; above, to two decimals, rounded
//! half up, computed in integers.
use vstd::prelude::*;
use vstd::string::StringExecFns;

use crate::text::{append_decimal, append_digit, decimal_chars, digit_char};

verus! {

/// Index of the unit a count is shown in: bytes, kB, MB, GB or TB.
pub open spec fn unit_of(count: u64) -> nat {
    if count < 1_000 {
        0
    } else if count < 1_000_000 {
        1
    } else if count < 1_000_000_000 {
        2
    } else if count < 1_000_000_000_000 {
        3
    } else {
        4
    }
}

/// Bytes in one of the unit at index `u`.
pub open spec fn unit_size(u: nat) -> nat {
    if u == 0 {
        1
    } else if u == 1 {
        1_000
    } else if u == 2 {
        1_000_000
    } else if u == 3 {
        1_000_000_000
    } else {
        1_000_000_000_000
    }
}

/// Name of the unit at index `u`.
pub open spec fn unit_name(u: nat) -> Seq<char> {
    if u == 0 {
        "B"@
    } else if u == 1 {
        "kB"@
    } else if u == 2 {
        "MB"@
    } else if u == 3 {
        "GB"@
    } else {
        "TB"@
    }
}

/// Hundredths of the unit a count is shown in, rounded half up.
pub open spec fn hundredths(count: u64) -> nat {
    let c = count as nat;
    let d = unit_size(unit_of(count));
    (c / d) * 100 + ((c % d) * 100 + d / 2) / d
}

/// How `count` bytes are written.
pub open spec fn bytes_text(count: u64) -> Seq<char> {
    let u = unit_of(count);
    if u == 0 {
        decimal_chars(count as nat) + " B"@
    } else {
        let h = hundredths(count);
        decimal_chars(h / 100) + seq!['.', digit_char(((h % 100) / 10) as int), digit_char((h % 10) as int), ' ']
            + unit_name(u)
    }
}

/// Formats a byte count in decimal units.
pub fn bytes(count: u64) -> (r: String)
    ensures
        r@ == bytes_text(count),
{
    if count < 1_000 {
        let mut s = String::new();
        append_decimal(&mut s, count);
        s.append(" B");
        proof {
            reveal_strlit(" B");
        }
        return s;
    }
    let (d, name): (u64, &str) = if count < 1_000_000 {
        (1_000, "kB")
    } else if count < 1_000_000_000 {
        (1_000_000, "MB")
    } else if count < 1_000_000_000_000 {
        (1_000_000_000, "GB")
    } else {
        (1_000_000_000_000, "TB")
    };
    assert(d == unit_size(unit_of(count)));
    assert(name@ == unit_name(unit_of(count)));
    let whole = count / d;
    let rem = count % d;
    assert(whole <= u64::MAX / 1_000) by (nonlinear_arith)
        requires
            whole == count / d,
            d >= 1_000,
    ;
    assert(rem * 100 + d / 2 <= 1_000_000_000_000 * 100 + 500_000_000_000) by (nonlinear_arith)
        requires
            rem < d,
            d <= 1_000_000_000_000,
    ;
    let num = rem * 100 + d / 2;
    let frac = num / d;
    assert(frac <= 100) by (nonlinear_arith)
        requires
            frac == num / d,
            num == rem * 100 + d / 2,
            rem < d,
            d >= 1_000,
    ;
    let h = whole * 100 + frac;
    let mut s = String::new();
    append_decimal(&mut s, h / 100);
    crate::text::push_char(&mut s, '.');
    append_digit(&mut s, (h % 100) / 10);
    append_digit(&mut s, h % 10);
    crate::text::push_char(&mut s, ' ');
    s.append(name);
    proof {
        assert(h == hundredths(count));
        assert(s@ =~= bytes_text(count));
    }
    s
}

} // verus!
