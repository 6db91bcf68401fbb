//! Text helpers shared by the modules that build names, fingerprints and
//! descriptions: decimal numbers, whitespace trimming, prefix tests and
//! ASCII case folding, each stated over the characters of the text.
use vstd::prelude::*;
use vstd::string::{StrSliceExecFns, StringExecFns};

use crate::format::{bytes, bytes_text};
use crate::safety::{SafetyBlock, SafetyWarning};

verus! {

/// The character of decimal digit `d`.
pub open spec fn digit_char(d: int) -> char {
    if d == 0 {
        '0'
    } else if d == 1 {
        '1'
    } else if d == 2 {
        '2'
    } else if d == 3 {
        '3'
    } else if d == 4 {
        '4'
    } else if d == 5 {
        '5'
    } else if d == 6 {
        '6'
    } else if d == 7 {
        '7'
    } else if d == 8 {
        '8'
    } else {
        '9'
    }
}

/// `n` written in decimal.
pub open spec fn decimal_chars(n: nat) -> Seq<char>
    decreases n,
{
    if n < 10 {
        seq![digit_char(n as int)]
    } else {
        decimal_chars(n / 10) + seq![digit_char((n % 10) as int)]
    }
}

pub fn append_digit(s: &mut String, d: u64)
    requires
        d < 10,
    ensures
        final(s)@ == old(s)@ + seq![digit_char(d as int)],
{
    proof {
        reveal_strlit("0");
        reveal_strlit("1");
        reveal_strlit("2");
        reveal_strlit("3");
        reveal_strlit("4");
        reveal_strlit("5");
        reveal_strlit("6");
        reveal_strlit("7");
        reveal_strlit("8");
        reveal_strlit("9");
    }
    let digit = if d == 0 {
        "0"
    } else if d == 1 {
        "1"
    } else if d == 2 {
        "2"
    } else if d == 3 {
        "3"
    } else if d == 4 {
        "4"
    } else if d == 5 {
        "5"
    } else if d == 6 {
        "6"
    } else if d == 7 {
        "7"
    } else if d == 8 {
        "8"
    } else {
        "9"
    };
    s.append(digit);
}

/// Appends `n` in decimal.
pub fn append_decimal(s: &mut String, n: u64)
    ensures
        final(s)@ == old(s)@ + decimal_chars(n as nat),
    decreases n,
{
    if n >= 10 {
        append_decimal(s, n / 10);
    }
    append_digit(s, n % 10);
    proof {
        if n >= 10 {
            assert(old(s)@ + decimal_chars((n / 10) as nat) + seq![digit_char((n % 10) as int)] == old(s)@ + decimal_chars(
                n as nat,
            ));
        }
    }
}

/// Appends one character.
#[verifier::external_body]
pub fn push_char(s: &mut String, c: char)
    ensures
        final(s)@ == old(s)@.push(c),
{
    s.push(c);
}

/// Unicode's White_Space property, which `char::is_whitespace` tests.
pub open spec fn is_space(c: char) -> bool {
    ||| ('\u{9}' <= c && c <= '\u{d}')
    ||| c == ' '
    ||| c == '\u{85}'
    ||| c == '\u{a0}'
    ||| c == '\u{1680}'
    ||| ('\u{2000}' <= c && c <= '\u{200a}')
    ||| c == '\u{2028}'
    ||| c == '\u{2029}'
    ||| c == '\u{202f}'
    ||| c == '\u{205f}'
    ||| c == '\u{3000}'
}

/// Whether `c` is white space.
pub fn space(c: char) -> (r: bool)
    ensures
        r == is_space(c),
{
    ('\u{9}' <= c && c <= '\u{d}') || c == ' ' || c == '\u{85}' || c == '\u{a0}' || c == '\u{1680}' || (
    '\u{2000}' <= c && c <= '\u{200a}') || c == '\u{2028}' || c == '\u{2029}' || c == '\u{202f}' || c == '\u{205f}'
        || c == '\u{3000}'
}

/// Index of the first character that is not white space, or the length.
pub open spec fn lead_end(s: Seq<char>, i: int) -> int
    decreases s.len() - i,
{
    if 0 <= i < s.len() && is_space(s[i]) {
        lead_end(s, i + 1)
    } else {
        i
    }
}

/// One past the last character from `from` on that is not white space.
pub open spec fn trail_start(s: Seq<char>, from: int, j: int) -> int
    decreases j - from,
{
    if from < j && is_space(s[j - 1]) {
        trail_start(s, from, j - 1)
    } else {
        j
    }
}

/// `s` without leading and trailing white space.
pub open spec fn trimmed(s: Seq<char>) -> Seq<char> {
    let a = lead_end(s, 0);
    s.subrange(a, trail_start(s, a, s.len() as int))
}

proof fn lemma_lead_end(s: Seq<char>, i: int)
    requires
        0 <= i <= s.len(),
    ensures
        i <= lead_end(s, i) <= s.len(),
    decreases s.len() - i,
{
    if i < s.len() && is_space(s[i]) {
        lemma_lead_end(s, i + 1);
    }
}

proof fn lemma_trail_start(s: Seq<char>, from: int, j: int)
    requires
        from <= j,
    ensures
        from <= trail_start(s, from, j) <= j,
    decreases j - from,
{
    if from < j && is_space(s[j - 1]) {
        lemma_trail_start(s, from, j - 1);
    }
}

/// `s` without leading and trailing white space.
pub fn trim(s: &str) -> (r: &str)
    ensures
        r@ == trimmed(s@),
{
    let n = s.unicode_len();
    let mut a: usize = 0;
    while a < n && space(s.get_char(a))
        invariant
            n == s@.len(),
            a <= n,
            lead_end(s@, 0) == lead_end(s@, a as int),
        decreases n - a,
    {
        a = a + 1;
    }
    let mut b: usize = n;
    proof {
        lemma_lead_end(s@, 0);
    }
    while b > a && space(s.get_char(b - 1))
        invariant
            n == s@.len(),
            a <= b <= n,
            a == lead_end(s@, 0),
            trail_start(s@, a as int, n as int) == trail_start(s@, a as int, b as int),
        decreases b,
    {
        b = b - 1;
    }
    s.substring_char(a, b)
}

/// `p` is a prefix of `s`.
pub open spec fn has_prefix(s: Seq<char>, p: Seq<char>) -> bool {
    p.len() <= s.len() && s.subrange(0, p.len() as int) == p
}

/// Whether `s` starts with `p`.
pub fn starts_with(s: &str, p: &str) -> (r: bool)
    ensures
        r == has_prefix(s@, p@),
{
    let n = s.unicode_len();
    let m = p.unicode_len();
    if m > n {
        return false;
    }
    let mut i: usize = 0;
    while i < m
        invariant
            n == s@.len(),
            m == p@.len(),
            m <= n,
            i <= m,
            forall|k: int| 0 <= k < i ==> s@[k] == p@[k],
        decreases m - i,
    {
        if s.get_char(i) != p.get_char(i) {
            assert(s@.subrange(0, m as int)[i as int] != p@[i as int]);
            return false;
        }
        i = i + 1;
    }
    assert(s@.subrange(0, m as int) =~= p@);
    true
}

/// `c` with an ASCII capital letter made lower case.
pub open spec fn ascii_lower(c: char) -> char {
    if 'A' <= c && c <= 'Z' {
        ((c as u32) + 32) as char
    } else {
        c
    }
}

/// The two texts are equal once ASCII capitals are made lower case.
pub open spec fn same_ignoring_ascii_case(a: Seq<char>, b: Seq<char>) -> bool {
    a.len() == b.len() && forall|i: int| 0 <= i < a.len() ==> ascii_lower(#[trigger] a[i]) == ascii_lower(b[i])
}

fn lower(c: char) -> (r: char)
    ensures
        r == ascii_lower(c),
{
    if 'A' <= c && c <= 'Z' {
        let v = (c as u8) + 32;
        v as char
    } else {
        c
    }
}

/// Whether the two texts are equal ignoring ASCII case.
pub fn eq_ignore_ascii_case(a: &str, b: &str) -> (r: bool)
    ensures
        r == same_ignoring_ascii_case(a@, b@),
{
    let n = a.unicode_len();
    if n != b.unicode_len() {
        return false;
    }
    let mut i: usize = 0;
    while i < n
        invariant
            n == a@.len(),
            n == b@.len(),
            i <= n,
            forall|k: int| 0 <= k < i ==> ascii_lower(#[trigger] a@[k]) == ascii_lower(b@[k]),
        decreases n - i,
    {
        if lower(a.get_char(i)) != lower(b.get_char(i)) {
            return false;
        }
        i = i + 1;
    }
    true
}

/// The texts of `items` joined by `sep`.
pub open spec fn joined(items: Seq<Seq<char>>, sep: Seq<char>) -> Seq<char>
    decreases items.len(),
{
    if items.len() == 0 {
        Seq::empty()
    } else if items.len() == 1 {
        items[0]
    } else {
        joined(items.drop_last(), sep) + sep + items.last()
    }
}

/// The characters of each string.
pub open spec fn texts(items: Seq<String>) -> Seq<Seq<char>> {
    items.map_values(|x: String| x@)
}

/// Joins strings with a separator between each two.
pub fn join(items: &Vec<String>, sep: &str) -> (r: String)
    ensures
        r@ == joined(texts(items@), sep@),
{
    let mut out = String::new();
    let mut i: usize = 0;
    while i < items.len()
        invariant
            i <= items@.len(),
            out@ == joined(texts(items@).take(i as int), sep@),
        decreases items@.len() - i,
    {
        let ghost before = texts(items@).take(i as int);
        let ghost after = texts(items@).take(i + 1);
        proof {
            assert(after.drop_last() =~= before);
            assert(after.last() == items@[i as int]@);
        }
        if i > 0 {
            out.append(sep);
        }
        out.append(items[i].as_str());
        proof {
            if i == 0 {
                assert(after.len() == 1);
                assert(out@ =~= after[0]);
            } else {
                assert(out@ =~= joined(before, sep@) + sep@ + after.last());
            }
        }
        i = i + 1;
    }
    proof {
        assert(texts(items@).take(items@.len() as int) =~= texts(items@));
    }
    out
}

/// The explanation given for a refusal.
pub open spec fn block_text(b: SafetyBlock) -> Seq<char> {
    match b {
        SafetyBlock::HostsOperatingSystem { volumes } => "This disk holds the operating system (volumes: "@ + (if volumes@.len()
            == 0 {
            "system"@
        } else {
            joined(texts(volumes@), ", "@)
        }) + "). Writing to it would leave the machine unable to boot."@,
        SafetyBlock::InternalBus { bus } => "Attached over "@ + bus@
            + ", a bus used only by internal disks. Memory cards do not appear this way."@,
        SafetyBlock::ExceedsAddressableCapacity { capacity_bytes, limit_bytes } => "Capacity of "@ + bytes_text(
            capacity_bytes,
        ) + " exceeds the "@ + bytes_text(limit_bytes) + " limit. No memory card is that large."@,
        SafetyBlock::ZeroCapacity => "The device reports zero capacity. No media is inserted, or it is not responding."@,
    }
}

/// Explains why a device was refused outright.
pub fn block_message(block: &SafetyBlock) -> (r: String)
    ensures
        r@ == block_text(*block),
{
    match block {
        SafetyBlock::HostsOperatingSystem { volumes } => {
            let mut s = String::from_str("This disk holds the operating system (volumes: ");
            if volumes.len() == 0 {
                s.append("system");
            } else {
                s.append(join(volumes, ", ").as_str());
            }
            s.append("). Writing to it would leave the machine unable to boot.");
            s
        },
        SafetyBlock::InternalBus { bus } => {
            let mut s = String::from_str("Attached over ");
            s.append(bus.as_str());
            s.append(", a bus used only by internal disks. Memory cards do not appear this way.");
            s
        },
        SafetyBlock::ExceedsAddressableCapacity { capacity_bytes, limit_bytes } => {
            let mut s = String::from_str("Capacity of ");
            s.append(bytes(*capacity_bytes).as_str());
            s.append(" exceeds the ");
            s.append(bytes(*limit_bytes).as_str());
            s.append(" limit. No memory card is that large.");
            s
        },
        SafetyBlock::ZeroCapacity => String::from_str(
            "The device reports zero capacity. No media is inserted, or it is not responding.",
        ),
    }
}

/// The explanation given for a risk the user may accept.
pub open spec fn warning_text(w: SafetyWarning) -> Seq<char> {
    match w {
        SafetyWarning::NotDeclaredRemovable => "Windows does not mark this media as removable. That is normal for USB microSD adapters, but confirm the target is really the card."@,
        SafetyWarning::HasMountedVolumes { volumes } => "Mounted volumes present ("@ + joined(texts(volumes@), ", "@)
            + "). All contents will be lost."@,
        SafetyWarning::UnusuallyLarge { capacity_bytes } => "A capacity of "@ + bytes_text(capacity_bytes)
            + " is large for a card. Confirm the target."@,
        SafetyWarning::UnknownBus => "The device's bus could not be identified."@,
    }
}

/// Explains a risk the user may knowingly accept.
pub fn warning_message(warning: &SafetyWarning) -> (r: String)
    ensures
        r@ == warning_text(*warning),
{
    match warning {
        SafetyWarning::NotDeclaredRemovable => String::from_str(
            "Windows does not mark this media as removable. That is normal for USB microSD adapters, but confirm the target is really the card.",
        ),
        SafetyWarning::HasMountedVolumes { volumes } => {
            let mut s = String::from_str("Mounted volumes present (");
            s.append(join(volumes, ", ").as_str());
            s.append("). All contents will be lost.");
            s
        },
        SafetyWarning::UnusuallyLarge { capacity_bytes } => {
            let mut s = String::from_str("A capacity of ");
            s.append(bytes(*capacity_bytes).as_str());
            s.append(" is large for a card. Confirm the target.");
            s
        },
        SafetyWarning::UnknownBus => String::from_str("The device's bus could not be identified."),
    }
}

} // verus!
