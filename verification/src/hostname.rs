//! Syntactic validation of SNI host names.
//!
//! A ClientHello's server name is usable either as a DNS name or as an IP
//! literal; anything else is treated as absent, and the flow is blocked by
//! policy.  The three recognizers here are exact grammars: dotted-quad
//! IPv4 literals (four decimal octets, no leading zeros), IPv6 literals
//! (colon-separated 1–4 digit hexadecimal groups, eight of them or fewer
//! with a single `::` compression), and DNS names (dot-separated labels of
//! letters, digits, `-` and `_`, not starting or ending in a hyphen, at
//! most 63 bytes each and 253 in all, the final label not all-numeric —
//! so that a name is never confused with an IPv4 address).

use vstd::prelude::*;

verus! {

/// An ASCII decimal digit.
pub open spec fn is_digit(c: u8) -> bool {
    48 <= c <= 57
}

/// An ASCII hexadecimal digit, either case.
pub open spec fn is_hex_digit(c: u8) -> bool {
    is_digit(c) || (97 <= c <= 102) || (65 <= c <= 70)
}

/// A letter or underscore, as DNS labels allow.
pub open spec fn is_label_letter(c: u8) -> bool {
    (97 <= c <= 122) || (65 <= c <= 90) || c == 95
}

/// Index of the first non-digit at or after `i`.
pub open spec fn digits_end(b: Seq<u8>, i: int) -> int
    decreases b.len() - i,
{
    if i < b.len() && is_digit(b[i]) {
        digits_end(b, i + 1)
    } else {
        i
    }
}

/// Index of the first non-hexadecimal-digit at or after `i`.
pub open spec fn hex_end(b: Seq<u8>, i: int) -> int
    decreases b.len() - i,
{
    if i < b.len() && is_hex_digit(b[i]) {
        hex_end(b, i + 1)
    } else {
        i
    }
}

/// `digits_end` stays within the sequence and marks a maximal digit run.
pub proof fn lemma_digits_end_props(b: Seq<u8>, i: int)
    requires
        0 <= i <= b.len(),
    ensures
        i <= digits_end(b, i) <= b.len(),
        forall|j: int| i <= j < digits_end(b, i) ==> is_digit(b[j]),
        digits_end(b, i) < b.len() ==> !is_digit(b[digits_end(b, i)]),
    decreases b.len() - i,
{
    if i < b.len() && is_digit(b[i]) {
        lemma_digits_end_props(b, i + 1);
    }
}

/// `hex_end` stays within the sequence.
pub proof fn lemma_hex_end_props(b: Seq<u8>, i: int)
    requires
        i <= b.len(),
    ensures
        i <= hex_end(b, i) <= b.len(),
    decreases b.len() - i,
{
    if i < b.len() && is_hex_digit(b[i]) {
        lemma_hex_end_props(b, i + 1);
    }
}

/// Decimal value of the digits at `[i, j)`.
pub open spec fn dec_value(b: Seq<u8>, i: int, j: int) -> int
    decreases j - i,
{
    if j <= i {
        0
    } else {
        10 * dec_value(b, i, j - 1) + (b[j - 1] - 48)
    }
}

/// The digits at `[i, j)` form one IPv4 octet: one to three of them, no
/// leading zero, value at most 255.
pub open spec fn octet_ok(b: Seq<u8>, i: int, j: int) -> bool {
    &&& 1 <= j - i <= 3
    &&& (j - i > 1 ==> b[i] != 48)
    &&& dec_value(b, i, j) <= 255
}

/// A dotted-quad IPv4 literal: four octets separated by single dots,
/// covering the whole name.
pub open spec fn valid_ipv4_literal(b: Seq<u8>) -> bool {
    let e1 = digits_end(b, 0);
    let e2 = digits_end(b, e1 + 1);
    let e3 = digits_end(b, e2 + 1);
    let e4 = digits_end(b, e3 + 1);
    &&& octet_ok(b, 0, e1) && e1 < b.len() && b[e1] == 46
    &&& octet_ok(b, e1 + 1, e2) && e2 < b.len() && b[e2] == 46
    &&& octet_ok(b, e2 + 1, e3) && e3 < b.len() && b[e3] == 46
    &&& octet_ok(b, e3 + 1, e4) && e4 == b.len()
}

/// Scans IPv6 groups from position `i`: each is one to four hexadecimal
/// digits; `groups` counts those already seen and `compressed` whether a
/// `::` was.  A full address has eight groups; with a compression, at most
/// seven.
pub open spec fn v6_scan(b: Seq<u8>, i: int, groups: int, compressed: bool) -> bool
    decreases b.len() - i,
    via v6_scan_decreases
{
    if i >= b.len() {
        compressed && groups <= 7
    } else {
        let e = hex_end(b, i);
        if !(1 <= e - i <= 4) {
            false
        } else if e == b.len() {
            if compressed {
                groups + 1 <= 7
            } else {
                groups + 1 == 8
            }
        } else if b[e] != 58 {
            false
        } else if e + 1 < b.len() && b[e + 1] == 58 {
            if compressed {
                false
            } else if e + 2 == b.len() {
                groups + 1 <= 7
            } else {
                v6_scan(b, e + 2, groups + 1, true)
            }
        } else if e + 1 == b.len() {
            false
        } else {
            v6_scan(b, e + 1, groups + 1, compressed)
        }
    }
}

#[via_fn]
proof fn v6_scan_decreases(b: Seq<u8>, i: int, groups: int, compressed: bool) {
    if i < b.len() {
        lemma_hex_end_props(b, i);
    }
}

/// An IPv6 literal (without a zone or an embedded IPv4 suffix).
pub open spec fn valid_ipv6_literal(b: Seq<u8>) -> bool {
    if b.len() >= 2 && b[0] == 58 && b[1] == 58 {
        b.len() == 2 || v6_scan(b, 2, 0, true)
    } else {
        v6_scan(b, 0, 0, false)
    }
}

/// What the current DNS label holds so far.
#[derive(Clone, Copy, PartialEq, Eq, Structural)]
pub enum LabelKind {
    /// Nothing yet.
    Start,
    /// At least one non-digit.
    HasLetter,
    /// Non-empty and all-numeric so far.
    AllNumeric,
    /// The last byte was a hyphen.
    EndsInHyphen,
}

/// A label may close when it has one to 63 bytes and does not end in a
/// hyphen.
pub open spec fn label_close_ok(len: int, st: LabelKind) -> bool {
    1 <= len <= 63 && !(st is EndsInHyphen)
}

/// Scans DNS labels from `idx`; `start` is where the current label began.
/// The final label (before an optional trailing dot) must not be
/// all-numeric.
pub open spec fn dns_scan(b: Seq<u8>, idx: int, start: int, st: LabelKind) -> bool
    decreases b.len() - idx,
{
    if idx >= b.len() {
        label_close_ok(idx - start, st) && !(st is AllNumeric)
    } else {
        let c = b[idx];
        if is_label_letter(c) {
            dns_scan(b, idx + 1, start, LabelKind::HasLetter)
        } else if is_digit(c) {
            dns_scan(
                b,
                idx + 1,
                start,
                match st {
                    LabelKind::Start => LabelKind::AllNumeric,
                    LabelKind::AllNumeric => LabelKind::AllNumeric,
                    _ => LabelKind::HasLetter,
                },
            )
        } else if c == 46 {
            if !label_close_ok(idx - start, st) {
                false
            } else if idx + 1 >= b.len() {
                // a single trailing dot is allowed; the closed label is the
                // final one
                !(st is AllNumeric)
            } else {
                dns_scan(b, idx + 1, idx + 1, LabelKind::Start)
            }
        } else if c == 45 {
            if idx == start {
                false
            } else {
                dns_scan(b, idx + 1, start, LabelKind::EndsInHyphen)
            }
        } else {
            false
        }
    }
}

/// A syntactically valid DNS name.
pub open spec fn valid_dns_name(b: Seq<u8>) -> bool {
    1 <= b.len() <= 253 && dns_scan(b, 0, 0, LabelKind::Start)
}

/// Finds the end of the digit run starting at `i`.
fn digits_end_exec(b: &[u8], i: usize) -> (r: usize)
    requires
        i <= b@.len(),
    ensures
        r == digits_end(b@, i as int),
        i <= r <= b@.len(),
{
    let mut k = i;
    while k < b.len() && 48 <= b[k] && b[k] <= 57
        invariant
            i <= k <= b@.len(),
            digits_end(b@, i as int) == digits_end(b@, k as int),
        decreases b@.len() - k,
    {
        k += 1;
    }
    k
}

/// Finds the end of the hexadecimal digit run starting at `i`.
fn hex_end_exec(b: &[u8], i: usize) -> (r: usize)
    requires
        i <= b@.len(),
    ensures
        r == hex_end(b@, i as int),
        i <= r <= b@.len(),
{
    let mut k = i;
    while k < b.len() && (48 <= b[k] && b[k] <= 57 || 97 <= b[k] && b[k] <= 102 || 65 <= b[k]
        && b[k] <= 70)
        invariant
            i <= k <= b@.len(),
            hex_end(b@, i as int) == hex_end(b@, k as int),
        decreases b@.len() - k,
    {
        k += 1;
    }
    k
}

/// Checks one IPv4 octet and reports where its digits end.
fn scan_octet(b: &[u8], i: usize) -> (r: (bool, usize))
    requires
        i <= b@.len(),
    ensures
        r.1 == digits_end(b@, i as int),
        i <= r.1 <= b@.len(),
        r.0 == octet_ok(b@, i as int, r.1 as int),
{
    let e = digits_end_exec(b, i);
    proof {
        lemma_digits_end_props(b@, i as int);
    }
    if e - i < 1 || e - i > 3 {
        return (false, e);
    }
    if e - i > 1 && b[i] == 48 {
        return (false, e);
    }
    let mut val: u32 = 0;
    let mut k = i;
    while k < e
        invariant
            i <= k <= e <= b@.len(),
            e - i <= 3,
            forall|j: int| i <= j < e ==> is_digit(b@[j]),
            val == dec_value(b@, i as int, k as int),
            k - i == 0 ==> val == 0,
            k - i == 1 ==> val <= 9,
            k - i == 2 ==> val <= 99,
            val <= 999,
        decreases e - k,
    {
        val = val * 10 + (b[k] - 48) as u32;
        k += 1;
    }
    (val <= 255, e)
}

/// Decides `valid_ipv4_literal`.
pub fn is_ipv4_literal(b: &[u8]) -> (r: bool)
    ensures
        r == valid_ipv4_literal(b@),
{
    let (ok1, e1) = scan_octet(b, 0);
    if !ok1 || e1 >= b.len() || b[e1] != 46 {
        return false;
    }
    let (ok2, e2) = scan_octet(b, e1 + 1);
    if !ok2 || e2 >= b.len() || b[e2] != 46 {
        return false;
    }
    let (ok3, e3) = scan_octet(b, e2 + 1);
    if !ok3 || e3 >= b.len() || b[e3] != 46 {
        return false;
    }
    let (ok4, e4) = scan_octet(b, e3 + 1);
    ok4 && e4 == b.len()
}

/// Decides `v6_scan`.
fn v6_scan_exec(b: &[u8], i: usize, groups: u8, compressed: bool) -> (r: bool)
    requires
        i <= b@.len(),
        groups <= 8,
    ensures
        r == v6_scan(b@, i as int, groups as int, compressed),
    decreases b@.len() - i,
{
    if i >= b.len() {
        return compressed && groups <= 7;
    }
    let e = hex_end_exec(b, i);
    if e - i < 1 || e - i > 4 {
        return false;
    }
    if e == b.len() {
        return if compressed {
            groups + 1 <= 7
        } else {
            groups + 1 == 8
        };
    }
    if b[e] != 58 {
        return false;
    }
    if e + 1 < b.len() && b[e + 1] == 58 {
        if compressed {
            return false;
        }
        if e + 2 == b.len() {
            return groups + 1 <= 7;
        }
        if groups >= 8 {
            // a ninth group can never validate
            proof {
                lemma_v6_scan_many_groups(b@, e + 2 as int, groups + 1 as int, true);
            }
            return false;
        }
        return v6_scan_exec(b, e + 2, groups + 1, true);
    }
    if e + 1 == b.len() {
        return false;
    }
    if groups >= 8 {
        proof {
            lemma_v6_scan_many_groups(b@, e + 1 as int, groups + 1 as int, compressed);
        }
        return false;
    }
    v6_scan_exec(b, e + 1, groups + 1, compressed)
}

/// Once more than eight groups have been seen, no continuation validates.
proof fn lemma_v6_scan_many_groups(b: Seq<u8>, i: int, groups: int, compressed: bool)
    requires
        groups >= 8,
    ensures
        !v6_scan(b, i, groups, compressed),
    decreases b.len() - i,
{
    if i < b.len() {
        lemma_hex_end_props(b, i);
        let e = hex_end(b, i);
        if 1 <= e - i <= 4 && e < b.len() && b[e] == 58 {
            if e + 1 < b.len() && b[e + 1] == 58 {
                if !compressed && e + 2 < b.len() {
                    lemma_v6_scan_many_groups(b, e + 2, groups + 1, true);
                }
            } else if e + 1 < b.len() {
                lemma_v6_scan_many_groups(b, e + 1, groups + 1, compressed);
            }
        }
    }
}

/// Decides `valid_ipv6_literal`.
pub fn is_ipv6_literal(b: &[u8]) -> (r: bool)
    ensures
        r == valid_ipv6_literal(b@),
{
    if b.len() >= 2 && b[0] == 58 && b[1] == 58 {
        b.len() == 2 || v6_scan_exec(b, 2, 0, true)
    } else {
        v6_scan_exec(b, 0, 0, false)
    }
}

/// Decides `dns_scan`.
fn dns_scan_exec(b: &[u8], idx: usize, start: usize, st: LabelKind) -> (r: bool)
    requires
        start <= idx <= b@.len(),
    ensures
        r == dns_scan(b@, idx as int, start as int, st),
    decreases b@.len() - idx,
{
    if idx >= b.len() {
        let len = idx - start;
        return 1 <= len && len <= 63 && !matches!(st, LabelKind::EndsInHyphen) && !matches!(
            st,
            LabelKind::AllNumeric,
        );
    }
    let c = b[idx];
    if 97 <= c && c <= 122 || 65 <= c && c <= 90 || c == 95 {
        dns_scan_exec(b, idx + 1, start, LabelKind::HasLetter)
    } else if 48 <= c && c <= 57 {
        let st2 = match st {
            LabelKind::Start => LabelKind::AllNumeric,
            LabelKind::AllNumeric => LabelKind::AllNumeric,
            _ => LabelKind::HasLetter,
        };
        dns_scan_exec(b, idx + 1, start, st2)
    } else if c == 46 {
        let len = idx - start;
        if !(1 <= len && len <= 63) || matches!(st, LabelKind::EndsInHyphen) {
            false
        } else if idx + 1 >= b.len() {
            !matches!(st, LabelKind::AllNumeric)
        } else {
            dns_scan_exec(b, idx + 1, idx + 1, LabelKind::Start)
        }
    } else if c == 45 {
        if idx == start {
            false
        } else {
            dns_scan_exec(b, idx + 1, start, LabelKind::EndsInHyphen)
        }
    } else {
        false
    }
}

/// Decides `valid_dns_name`.
pub fn is_dns_name(b: &[u8]) -> (r: bool)
    ensures
        r == valid_dns_name(b@),
{
    1 <= b.len() && b.len() <= 253 && dns_scan_exec(b, 0, 0, LabelKind::Start)
}

} // verus!
