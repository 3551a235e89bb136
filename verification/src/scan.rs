//! The deduction scanner: finds every occurrence of the tutor comment
//! marker in a text and sums the recorded magnitudes.
//!
//! A deduction is written `// Tutor: ` followed by an optional minus sign,
//! a run of digits, and optionally a dot with one further digit. The minus
//! sign is recognised and consumed but never applied: every magnitude
//! counts as a positive deduction. A marker with no parseable number
//! contributes zero. Magnitudes are measured in tenths of a point, so all
//! arithmetic is exact; accumulation saturates at `u64::MAX`.
use vstd::prelude::*;

verus! {

/// The comment marker, as bytes: `// Tutor: `.
pub open spec fn spec_marker() -> Seq<u8> {
    seq![47u8, 47u8, 32u8, 84u8, 117u8, 116u8, 111u8, 114u8, 58u8, 32u8]
}

pub open spec fn spec_is_digit_b(b: u8) -> bool {
    48 <= b <= 57
}

pub open spec fn spec_digit_val_b(b: u8) -> nat {
    (b - 48) as nat
}

/// `n` capped at `u64::MAX`.
pub open spec fn clip64(n: nat) -> nat {
    if n > u64::MAX {
        u64::MAX as nat
    } else {
        n
    }
}

/// The value of a run of digit bytes, accumulated with saturation.
pub open spec fn spec_digits_val_b(s: Seq<u8>) -> nat
    decreases s.len(),
{
    if s.len() == 0 {
        0
    } else {
        let prev = spec_digits_val_b(s.drop_last());
        clip64(prev * 10 + spec_digit_val_b(s.last()))
    }
}

/// The marker occurs in `s` at position `i`.
pub open spec fn spec_marker_at(s: Seq<u8>, i: int) -> bool {
    0 <= i && i + 10 <= s.len() && s.subrange(i, i + 10) == spec_marker()
}

/// The position after an optional minus sign at `i`.
pub open spec fn spec_sign_skip(s: Seq<u8>, i: int) -> int {
    if i < s.len() && s[i] == 45 {
        i + 1
    } else {
        i
    }
}

/// The end of the digit run that starts at `q`.
pub open spec fn spec_run_end(s: Seq<u8>, q: int) -> int
    decreases s.len() - q,
{
    if 0 <= q < s.len() && spec_is_digit_b(s[q]) {
        spec_run_end(s, q + 1)
    } else {
        q
    }
}

/// Length of the fractional part at `d`: two (a dot and one digit) or zero.
pub open spec fn spec_frac_len(s: Seq<u8>, d: int) -> int {
    if d + 2 <= s.len() && s[d] == 46 && spec_is_digit_b(s[d + 1]) {
        2
    } else {
        0
    }
}

/// The magnitude, in tenths, of the deduction whose marker starts at `i`.
pub open spec fn spec_mag_at(s: Seq<u8>, i: int) -> nat {
    let q = spec_sign_skip(s, i + 10);
    let d = spec_run_end(s, q);
    let ip = spec_digits_val_b(s.subrange(q, d));
    if spec_frac_len(s, d) == 2 {
        clip64(ip * 10 + spec_digit_val_b(s[d + 1]))
    } else {
        clip64(ip * 10)
    }
}

/// The position just after the match whose marker starts at `i`.
pub open spec fn spec_match_end(s: Seq<u8>, i: int) -> int {
    let q = spec_sign_skip(s, i + 10);
    let d = spec_run_end(s, q);
    d + spec_frac_len(s, d)
}

proof fn lemma_run_end_bounds(s: Seq<u8>, q: int)
    requires
        0 <= q <= s.len(),
    ensures
        q <= spec_run_end(s, q) <= s.len(),
    decreases s.len() - q,
{
    if 0 <= q < s.len() && spec_is_digit_b(s[q]) {
        lemma_run_end_bounds(s, q + 1);
    }
}

/// The magnitudes of all matches at or after position `i`, left to right,
/// non-overlapping.
pub open spec fn spec_scan(s: Seq<u8>, i: int) -> Seq<nat>
    decreases s.len() - i when 0 <= i via spec_scan_dec
{
    if i < 0 || i + 10 > s.len() {
        Seq::empty()
    } else if spec_marker_at(s, i) {
        seq![spec_mag_at(s, i)] + spec_scan(s, spec_match_end(s, i))
    } else {
        spec_scan(s, i + 1)
    }
}

#[via_fn]
proof fn spec_scan_dec(s: Seq<u8>, i: int) {
    if 0 <= i && i + 10 <= s.len() && spec_marker_at(s, i) {
        lemma_match_end_past_marker(s, i);
    }
}

/// The magnitudes, in tenths, of every tutor deduction in `s`.
pub open spec fn spec_magnitudes(s: Seq<u8>) -> Seq<nat> {
    spec_scan(s, 0)
}

/// The mathematical sum of a sequence of magnitudes.
pub open spec fn spec_sum(m: Seq<nat>) -> nat
    decreases m.len(),
{
    if m.len() == 0 {
        0
    } else {
        spec_sum(m.drop_first()) + m.first()
    }
}

proof fn lemma_match_end_past_marker(s: Seq<u8>, i: int)
    requires
        0 <= i,
        i + 10 <= s.len(),
    ensures
        spec_match_end(s, i) >= i + 10,
        spec_match_end(s, i) <= s.len(),
{
    let q = spec_sign_skip(s, i + 10);
    lemma_run_end_bounds(s, q);
    let d = spec_run_end(s, q);
    if spec_frac_len(s, d) == 2 {
    }
}

proof fn lemma_run_end_is(s: Seq<u8>, q: int, j: int)
    requires
        0 <= q <= j <= s.len(),
        forall|t: int| q <= t < j ==> spec_is_digit_b(#[trigger] s[t]),
        j == s.len() || !spec_is_digit_b(s[j]),
    ensures
        spec_run_end(s, q) == j,
    decreases j - q,
{
    if q < j {
        lemma_run_end_is(s, q + 1, j);
    }
}

/// Saturating addition.
pub(crate) fn sat_add(a: u64, b: u64) -> (r: u64)
    ensures
        r as nat == clip64((a + b) as nat),
{
    if a > u64::MAX - b {
        u64::MAX
    } else {
        a + b
    }
}

/// One saturating decimal step over a digit byte.
fn push_digit_b(acc: u64, b: u8) -> (r: u64)
    requires
        spec_is_digit_b(b),
    ensures
        r as nat == clip64((acc * 10 + spec_digit_val_b(b)) as nat),
{
    let d = (b - 48) as u64;
    if acc > (u64::MAX - d) / 10 {
        proof {
            assert(acc * 10 + d > u64::MAX) by (nonlinear_arith)
                requires
                    acc > (u64::MAX - d) / 10,
                    d <= 9,
                    (u64::MAX - d) / 10 == ((u64::MAX - d) as int) / 10,
            ;
        }
        u64::MAX
    } else {
        proof {
            assert(acc * 10 + d <= u64::MAX) by (nonlinear_arith)
                requires
                    acc <= (u64::MAX - d) / 10,
                    d <= 9,
                    (u64::MAX - d) / 10 == ((u64::MAX - d) as int) / 10,
            ;
        }
        acc * 10 + d
    }
}

/// Whether the marker occurs at position `i`.
fn marker_at(s: &Vec<u8>, i: usize) -> (r: bool)
    requires
        i + 10 <= s@.len(),
    ensures
        r == spec_marker_at(s@, i as int),
{
    assert(s@.len() == s.len());
    let r = s[i] == 47 && s[i + 1] == 47 && s[i + 2] == 32 && s[i + 3] == 84 && s[i + 4] == 117
        && s[i + 5] == 116 && s[i + 6] == 111 && s[i + 7] == 114 && s[i + 8] == 58 && s[i + 9]
        == 32;
    proof {
        let sub = s@.subrange(i as int, i + 10);
        assert(forall|t: int| 0 <= t < 10 ==> sub[t] == s@[i + t]);
        if r {
            assert(sub =~= spec_marker());
        } else {
            if sub == spec_marker() {
                assert(sub[0] == 47u8 && sub[1] == 47u8 && sub[2] == 32u8 && sub[3] == 84u8
                    && sub[4] == 117u8 && sub[5] == 116u8 && sub[6] == 111u8 && sub[7] == 114u8
                    && sub[8] == 58u8 && sub[9] == 32u8);
            }
        }
    }
    r
}

/// Parse the match whose marker starts at `i`; returns its magnitude in
/// tenths and the position just after the match.
fn parse_match(s: &Vec<u8>, i: usize) -> (r: (u64, usize))
    requires
        spec_marker_at(s@, i as int),
    ensures
        r.0 as nat == spec_mag_at(s@, i as int),
        r.1 as int == spec_match_end(s@, i as int),
        i + 10 <= r.1 <= s@.len(),
{
    let n = s.len();
    let mut q = i + 10;
    if q < n && s[q] == 45 {
        q = q + 1;
    }
    assert(q == spec_sign_skip(s@, i + 10));
    let ghost qg = q as int;
    let mut j = q;
    let mut ip: u64 = 0;
    while j < n && s[j] >= 48 && s[j] <= 57
        invariant
            qg == q,
            q <= j <= n,
            n == s@.len(),
            forall|t: int| q <= t < j ==> spec_is_digit_b(#[trigger] s@[t]),
            ip as nat == spec_digits_val_b(s@.subrange(q as int, j as int)),
        decreases n - j,
    {
        assert(s@.subrange(q as int, j + 1).drop_last() =~= s@.subrange(q as int, j as int));
        assert(s@.subrange(q as int, j + 1).last() == s@[j as int]);
        ip = push_digit_b(ip, s[j]);
        j = j + 1;
    }
    proof {
        lemma_run_end_is(s@, q as int, j as int);
    }
    let tenths: u64 = if ip > u64::MAX / 10 {
        proof {
            assert(ip * 10 > u64::MAX) by (nonlinear_arith)
                requires
                    ip > u64::MAX / 10,
                    u64::MAX / 10 == (u64::MAX as int) / 10,
            ;
        }
        u64::MAX
    } else {
        proof {
            assert(ip * 10 <= u64::MAX) by (nonlinear_arith)
                requires
                    ip <= u64::MAX / 10,
                    u64::MAX / 10 == (u64::MAX as int) / 10,
            ;
        }
        ip * 10
    };
    if n - j >= 2 && s[j] == 46 && s[j + 1] >= 48 && s[j + 1] <= 57 {
        let frac = (s[j + 1] - 48) as u64;
        let mag = sat_add(tenths, frac);
        proof {
            let ipn = ip as nat;
            assert(clip64((tenths + frac) as nat) == clip64(ipn * 10 + spec_digit_val_b(
                s@[j + 1],
            )));
        }
        (mag, j + 2)
    } else {
        (tenths, j)
    }
}

pub(crate) proof fn lemma_clip_add(a: nat, b: nat)
    ensures
        clip64(clip64(a) + b) == clip64(a + b),
{
}

pub(crate) proof fn lemma_clip_add_right(a: nat, b: nat)
    ensures
        clip64(a + clip64(b)) == clip64(a + b),
{
}

/// The total deduction recorded in `content`, in tenths of a point.
///
/// Returns the sum of the magnitudes of every tutor marker match in the
/// text, saturating at `u64::MAX`; the optional minus sign before a
/// magnitude is ignored, and a marker without a number counts zero.
pub fn calculate_deduction(content: &Vec<u8>) -> (r: u64)
    ensures
        r as nat == clip64(spec_sum(spec_magnitudes(content@))),
{
    let n = content.len();
    if n < 10 {
        return 0;
    }
    let mut i: usize = 0;
    let mut acc: u64 = 0;
    while i <= n - 10
        invariant
            10 <= n == content@.len(),
            0 <= i <= n,
            clip64(spec_sum(spec_magnitudes(content@))) == clip64(
                (acc + spec_sum(spec_scan(content@, i as int))) as nat,
            ),
        decreases n - i,
    {
        if marker_at(content, i) {
            let (mag, end) = parse_match(content, i);
            proof {
                lemma_match_end_past_marker(content@, i as int);
                let rest = spec_scan(content@, spec_match_end(content@, i as int));
                assert(spec_scan(content@, i as int) == seq![spec_mag_at(content@, i as int)]
                    + rest);
                assert((seq![spec_mag_at(content@, i as int)] + rest).drop_first() =~= rest);
                assert(spec_sum(spec_scan(content@, i as int)) == spec_sum(rest) + spec_mag_at(
                    content@,
                    i as int,
                ));
                lemma_clip_add((acc + mag) as nat, spec_sum(rest));
            }
            acc = sat_add(acc, mag);
            i = end;
        } else {
            i = i + 1;
        }
    }
    assert(spec_scan(content@, i as int) =~= Seq::<nat>::empty());
    acc
}

} // verus!
