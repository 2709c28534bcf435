//! Exact fixed-point conversion of the decimal time texts that occur in TAL
//! payloads: onset and duration fields, and record-start timestamps.
//!
//! A decimal text `ddd.fff` denotes seconds; its tick value is the number
//! multiplied by `EDFLIB_TIME_DIMENSION` (ten million) and truncated toward
//! zero, saturating at the `i64` range.

use vstd::prelude::*;
use crate::ascii::{
    is_digit, digits_val, pow10, lemma_pow10_values, lemma_pow10_pos, lemma_pow10_mono,
    lemma_digits_val_push, lemma_digits_val_bound, digits_value,
};

verus! {

/// One tick count per second (the spec-level copy of the crate constant).
pub open spec fn ticks_per_second() -> int {
    10_000_000
}

/// Two to the sixty-third: the first magnitude that no longer fits in `i64`.
pub open spec fn i64_sat_bound() -> int {
    0x8000_0000_0000_0000
}

/// `x` clamped into the `i64` range.
pub open spec fn sat_i64(x: int) -> int {
    if x > i64::MAX as int {
        i64::MAX as int
    } else if x < i64::MIN as int {
        i64::MIN as int
    } else {
        x
    }
}

/// `x` (a magnitude) capped at two to the sixty-third.
pub open spec fn capped_mag(x: int) -> int {
    if x >= i64_sat_bound() {
        i64_sat_bound()
    } else {
        x
    }
}

/// Every byte is a digit or a dot.
pub open spec fn digits_and_dots(s: Seq<u8>) -> bool {
    forall|i: int| 0 <= i < s.len() ==> is_digit(#[trigger] s[i]) || s[i] == 46
}

/// No two distinct positions hold a dot.
pub open spec fn at_most_one_dot(s: Seq<u8>) -> bool {
    forall|i: int, j: int|
        0 <= i < s.len() && 0 <= j < s.len() && #[trigger] s[i] == 46 && #[trigger] s[j] == 46
            ==> i == j
}

/// Index of the first dot, or the length when there is none.
pub open spec fn dot_index(s: Seq<u8>) -> int
    decreases s.len(),
{
    if s.len() == 0 {
        0
    } else if s[0] == 46 {
        0
    } else {
        1 + dot_index(s.drop_first())
    }
}

/// Digits before the dot.
pub open spec fn int_part(s: Seq<u8>) -> Seq<u8> {
    s.take(dot_index(s))
}

/// Digits after the dot; empty when there is no dot.
pub open spec fn frac_part(s: Seq<u8>) -> Seq<u8> {
    if dot_index(s) < s.len() {
        s.skip(dot_index(s) + 1)
    } else {
        Seq::empty()
    }
}

/// Tick value of a fractional-digit run: the first seven digits, padded with
/// zeros to seven places; further digits lie below one tick and are dropped.
pub open spec fn frac7_val(f: Seq<u8>) -> int {
    if f.len() >= 7 {
        digits_val(f.take(7))
    } else {
        digits_val(f) * pow10((7 - f.len()) as nat)
    }
}

/// Exact tick value of an unsigned decimal text (digits with at most one
/// dot): the integer part times ten million plus the fractional ticks.
/// This equals the text's value in seconds multiplied by the tick rate and
/// truncated toward zero.
pub open spec fn digit_text_ticks(s: Seq<u8>) -> int {
    digits_val(int_part(s)) * ticks_per_second() + frac7_val(frac_part(s))
}

/// The onset/duration validator of the TAL grammar: non-empty, neither
/// starting nor ending with a dot, digits with at most one dot.
pub open spec fn valid_time_text(s: Seq<u8>) -> bool {
    s.len() > 0 && s[0] != 46 && s[s.len() - 1] != 46 && digits_and_dots(s) && at_most_one_dot(s)
}

/// `s` with all leading plus signs removed.
pub open spec fn strip_plus(s: Seq<u8>) -> Seq<u8>
    decreases s.len(),
{
    if s.len() > 0 && s[0] == 43 {
        strip_plus(s.drop_first())
    } else {
        s
    }
}

/// An unsigned decimal accepted by the strict timestamp parser: non-empty,
/// digits with at most one dot, and at least one digit.
pub open spec fn strict_number_text(s: Seq<u8>) -> bool {
    s.len() > 0 && digits_and_dots(s) && at_most_one_dot(s) && !(s.len() == 1 && s[0] == 46)
}

/// Tick value of a record-start timestamp text: leading plus signs are
/// stripped, one minus sign is honoured, and the rest must be a strict
/// decimal; `None` when it is not.
pub open spec fn timestamp_ticks_spec(s: Seq<u8>) -> Option<int> {
    let u = strip_plus(s);
    let neg = u.len() > 0 && u[0] == 45;
    let t = if neg {
        u.drop_first()
    } else {
        u
    };
    if strict_number_text(t) {
        if neg {
            Some(sat_i64(-digit_text_ticks(t)))
        } else {
            Some(sat_i64(digit_text_ticks(t)))
        }
    } else {
        None
    }
}

pub proof fn lemma_dot_index_le_len(s: Seq<u8>)
    ensures
        0 <= dot_index(s) <= s.len(),
    decreases s.len(),
{
    if s.len() > 0 && s[0] != 46 {
        lemma_dot_index_le_len(s.drop_first());
    }
}

pub proof fn lemma_no_dot_before(s: Seq<u8>)
    ensures
        forall|i: int| 0 <= i < dot_index(s) && i < s.len() ==> #[trigger] s[i] != 46,
    decreases s.len(),
{
    if s.len() > 0 && s[0] != 46 {
        lemma_no_dot_before(s.drop_first());
        assert forall|i: int| 0 <= i < dot_index(s) && i < s.len() implies #[trigger] s[i] != 46 by {
            if i > 0 {
                assert(s.drop_first()[i - 1] == s[i]);
            }
        }
    }
}

pub proof fn lemma_dot_at(s: Seq<u8>)
    requires
        dot_index(s) < s.len(),
    ensures
        s[dot_index(s)] == 46,
    decreases s.len(),
{
    lemma_dot_index_le_len(s.drop_first());
    if s.len() > 0 && s[0] != 46 {
        lemma_dot_at(s.drop_first());
    }
}

/// If the first `j` bytes are not dots and byte `j` is a dot (or the end),
/// the first dot stands exactly at `j`.
pub proof fn lemma_dot_index_is(s: Seq<u8>, j: int)
    requires
        0 <= j <= s.len(),
        forall|i: int| 0 <= i < j ==> #[trigger] s[i] != 46,
        j == s.len() || s[j] == 46,
    ensures
        dot_index(s) == j,
    decreases j,
{
    if j > 0 {
        lemma_dot_index_is(s.drop_first(), j - 1);
    }
}

/// The value of a digit run only grows as the run extends.
pub proof fn lemma_digits_val_prefix_le(s: Seq<u8>, a: int, b: int)
    requires
        0 <= a <= b <= s.len(),
        forall|i: int| 0 <= i < s.len() ==> is_digit(#[trigger] s[i]),
    ensures
        digits_val(s.take(a)) <= digits_val(s.take(b)),
    decreases b - a,
{
    if a < b {
        lemma_digits_val_prefix_le(s, a, b - 1);
        lemma_digits_val_bound(s.take(b - 1));
        assert(s.take(b).drop_last() =~= s.take(b - 1));
        assert(is_digit(s[b - 1]));
    }
}

/// The fractional tick value is below ten million.
pub proof fn lemma_frac7_bound(f: Seq<u8>)
    requires
        forall|i: int| 0 <= i < f.len() ==> is_digit(#[trigger] f[i]),
    ensures
        0 <= frac7_val(f) < ticks_per_second(),
{
    lemma_pow10_values();
    if f.len() >= 7 {
        lemma_digits_val_bound(f.take(7));
        assert(pow10(7) == 10_000_000);
    } else {
        lemma_digits_val_bound(f);
        let k = f.len() as nat;
        lemma_pow10_pos((7 - k) as nat);
        assert(digits_val(f) <= pow10(k) - 1);
        assert((pow10(k) - 1) * pow10((7 - k) as nat) == pow10(k) * pow10((7 - k) as nat) - pow10(
            (7 - k) as nat,
        )) by (nonlinear_arith);
        lemma_pow10_adds(k, (7 - k) as nat);
        assert(digits_val(f) * pow10((7 - k) as nat) <= (pow10(k) - 1) * pow10((7 - k) as nat))
            by (nonlinear_arith)
            requires
                digits_val(f) <= pow10(k) - 1,
                pow10((7 - k) as nat) >= 1,
                digits_val(f) >= 0,
        ;
    }
}

pub proof fn lemma_pow10_adds(a: nat, b: nat)
    ensures
        pow10(a) * pow10(b) == pow10(a + b),
    decreases a,
{
    if a == 0 {
    } else {
        lemma_pow10_adds((a - 1) as nat, b);
        assert(pow10(a) * pow10(b) == 10 * (pow10((a - 1) as nat) * pow10(b))) by (nonlinear_arith)
            requires
                pow10(a) == 10 * pow10((a - 1) as nat),
        ;
    }
}

/// Ten to the `n` as a machine word, for small `n`.
pub fn pow10_u64(n: u64) -> (r: u64)
    requires
        n <= 18,
    ensures
        r == pow10(n as nat),
{
    let mut acc: u64 = 1;
    let mut i: u64 = 0;
    while i < n
        invariant
            0 <= i <= n <= 18,
            acc == pow10(i as nat),
        decreases n - i,
    {
        proof {
            lemma_pow10_mono((i + 1) as nat, 18);
            lemma_pow10_mono(18, 19);
            lemma_pow10_values();
        }
        acc = acc * 10;
        i = i + 1;
    }
    acc
}

/// Checks the TAL onset/duration grammar: digits with at most one dot,
/// neither first nor last, and at least one character.
pub fn check_time_text(s: &[u8], from: usize, to: usize) -> (r: bool)
    requires
        0 <= from <= to <= s@.len(),
    ensures
        r == valid_time_text(s@.subrange(from as int, to as int)),
{
    let ghost t = s@.subrange(from as int, to as int);
    if to == from {
        return false;
    }
    if s[from] == 46 || s[to - 1] == 46 {
        return false;
    }
    scan_digits_dots(s, from, to)
}

/// Checks that `s[from..to]` is all digits and dots with at most one dot.
fn scan_digits_dots(s: &[u8], from: usize, to: usize) -> (r: bool)
    requires
        0 <= from <= to <= s@.len(),
    ensures
        r == (digits_and_dots(s@.subrange(from as int, to as int)) && at_most_one_dot(
            s@.subrange(from as int, to as int),
        )),
{
    let ghost t = s@.subrange(from as int, to as int);
    let mut k = from;
    let mut seen_dot = false;
    let ghost mut dotpos: int = 0;
    while k < to
        invariant
            from <= k <= to <= s@.len(),
            t == s@.subrange(from as int, to as int),
            forall|i: int| 0 <= i < k - from ==> is_digit(#[trigger] t[i]) || t[i] == 46,
            seen_dot ==> 0 <= dotpos < k - from && t[dotpos] == 46,
            seen_dot ==> forall|i: int| 0 <= i < k - from && #[trigger] t[i] == 46 ==> i == dotpos,
            !seen_dot ==> forall|i: int| 0 <= i < k - from ==> #[trigger] t[i] != 46,
        decreases to - k,
    {
        let b = s[k];
        proof {
            assert(t[k - from] == s@[k as int]);
        }
        if b == 46 {
            if seen_dot {
                proof {
                    assert(t[dotpos] == 46 && t[k - from] == 46 && dotpos != k - from);
                }
                return false;
            }
            seen_dot = true;
            proof {
                dotpos = k - from;
            }
        } else if !(48 <= b && b <= 57) {
            proof {
                assert(!(is_digit(t[k - from]) || t[k - from] == 46));
            }
            return false;
        }
        k = k + 1;
    }
    true
}

/// Computes the tick magnitude of an unsigned decimal text, capped at two to
/// the sixty-third.
pub fn ticks_magnitude(s: &[u8], from: usize, to: usize) -> (r: u64)
    requires
        0 <= from <= to <= s@.len(),
        digits_and_dots(s@.subrange(from as int, to as int)),
        at_most_one_dot(s@.subrange(from as int, to as int)),
    ensures
        r == capped_mag(digit_text_ticks(s@.subrange(from as int, to as int))),
{
    let ghost t = s@.subrange(from as int, to as int);
    proof {
        lemma_pow10_values();
    }
    // locate the dot
    let mut dot = from;
    while dot < to && s[dot] != 46
        invariant
            from <= dot <= to <= s@.len(),
            t == s@.subrange(from as int, to as int),
            forall|i: int| 0 <= i < dot - from ==> #[trigger] t[i] != 46,
        decreases to - dot,
    {
        proof {
            assert(t[dot - from] == s@[dot as int]);
        }
        dot = dot + 1;
    }
    proof {
        assert(dot < to ==> t[dot - from] == s@[dot as int] && t[dot - from] == 46);
        lemma_dot_index_is(t, dot - from);
    }
    let ghost ip = int_part(t);
    proof {
        assert(ip =~= s@.subrange(from as int, dot as int));
        assert forall|i: int| 0 <= i < ip.len() implies is_digit(#[trigger] ip[i]) by {
            assert(ip[i] == t[i]);
            assert(is_digit(t[i]) || t[i] == 46);
        }
    }
    // integer part, saturating once it can no longer matter
    let mut acc: u64 = 0;
    let mut sat = false;
    let mut i = from;
    proof {
        assert(ip.take(0) =~= Seq::<u8>::empty());
    }
    while i < dot && !sat
        invariant
            from <= i <= dot <= to <= s@.len(),
            t == s@.subrange(from as int, to as int),
            ip == int_part(t),
            ip =~= s@.subrange(from as int, dot as int),
            forall|k: int| 0 <= k < ip.len() ==> is_digit(#[trigger] ip[k]),
            !sat ==> acc == digits_val(ip.take(i - from)) && acc < 1_000_000_000_000,
            sat ==> digits_val(ip.take(i - from)) >= 1_000_000_000_000,
        decreases dot - i,
    {
        let d = s[i];
        proof {
            assert(ip[i - from] == s@[i as int]);
            assert(ip.take(i - from + 1) =~= ip.take(i - from).push(ip[i - from]));
            lemma_digits_val_push(ip.take(i - from), d);
            assert(is_digit(ip[i - from]));
        }
        acc = acc * 10 + (d - 48) as u64;
        if acc >= 1_000_000_000_000 {
            sat = true;
        }
        i = i + 1;
    }
    proof {
        if sat {
            lemma_digits_val_prefix_le(ip, i - from, ip.len() as int);
            assert(ip.take(ip.len() as int) =~= ip);
        } else {
            assert(i == dot);
            assert(ip.take(i - from) =~= ip);
        }
    }
    // fractional part
    let fstart = if dot < to {
        dot + 1
    } else {
        to
    };
    let ghost fp = frac_part(t);
    proof {
        if dot < to {
            assert(fp =~= s@.subrange(fstart as int, to as int));
        } else {
            assert(fp =~= s@.subrange(fstart as int, to as int));
        }
        assert forall|k: int| 0 <= k < fp.len() implies is_digit(#[trigger] fp[k]) by {
            assert(fp[k] == t[dot - from + 1 + k]);
            lemma_dot_at(t);
            assert(is_digit(t[dot - from + 1 + k]) || t[dot - from + 1 + k] == 46);
        }
    }
    let fcount = if to - fstart >= 7 {
        7
    } else {
        to - fstart
    };
    proof {
        assert forall|i: int| fstart <= i < fstart + fcount implies is_digit(#[trigger] s@[i]) by {
            assert(s@[i] == fp[i - fstart]);
        }
    }
    let fdigits = digits_value(s, fstart, fstart + fcount);
    proof {
        lemma_pow10_adds(fcount as nat, (7 - fcount) as nat);
        lemma_pow10_pos((7 - fcount) as nat);
        assert(fdigits * pow10((7 - fcount) as nat) <= (pow10(fcount as nat) - 1) * pow10(
            (7 - fcount) as nat,
        )) by (nonlinear_arith)
            requires
                fdigits <= pow10(fcount as nat) - 1,
                fdigits >= 0,
                pow10((7 - fcount) as nat) >= 1,
        ;
        assert((pow10(fcount as nat) - 1) * pow10((7 - fcount) as nat) == pow10(7) - pow10(
            (7 - fcount) as nat,
        )) by (nonlinear_arith)
            requires
                pow10(fcount as nat) * pow10((7 - fcount) as nat) == pow10(7),
        ;
    }
    let f7: u64 = fdigits * pow10_u64((7 - fcount) as u64);
    proof {
        if fp.len() >= 7 {
            assert(fp.take(7) =~= s@.subrange(fstart as int, (fstart + fcount) as int));
            assert(f7 == frac7_val(fp));
        } else {
            assert(fp.take(fp.len() as int) =~= fp);
            assert(fp =~= s@.subrange(fstart as int, (fstart + fcount) as int));
            lemma_digits_val_bound(fp);
            lemma_pow10_mono((7 - fp.len()) as nat, 7);
            assert(digits_val(fp) * pow10((7 - fp.len()) as nat) <= (pow10(fp.len() as nat) - 1)
                * pow10((7 - fp.len()) as nat)) by (nonlinear_arith)
                requires
                    digits_val(fp) <= pow10(fp.len() as nat) - 1,
                    digits_val(fp) >= 0,
                    pow10((7 - fp.len()) as nat) >= 1,
            {
                lemma_pow10_pos((7 - fp.len()) as nat);
            }
            assert(f7 == frac7_val(fp));
        }
        lemma_frac7_bound(fp);
    }
    // combine
    if sat {
        proof {
            lemma_digits_val_bound(ip);
            assert(digits_val(ip) * 10_000_000 >= 1_000_000_000_000 * 10_000_000)
                by (nonlinear_arith)
                requires
                    digits_val(ip) >= 1_000_000_000_000,
            ;
        }
        return 0x8000_0000_0000_0000u64;
    }
    proof {
        assert(acc * 10_000_000 < 1_000_000_000_000 * 10_000_000) by (nonlinear_arith)
            requires
                0 <= acc < 1_000_000_000_000,
        ;
    }
    let ticks: u64 = acc * 10_000_000 + f7;
    if ticks >= 0x8000_0000_0000_0000u64 {
        0x8000_0000_0000_0000u64
    } else {
        ticks
    }
}

/// Tick value of a validated TAL onset or duration text, saturating at the
/// `i64` range.
pub fn time_text_ticks(s: &[u8], from: usize, to: usize) -> (r: i64)
    requires
        0 <= from <= to <= s@.len(),
        digits_and_dots(s@.subrange(from as int, to as int)),
        at_most_one_dot(s@.subrange(from as int, to as int)),
    ensures
        r == sat_i64(digit_text_ticks(s@.subrange(from as int, to as int))),
{
    let mag = ticks_magnitude(s, from, to);
    proof {
        lemma_ticks_nonneg(s@.subrange(from as int, to as int));
    }
    if mag >= 0x8000_0000_0000_0000u64 {
        i64::MAX
    } else {
        mag as i64
    }
}

/// A decimal text's tick value is never negative.
pub proof fn lemma_ticks_nonneg(s: Seq<u8>)
    requires
        digits_and_dots(s),
        at_most_one_dot(s),
    ensures
        digit_text_ticks(s) >= 0,
{
    let t = s;
    lemma_dot_index_le_len(t);
    lemma_no_dot_before(t);
    assert forall|i: int| 0 <= i < int_part(t).len() implies is_digit(#[trigger] int_part(t)[i]) by {
        assert(int_part(t)[i] == t[i]);
    }
    lemma_digits_val_bound(int_part(t));
    assert forall|i: int| 0 <= i < frac_part(t).len() implies is_digit(
        #[trigger] frac_part(t)[i],
    ) by {
        lemma_dot_at(t);
        assert(frac_part(t)[i] == t[dot_index(t) + 1 + i]);
    }
    lemma_frac7_bound(frac_part(t));
    assert(digits_val(int_part(t)) * ticks_per_second() >= 0) by (nonlinear_arith)
        requires
            digits_val(int_part(t)) >= 0,
    ;
}

/// Parses a record-start timestamp text: strips leading plus signs, honours
/// one minus sign, and requires a strict decimal number.
pub fn timestamp_ticks(s: &[u8], from: usize, to: usize) -> (r: Option<i64>)
    requires
        0 <= from <= to <= s@.len(),
    ensures
        r is Some <==> timestamp_ticks_spec(s@.subrange(from as int, to as int)) is Some,
        r is Some ==> r.unwrap() == timestamp_ticks_spec(
            s@.subrange(from as int, to as int),
        ).unwrap(),
{
    let ghost t0 = s@.subrange(from as int, to as int);
    let mut k = from;
    while k < to && s[k] == 43
        invariant
            from <= k <= to <= s@.len(),
            t0 == s@.subrange(from as int, to as int),
            forall|i: int| 0 <= i < k - from ==> #[trigger] t0[i] == 43,
        decreases to - k,
    {
        proof {
            assert(t0[k - from] == s@[k as int]);
        }
        k = k + 1;
    }
    proof {
        assert(k < to ==> t0[k - from] == s@[k as int] && t0[k - from] != 43);
        lemma_strip_plus_is(t0, k - from);
    }
    let ghost u = strip_plus(t0);
    let neg = k < to && s[k] == 45;
    let numstart = if neg {
        k + 1
    } else {
        k
    };
    let ghost t = if neg {
        u.drop_first()
    } else {
        u
    };
    proof {
        assert(u =~= s@.subrange(k as int, to as int));
        assert(t =~= s@.subrange(numstart as int, to as int));
        assert(u.len() > 0 ==> u[0] == s@[k as int]);
    }
    if numstart >= to {
        return None;
    }
    if !scan_digits_dots(s, numstart, to) {
        return None;
    }
    if to - numstart == 1 && s[numstart] == 46 {
        proof {
            assert(t[0] == s@[numstart as int]);
        }
        return None;
    }
    proof {
        assert(t[0] == s@[numstart as int]);
        assert(strict_number_text(t));
    }
    let mag = ticks_magnitude(s, numstart, to);
    proof {
        lemma_ticks_nonneg(t);
    }
    if neg {
        if mag >= 0x8000_0000_0000_0000u64 {
            Some(i64::MIN)
        } else {
            Some(-(mag as i64))
        }
    } else {
        if mag >= 0x8000_0000_0000_0000u64 {
            Some(i64::MAX)
        } else {
            Some(mag as i64)
        }
    }
}

/// If the first `j` bytes are plus signs and byte `j` is not (or is the
/// end), stripping removes exactly `j` bytes.
pub proof fn lemma_strip_plus_is(s: Seq<u8>, j: int)
    requires
        0 <= j <= s.len(),
        forall|i: int| 0 <= i < j ==> #[trigger] s[i] == 43,
        j == s.len() || s[j] != 43,
    ensures
        strip_plus(s) == s.skip(j),
    decreases j,
{
    if j == 0 {
        assert(s.skip(0) =~= s);
    } else {
        lemma_strip_plus_is(s.drop_first(), j - 1);
        assert(s.drop_first().skip(j - 1) =~= s.skip(j));
    }
}

} // verus!
