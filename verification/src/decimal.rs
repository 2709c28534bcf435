//! Locale-independent float parsing of the fixed-width ASCII header fields,
//! with exact decimal semantics.
//!
//! A parsed field is kept as a mantissa and a power-of-ten exponent, so that
//! the header validations and the record-duration tick conversion can be
//! stated and proved exactly, without floating point.

use vstd::prelude::*;
use crate::ascii::{
    is_digit, is_space, digits_val, digit_prefix_len, digits_prefix_val, pow10, trim_start_of,
    trim_of, lemma_pow10_values, lemma_pow10_pos, lemma_pow10_mono, lemma_trim_start_is_skip,
    lemma_digit_prefix_len_is, digits_value, space_byte, digit_byte, trimmed_range,
};
use crate::numeric::{sat_i64, lemma_pow10_adds, pow10_u64};

verus! {

/// A decimal number `mant * 10^exp10`, parsed exactly from an ASCII field.
#[derive(Clone, Copy, Debug, PartialEq, Eq, Structural)]
pub struct DecimalValue {
    /// Signed mantissa: the significant digits with the sign applied.
    pub mant: i64,
    /// Power-of-ten scale of the mantissa.
    pub exp10: i32,
}

/// Whether the field carries a minus sign.
pub open spec fn atof_neg(s: Seq<u8>) -> bool {
    let t = trim_start_of(s);
    t.len() > 0 && t[0] == 45
}

/// The field after leading whitespace and an optional sign.
pub open spec fn atof_body(s: Seq<u8>) -> Seq<u8> {
    let t = trim_start_of(s);
    if t.len() > 0 && (t[0] == 45 || t[0] == 43) {
        t.drop_first()
    } else {
        t
    }
}

/// Whether a dot follows directly after the integer digits.
pub open spec fn body_has_dot(u: Seq<u8>) -> bool {
    digit_prefix_len(u) < u.len() && u[digit_prefix_len(u)] == 46
}

/// Number of fractional digits.
pub open spec fn body_frac_len(u: Seq<u8>) -> int {
    if body_has_dot(u) {
        digit_prefix_len(u.skip(digit_prefix_len(u) + 1))
    } else {
        0
    }
}

/// Unsigned mantissa: integer and fractional digits read as one numeral.
pub open spec fn body_mag(u: Seq<u8>) -> int {
    let il = digit_prefix_len(u);
    if body_has_dot(u) {
        digits_val(u.take(il)) * pow10(body_frac_len(u) as nat) + digits_val(
            u.subrange(il + 1, il + 1 + body_frac_len(u)),
        )
    } else {
        digits_val(u.take(il))
    }
}

/// Index just past the mantissa, where an exponent marker may stand.
pub open spec fn body_exp_pos(u: Seq<u8>) -> int {
    if body_has_dot(u) {
        digit_prefix_len(u) + 1 + body_frac_len(u)
    } else {
        digit_prefix_len(u)
    }
}

/// Whether an `e` or `E` exponent marker follows the mantissa.
pub open spec fn body_has_exp(u: Seq<u8>) -> bool {
    body_exp_pos(u) < u.len() && (u[body_exp_pos(u)] == 101 || u[body_exp_pos(u)] == 69)
}

/// Signed value of the exponent digits; 0 when there is no marker or no
/// digits follow it.
pub open spec fn body_exp_val(u: Seq<u8>) -> int {
    if body_has_exp(u) {
        let v = u.skip(body_exp_pos(u) + 1);
        if v.len() > 0 && v[0] == 45 {
            -digits_prefix_val(v.drop_first())
        } else if v.len() > 0 && v[0] == 43 {
            digits_prefix_val(v.drop_first())
        } else {
            digits_prefix_val(v)
        }
    } else {
        0
    }
}

/// Signed mantissa of the parsed field.
pub open spec fn atof_mant(s: Seq<u8>) -> int {
    if atof_neg(s) {
        -body_mag(atof_body(s))
    } else {
        body_mag(atof_body(s))
    }
}

/// Power-of-ten exponent of the parsed field.
pub open spec fn atof_exp(s: Seq<u8>) -> int {
    body_exp_val(atof_body(s)) - body_frac_len(atof_body(s))
}

/// Exact tick value of the field read as seconds: the value multiplied by
/// ten million and truncated toward zero.
pub open spec fn atof_ticks(s: Seq<u8>) -> int {
    let m = atof_mant(s);
    let p = 7 + atof_exp(s);
    let mag = if m >= 0 {
        m
    } else {
        -m
    };
    let magticks = if p >= 0 {
        mag * pow10(p as nat)
    } else {
        mag / pow10((-p) as nat)
    };
    if m >= 0 {
        magticks
    } else {
        -magticks
    }
}

/// The record-duration field: the text `1` denotes exactly one second;
/// anything else is read as float seconds and converted to ticks,
/// saturating at the `i64` range.
pub open spec fn duration_field_ticks(s: Seq<u8>) -> int {
    if trim_of(s) == seq![49u8] {
        10_000_000
    } else {
        sat_i64(atof_ticks(s))
    }
}

/// Whether two parsed decimals denote the same number.
pub open spec fn dec_same_value(a: DecimalValue, b: DecimalValue) -> bool {
    if a.exp10 <= b.exp10 {
        a.mant == b.mant * pow10((b.exp10 - a.exp10) as nat)
    } else {
        a.mant * pow10((a.exp10 - b.exp10) as nat) == b.mant
    }
}

/// Scans the unsigned mantissa of a field body starting at `body`: integer
/// digits, an optional dot, and fractional digits.
#[verifier::rlimit(50)]
fn scan_mantissa(s: &[u8], body: usize) -> (r: (u64, usize, usize))
    requires
        body <= s@.len() <= 8,
    ensures
        r.0 == body_mag(s@.skip(body as int)),
        r.1 == body_frac_len(s@.skip(body as int)),
        body + body_exp_pos(s@.skip(body as int)) == r.2,
        body <= r.2 <= s@.len(),
        r.0 <= 99999999,
        r.1 <= 8,
{
    let ghost u = s@.skip(body as int);
    let n = s.len();
    proof {
        lemma_pow10_values();
    }
    // integer digits
    let mut istop = body;
    while istop < n && digit_byte(s[istop])
        invariant
            body <= istop <= n == s@.len(),
            forall|i: int| body <= i < istop ==> is_digit(#[trigger] s@[i]),
        decreases n - istop,
    {
        istop = istop + 1;
    }
    proof {
        assert(forall|i: int| 0 <= i < istop - body ==> u[i] == s@[body + i]);
        lemma_digit_prefix_len_is(u, istop - body);
        assert(u.take(istop - body) =~= s@.subrange(body as int, istop as int));
    }
    let int_val = digits_value(s, body, istop);
    // dot and fractional digits
    let dotted = istop < n && s[istop] == 46;
    let fstart = if dotted {
        istop + 1
    } else {
        istop
    };
    let mut fend = fstart;
    while fend < n && digit_byte(s[fend])
        invariant
            fstart <= fend <= n == s@.len(),
            forall|i: int| fstart <= i < fend ==> is_digit(#[trigger] s@[i]),
        decreases n - fend,
    {
        fend = fend + 1;
    }
    proof {
        assert(istop - body < u.len() ==> u[istop - body] == s@[istop as int]);
        assert(body_has_dot(u) == dotted);
        if dotted {
            assert(u.skip(istop - body + 1) =~= s@.skip(fstart as int));
            lemma_digit_prefix_len_is(u.skip(istop - body + 1), fend - fstart);
            assert(body_frac_len(u) == fend - fstart);
        }
    }
    let frac_val = digits_value(s, fstart, fend);
    let flen = fend - fstart;
    // assemble the unsigned mantissa
    proof {
        lemma_pow10_adds((istop - body) as nat, flen as nat);
        lemma_pow10_mono(((istop - body) + flen) as nat, 8);
        lemma_pow10_pos(flen as nat);
        assert(int_val * pow10(flen as nat) <= (pow10((istop - body) as nat) - 1) * pow10(
            flen as nat,
        )) by (nonlinear_arith)
            requires
                int_val <= pow10((istop - body) as nat) - 1,
                int_val >= 0,
                pow10(flen as nat) >= 1,
        ;
        assert((pow10((istop - body) as nat) - 1) * pow10(flen as nat) == pow10(
            ((istop - body) + flen) as nat,
        ) - pow10(flen as nat)) by (nonlinear_arith)
            requires
                pow10((istop - body) as nat) * pow10(flen as nat) == pow10(
                    ((istop - body) + flen) as nat,
                ),
        ;
    }
    let mag: u64 = int_val * pow10_u64(flen as u64) + frac_val;
    proof {
        if dotted {
            assert(u.subrange(istop - body + 1, istop - body + 1 + flen) =~= s@.subrange(
                fstart as int,
                fend as int,
            ));
            assert(mag == body_mag(u));
            assert(body_exp_pos(u) == fend - body);
        } else {
            assert(flen == 0);
            assert(mag == int_val * 1 + 0);
            assert(mag == body_mag(u));
            assert(body_exp_pos(u) == fend - body);
        }
        assert(mag <= 99999999);
    }
    (mag, flen, fend)
}

/// Scans the optional exponent of a field body, `after` being the index just
/// past the mantissa.
#[verifier::rlimit(50)]
fn scan_exponent(s: &[u8], body: usize, after: usize) -> (e: i64)
    requires
        body <= after <= s@.len() <= 8,
        after == body + body_exp_pos(s@.skip(body as int)),
    ensures
        e == body_exp_val(s@.skip(body as int)),
        -99999999 <= e <= 99999999,
{
    let ghost u = s@.skip(body as int);
    let n = s.len();
    proof {
        lemma_pow10_values();
    }
    let has_e = after < n && (s[after] == 101 || s[after] == 69);
    proof {
        assert(after - body < u.len() ==> u[after - body] == s@[after as int]);
        assert(body_has_exp(u) == has_e);
    }
    if !has_e {
        return 0;
    }
    let ghost v = u.skip(after - body + 1);
    proof {
        assert(v =~= s@.skip(after + 1));
    }
    let mut eneg = false;
    let mut ek = after + 1;
    if ek < n && (s[ek] == 45 || s[ek] == 43) {
        eneg = s[ek] == 45;
        ek = ek + 1;
    }
    let ghost w = if ek > after + 1 {
        v.drop_first()
    } else {
        v
    };
    proof {
        assert(v.len() > 0 ==> v[0] == s@[(after + 1) as int]);
        assert(w =~= s@.skip(ek as int));
    }
    let mut estop = ek;
    while estop < n && digit_byte(s[estop])
        invariant
            ek <= estop <= n == s@.len(),
            forall|i: int| ek <= i < estop ==> is_digit(#[trigger] s@[i]),
        decreases n - estop,
    {
        estop = estop + 1;
    }
    proof {
        assert(forall|i: int| 0 <= i < estop - ek ==> w[i] == s@[ek + i]);
        lemma_digit_prefix_len_is(w, estop - ek);
        assert(w.take(estop - ek) =~= s@.subrange(ek as int, estop as int));
        lemma_pow10_mono((estop - ek) as nat, 8);
    }
    let eval = digits_value(s, ek, estop);
    proof {
        assert(eval == digits_prefix_val(w));
    }
    if eneg {
        -(eval as i64)
    } else {
        eval as i64
    }
}

/// Locale-independent float parser for a fixed-width ASCII field: skips
/// leading whitespace, accepts an optional sign, digits, one dot, and an
/// optional exponent; an empty digit run yields 0.
#[verifier::rlimit(50)]
pub fn parse_decimal_field(s: &[u8]) -> (d: DecimalValue)
    requires
        s@.len() <= 8,
    ensures
        d.mant == atof_mant(s@),
        d.exp10 == atof_exp(s@),
        -99999999 <= d.mant <= 99999999,
        -100000007 <= d.exp10 <= 99999999,
{
    let n = s.len();
    let mut k: usize = 0;
    while k < n && space_byte(s[k])
        invariant
            0 <= k <= n == s@.len(),
            forall|i: int| 0 <= i < k ==> is_space(#[trigger] s@[i]),
        decreases n - k,
    {
        k = k + 1;
    }
    proof {
        lemma_trim_start_is_skip(s@, k as int);
    }
    let ghost t = s@.skip(k as int);
    let neg = k < n && s[k] == 45;
    let body = if k < n && (s[k] == 45 || s[k] == 43) {
        k + 1
    } else {
        k
    };
    let ghost u = atof_body(s@);
    proof {
        assert(t.len() > 0 ==> t[0] == s@[k as int]);
        if body > k {
            assert(u == t.drop_first());
        } else {
            assert(u == t);
        }
        assert(u =~= s@.skip(body as int));
        assert(atof_neg(s@) == neg);
    }
    let (mag, flen, after) = scan_mantissa(s, body);
    let esigned = scan_exponent(s, body, after);
    let mant: i64 = if neg {
        -(mag as i64)
    } else {
        mag as i64
    };
    let exp10: i64 = esigned - flen as i64;
    DecimalValue { mant, exp10: exp10 as i32 }
}

/// Multiplying by a power of ten preserves being zero.
proof fn lemma_mul_pow10_zero(m: int, n: nat)
    ensures
        (m * pow10(n) == 0) <==> m == 0,
{
    lemma_pow10_pos(n);
    assert((m * pow10(n) == 0) <==> m == 0) by (nonlinear_arith)
        requires
            pow10(n) >= 1,
    ;
}

/// A nonzero mantissa scaled by at least a billion leaves the field range.
proof fn lemma_mul_pow10_big(m: int, n: nat)
    requires
        m != 0,
        n >= 9,
    ensures
        m * pow10(n) >= 1000000000 || m * pow10(n) <= -1000000000,
{
    lemma_pow10_values();
    lemma_pow10_mono(9, n);
    assert(m * pow10(n) >= 1000000000 || m * pow10(n) <= -1000000000) by (nonlinear_arith)
        requires
            m != 0,
            pow10(n) >= 1000000000,
    ;
}

/// Decides whether two parsed fields denote the same number.
pub fn dec_eq(a: DecimalValue, b: DecimalValue) -> (r: bool)
    requires
        -99999999 <= a.mant <= 99999999,
        -99999999 <= b.mant <= 99999999,
        -100000007 <= a.exp10 <= 99999999,
        -100000007 <= b.exp10 <= 99999999,
    ensures
        r == dec_same_value(a, b),
{
    proof {
        lemma_pow10_values();
    }
    if a.mant == 0 || b.mant == 0 {
        proof {
            if a.exp10 <= b.exp10 {
                lemma_mul_pow10_zero(b.mant as int, (b.exp10 - a.exp10) as nat);
            } else {
                lemma_mul_pow10_zero(a.mant as int, (a.exp10 - b.exp10) as nat);
            }
        }
        return a.mant == 0 && b.mant == 0;
    }
    if a.exp10 <= b.exp10 {
        let d: i64 = b.exp10 as i64 - a.exp10 as i64;
        if d >= 9 {
            proof {
                lemma_mul_pow10_big(b.mant as int, d as nat);
            }
            false
        } else {
            proof {
                lemma_pow10_mono(d as nat, 8);
                lemma_pow10_pos(d as nat);
                assert(-10000000000000000 <= b.mant * pow10(d as nat) <= 10000000000000000)
                    by (nonlinear_arith)
                    requires
                        -99999999 <= b.mant <= 99999999,
                        1 <= pow10(d as nat) <= 100000000,
                ;
            }
            let scaled: i64 = b.mant * pow10_u64(d as u64) as i64;
            a.mant == scaled
        }
    } else {
        let d: i64 = a.exp10 as i64 - b.exp10 as i64;
        if d >= 9 {
            proof {
                lemma_mul_pow10_big(a.mant as int, d as nat);
            }
            false
        } else {
            proof {
                lemma_pow10_mono(d as nat, 8);
                lemma_pow10_pos(d as nat);
                assert(-10000000000000000 <= a.mant * pow10(d as nat) <= 10000000000000000)
                    by (nonlinear_arith)
                    requires
                        -99999999 <= a.mant <= 99999999,
                        1 <= pow10(d as nat) <= 100000000,
                ;
            }
            let scaled: i64 = a.mant * pow10_u64(d as u64) as i64;
            scaled == b.mant
        }
    }
}

/// Converts the record-duration field to ticks.
pub fn parse_duration_field(s: &[u8]) -> (r: i64)
    requires
        s@.len() <= 8,
    ensures
        r == duration_field_ticks(s@),
{
    proof {
        lemma_pow10_values();
    }
    let tr = trimmed_range(s);
    if tr.1 - tr.0 == 1 && s[tr.0] == 49 {
        proof {
            assert(trim_of(s@) =~= seq![49u8]);
        }
        return 10_000_000;
    }
    proof {
        if trim_of(s@) == seq![49u8] {
            assert(s@.subrange(tr.0 as int, tr.1 as int).len() == 1);
            assert(s@.subrange(tr.0 as int, tr.1 as int)[0] == 49);
            assert(false);
        }
    }
    let d = parse_decimal_field(s);
    let mag: u64 = if d.mant < 0 {
        (-d.mant) as u64
    } else {
        d.mant as u64
    };
    let neg = d.mant < 0;
    let p: i64 = 7 + d.exp10 as i64;
    if mag == 0 {
        proof {
            if p >= 0 {
                assert(0 * pow10(p as nat) == 0) by (nonlinear_arith);
            } else {
                lemma_pow10_pos((-p) as nat);
            }
        }
        return 0;
    }
    if p >= 19 {
        proof {
            lemma_pow10_mono(19, p as nat);
            assert(mag * pow10(p as nat) >= pow10(p as nat)) by (nonlinear_arith)
                requires
                    mag >= 1,
                    pow10(p as nat) >= 1,
            ;
        }
        if neg {
            return i64::MIN;
        }
        return i64::MAX;
    }
    if p >= 0 {
        proof {
            lemma_pow10_mono(p as nat, 18);
            lemma_pow10_pos(p as nat);
            assert(mag * pow10(p as nat) <= 99999999 * pow10(18)) by (nonlinear_arith)
                requires
                    0 <= mag <= 99999999,
                    0 < pow10(p as nat) <= pow10(18),
            ;
        }
        let prod: u128 = (mag as u128) * (pow10_u64(p as u64) as u128);
        if prod >= 0x8000_0000_0000_0000u128 {
            if neg {
                return i64::MIN;
            }
            return i64::MAX;
        }
        if neg {
            return -(prod as i64);
        }
        return prod as i64;
    }
    let q: i64 = -p;
    if q >= 8 {
        proof {
            lemma_pow10_mono(8, q as nat);
            lemma_div_small(mag as int, pow10(q as nat));
        }
        return 0;
    }
    proof {
        lemma_pow10_pos(q as nat);
        lemma_pow10_mono(q as nat, 8);
    }
    let r0: u64 = mag / pow10_u64(q as u64);
    if neg {
        -(r0 as i64)
    } else {
        r0 as i64
    }
}

/// A non-negative number below the divisor divides to zero.
proof fn lemma_div_small(x: int, d: int)
    requires
        0 <= x < d,
    ensures
        x / d == 0,
{
    assert(x / d == 0) by (nonlinear_arith)
        requires
            0 <= x < d,
    ;
}

} // verus!
