//! Byte-level helpers for the fixed-width ASCII fields of an EDF+ header:
//! whitespace trimming and locale-independent integer parsing.

use vstd::prelude::*;

verus! {

/// ASCII whitespace: space, tab, line feed, vertical tab, form feed,
/// carriage return.
pub open spec fn is_space(b: u8) -> bool {
    b == 32 || b == 9 || b == 10 || b == 11 || b == 12 || b == 13
}

/// ASCII decimal digit.
pub open spec fn is_digit(b: u8) -> bool {
    48 <= b && b <= 57
}

/// `s` with its leading whitespace removed.
pub open spec fn trim_start_of(s: Seq<u8>) -> Seq<u8>
    decreases s.len(),
{
    if s.len() > 0 && is_space(s[0]) {
        trim_start_of(s.drop_first())
    } else {
        s
    }
}

/// `s` with its trailing whitespace removed.
pub open spec fn trim_end_of(s: Seq<u8>) -> Seq<u8>
    decreases s.len(),
{
    if s.len() > 0 && is_space(s.last()) {
        trim_end_of(s.drop_last())
    } else {
        s
    }
}

/// `s` with both leading and trailing whitespace removed.
pub open spec fn trim_of(s: Seq<u8>) -> Seq<u8> {
    trim_end_of(trim_start_of(s))
}

/// Value of a sequence of digit bytes read as a decimal numeral,
/// most significant digit first.
pub open spec fn digits_val(s: Seq<u8>) -> int
    decreases s.len(),
{
    if s.len() == 0 {
        0
    } else {
        digits_val(s.drop_last()) * 10 + (s.last() - 48)
    }
}

/// Length of the longest digit-only prefix of `s`.
pub open spec fn digit_prefix_len(s: Seq<u8>) -> int
    decreases s.len(),
{
    if s.len() > 0 && is_digit(s[0]) {
        1 + digit_prefix_len(s.drop_first())
    } else {
        0
    }
}

/// Value of the longest digit-only prefix of `s`.
pub open spec fn digits_prefix_val(s: Seq<u8>) -> int {
    digits_val(s.take(digit_prefix_len(s)))
}

/// Ten to the `n`.
pub open spec fn pow10(n: nat) -> int
    decreases n,
{
    if n == 0 {
        1
    } else {
        10 * pow10((n - 1) as nat)
    }
}

/// The integer parser of the header fields: skip leading whitespace, accept
/// one optional sign, then read digits until the first non-digit; an empty
/// digit run yields 0.
pub open spec fn atoi_spec(s: Seq<u8>) -> int {
    let t = trim_start_of(s);
    if t.len() > 0 && t[0] == 45 {
        -digits_prefix_val(t.drop_first())
    } else if t.len() > 0 && t[0] == 43 {
        digits_prefix_val(t.drop_first())
    } else {
        digits_prefix_val(t)
    }
}

/// Concrete values of the small powers of ten that the parsers use.
pub proof fn lemma_pow10_values()
    ensures
        pow10(7) == 10_000_000,
        pow10(8) == 100_000_000,
        pow10(12) == 1_000_000_000_000,
        pow10(19) == 10_000_000_000_000_000_000,
{
    reveal_with_fuel(pow10, 20);
}

pub proof fn lemma_pow10_pos(n: nat)
    ensures
        pow10(n) >= 1,
    decreases n,
{
    if n > 0 {
        lemma_pow10_pos((n - 1) as nat);
    }
}

pub proof fn lemma_pow10_mono(a: nat, b: nat)
    requires
        a <= b,
    ensures
        pow10(a) <= pow10(b),
    decreases b,
{
    if a < b {
        lemma_pow10_mono(a, (b - 1) as nat);
        lemma_pow10_pos((b - 1) as nat);
    }
}

/// Appending one digit multiplies the value by ten and adds the digit.
pub proof fn lemma_digits_val_push(s: Seq<u8>, d: u8)
    ensures
        digits_val(s.push(d)) == digits_val(s) * 10 + (d - 48),
{
    assert(s.push(d).drop_last() =~= s);
}

/// A run of `n` digits is worth less than ten to the `n`.
pub proof fn lemma_digits_val_bound(s: Seq<u8>)
    requires
        forall|i: int| 0 <= i < s.len() ==> is_digit(#[trigger] s[i]),
    ensures
        0 <= digits_val(s) < pow10(s.len() as nat),
    decreases s.len(),
{
    if s.len() > 0 {
        lemma_digits_val_bound(s.drop_last());
        assert(is_digit(s[s.len() - 1]));
    }
}

/// The digit prefix never reaches past the end.
pub proof fn lemma_digit_prefix_len_le(s: Seq<u8>)
    ensures
        0 <= digit_prefix_len(s) <= s.len(),
    decreases s.len(),
{
    if s.len() > 0 && is_digit(s[0]) {
        lemma_digit_prefix_len_le(s.drop_first());
    }
}

/// Every byte of the digit prefix is a digit.
pub proof fn lemma_digit_prefix_digits(s: Seq<u8>)
    ensures
        forall|i: int| 0 <= i < digit_prefix_len(s) && i < s.len() ==> is_digit(#[trigger] s[i]),
    decreases s.len(),
{
    if s.len() > 0 && is_digit(s[0]) {
        lemma_digit_prefix_digits(s.drop_first());
        assert forall|i: int|
            0 <= i < digit_prefix_len(s) && i < s.len() implies is_digit(#[trigger] s[i]) by {
            if i > 0 {
                assert(s.drop_first()[i - 1] == s[i]);
            }
        }
    }
}

/// Trimming from the start never lengthens a sequence.
pub proof fn lemma_trim_start_len(s: Seq<u8>)
    ensures
        trim_start_of(s).len() <= s.len(),
    decreases s.len(),
{
    if s.len() > 0 && is_space(s[0]) {
        lemma_trim_start_len(s.drop_first());
    }
}

/// An integer read from a field of at most eight bytes has at most eight
/// digits.
pub proof fn lemma_atoi_spec_bound(s: Seq<u8>)
    requires
        s.len() <= 8,
    ensures
        -99999999 <= atoi_spec(s) <= 99999999,
{
    lemma_trim_start_len(s);
    let t = trim_start_of(s);
    let u = if t.len() > 0 && (t[0] == 45 || t[0] == 43) {
        t.drop_first()
    } else {
        t
    };
    lemma_digit_prefix_len_le(u);
    lemma_digit_prefix_digits(u);
    let d = digit_prefix_len(u);
    assert forall|i: int| 0 <= i < u.take(d).len() implies is_digit(#[trigger] u.take(d)[i]) by {
        assert(u.take(d)[i] == u[i]);
    }
    lemma_digits_val_bound(u.take(d));
    lemma_pow10_mono(u.take(d).len() as nat, 8);
    lemma_pow10_values();
}

/// If the first `j` bytes are whitespace and byte `j` is not (or is the end),
/// trimming from the start drops exactly `j` bytes.
pub proof fn lemma_trim_start_is_skip(s: Seq<u8>, j: int)
    requires
        0 <= j <= s.len(),
        forall|i: int| 0 <= i < j ==> is_space(#[trigger] s[i]),
        j == s.len() || !is_space(s[j]),
    ensures
        trim_start_of(s) == s.skip(j),
    decreases j,
{
    if j == 0 {
        assert(s.skip(0) =~= s);
    } else {
        lemma_trim_start_is_skip(s.drop_first(), j - 1);
        assert(s.drop_first().skip(j - 1) =~= s.skip(j));
    }
}

/// If bytes `j..` are whitespace and byte `j - 1` is not (or `j` is 0),
/// trimming from the end keeps exactly the first `j` bytes.
pub proof fn lemma_trim_end_is_take(s: Seq<u8>, j: int)
    requires
        0 <= j <= s.len(),
        forall|i: int| j <= i < s.len() ==> is_space(#[trigger] s[i]),
        j == 0 || !is_space(s[j - 1]),
    ensures
        trim_end_of(s) == s.take(j),
    decreases s.len(),
{
    if j == s.len() {
        assert(s.take(j) =~= s);
    } else {
        assert(is_space(s.last()));
        lemma_trim_end_is_take(s.drop_last(), j);
        assert(s.drop_last().take(j) =~= s.take(j));
    }
}

/// If the first `j` bytes are digits and byte `j` is not (or is the end),
/// the digit prefix has length exactly `j`.
pub proof fn lemma_digit_prefix_len_is(s: Seq<u8>, j: int)
    requires
        0 <= j <= s.len(),
        forall|i: int| 0 <= i < j ==> is_digit(#[trigger] s[i]),
        j == s.len() || !is_digit(s[j]),
    ensures
        digit_prefix_len(s) == j,
    decreases j,
{
    if j > 0 {
        lemma_digit_prefix_len_is(s.drop_first(), j - 1);
    }
}

/// Reads the decimal value of `s@.subrange(from, to)`, a run of digits.
pub(crate) fn digits_value(s: &[u8], from: usize, to: usize) -> (r: u64)
    requires
        0 <= from <= to <= s@.len(),
        to - from <= 8,
        forall|i: int| from <= i < to ==> is_digit(#[trigger] s@[i]),
    ensures
        r == digits_val(s@.subrange(from as int, to as int)),
        r < pow10((to - from) as nat),
{
    let ghost run = s@.subrange(from as int, to as int);
    let mut acc: u64 = 0;
    let mut i: usize = from;
    proof {
        assert(run.take(0) =~= Seq::<u8>::empty());
        lemma_pow10_mono(0, (to - from) as nat);
    }
    while i < to
        invariant
            from <= i <= to <= s@.len(),
            to - from <= 8,
            run == s@.subrange(from as int, to as int),
            forall|k: int| from <= k < to ==> is_digit(#[trigger] s@[k]),
            acc == digits_val(run.take(i - from)),
            acc < pow10((i - from) as nat),
        decreases to - i,
    {
        let d = s[i];
        proof {
            assert(run[i - from] == s@[i as int]);
            assert(run.take(i - from + 1) =~= run.take(i - from).push(run[i - from]));
            lemma_digits_val_push(run.take(i - from), d);
            lemma_pow10_mono((i + 1 - from) as nat, (to - from) as nat);
            lemma_pow10_mono((i - from) as nat, 8);
            lemma_pow10_values();
            assert(is_digit(s@[i as int]));
        }
        acc = acc * 10 + (d - 48) as u64;
        i = i + 1;
    }
    proof {
        assert(run.take(to - from) =~= run);
    }
    acc
}

/// The index range of `s` that remains after trimming whitespace from both
/// ends; the empty range `(0, 0)` when everything is whitespace.
pub fn trimmed_range(s: &[u8]) -> (r: (usize, usize))
    ensures
        0 <= r.0 <= r.1 <= s@.len(),
        s@.subrange(r.0 as int, r.1 as int) == trim_of(s@),
{
    let n = s.len();
    let mut lo: usize = 0;
    while lo < n && space_byte(s[lo])
        invariant
            0 <= lo <= n == s@.len(),
            forall|i: int| 0 <= i < lo ==> is_space(#[trigger] s@[i]),
        decreases n - lo,
    {
        lo = lo + 1;
    }
    let mut hi: usize = n;
    while hi > lo && space_byte(s[hi - 1])
        invariant
            lo <= hi <= n == s@.len(),
            forall|i: int| 0 <= i < lo ==> is_space(#[trigger] s@[i]),
            forall|i: int| hi <= i < n ==> is_space(#[trigger] s@[i]),
        decreases hi,
    {
        hi = hi - 1;
    }
    proof {
        lemma_trim_start_is_skip(s@, lo as int);
        let t = s@.skip(lo as int);
        lemma_trim_end_is_take(t, hi - lo);
        assert(t.take(hi - lo) =~= s@.subrange(lo as int, hi as int));
    }
    if hi <= lo {
        proof {
            assert(hi == lo);
            assert(s@.subrange(0, 0) =~= s@.subrange(lo as int, hi as int));
        }
        (0, 0)
    } else {
        (lo, hi)
    }
}

/// Whether `b` is ASCII whitespace.
pub fn space_byte(b: u8) -> (r: bool)
    ensures
        r == is_space(b),
{
    b == 32 || b == 9 || b == 10 || b == 11 || b == 12 || b == 13
}

/// Whether `b` is an ASCII digit.
pub fn digit_byte(b: u8) -> (r: bool)
    ensures
        r == is_digit(b),
{
    48 <= b && b <= 57
}

/// Locale-independent integer parser for a fixed-width ASCII field: skips
/// leading whitespace, accepts an optional sign, and reads digits up to the
/// first non-digit; an empty digit run yields 0.
pub fn atoi_nonlocalized(s: &[u8]) -> (r: i32)
    requires
        s@.len() <= 8,
    ensures
        r == atoi_spec(s@),
        -99999999 <= r <= 99999999,
{
    let n = s.len();
    let mut k: usize = 0;
    while k < n && space_byte(s[k])
        invariant
            0 <= k <= n == s@.len(),
            forall|i: int| 0 <= i < k ==> is_space(#[trigger] s@[i]),
        decreases n - k,
    {
        k = k + 1;
    }
    proof {
        lemma_trim_start_is_skip(s@, k as int);
    }
    let ghost t = s@.skip(k as int);
    let mut negative = false;
    let mut start = k;
    if k < n && (s[k] == 45 || s[k] == 43) {
        negative = s[k] == 45;
        start = k + 1;
    }
    let ghost u = if start > k {
        t.drop_first()
    } else {
        t
    };
    proof {
        assert(u =~= s@.skip(start as int));
    }
    let mut stop = start;
    while stop < n && digit_byte(s[stop])
        invariant
            start <= stop <= n == s@.len(),
            forall|i: int| start <= i < stop ==> is_digit(#[trigger] s@[i]),
        decreases n - stop,
    {
        stop = stop + 1;
    }
    proof {
        lemma_digit_prefix_len_is(u, stop - start);
        assert(u.take(stop - start) =~= s@.subrange(start as int, stop as int));
        lemma_pow10_mono((stop - start) as nat, 8);
        lemma_pow10_values();
    }
    let mag = digits_value(s, start, stop);
    proof {
        assert(mag == digits_prefix_val(u));
        assert(t.len() > 0 ==> t[0] == s@[k as int]);
        if start > k {
            assert(u == t.drop_first());
        } else {
            assert(u == t);
            assert(!(t.len() > 0 && (t[0] == 45 || t[0] == 43)));
        }
        assert(mag <= 99999999) by {
            lemma_pow10_mono((stop - start) as nat, 8);
            lemma_pow10_values();
        }
    }
    if negative {
        -(mag as i32)
    } else {
        mag as i32
    }
}

} // verus!
