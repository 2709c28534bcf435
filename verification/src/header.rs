//! Decoder of the fixed-layout ASCII header: the 256-byte main header and
//! the signal-descriptor block of 256 bytes per signal.

use vstd::prelude::*;
use crate::ascii::{atoi_spec, trim_of, atoi_nonlocalized, trimmed_range};
use crate::decimal::{
    DecimalValue, atof_mant, atof_exp, duration_field_ticks, dec_same_value, parse_decimal_field,
    dec_eq, parse_duration_field,
};
use crate::numeric::{dot_index, sat_i64, lemma_dot_index_is};
use crate::cal::{valid_date, valid_time, chrono_ymd_valid, chrono_hms_valid};
use crate::error::EdfError;
use crate::text::{lossy_of, nth_token, rest_of_tokens, bytes_to_string, field_tokens, join_token_bytes};
use crate::types::{EdfDate, EdfTime, EdfHeader, SignalParam, SignalInfo};
use vstd::slice::slice_subrange;

verus! {

// ---------------------------------------------------------------------------
// Main-header fields
// ---------------------------------------------------------------------------

/// Declared signal count (field at bytes 252..256).
pub open spec fn nsignals_of(data: Seq<u8>) -> int {
    atoi_spec(data.subrange(252, 256))
}

/// Whether the version field (bytes 0..8), trimmed, starts with `0`.
pub open spec fn version_ok(data: Seq<u8>) -> bool {
    let t = trim_of(data.subrange(0, 8));
    t.len() > 0 && t[0] == 48
}

/// Declared header size in bytes (field at bytes 184..192).
pub open spec fn hdrsize_field(data: Seq<u8>) -> int {
    atoi_spec(data.subrange(184, 192))
}

/// Whether the reserved field begins with `EDF+C`.
pub open spec fn edfplus_ok(data: Seq<u8>) -> bool {
    data[192] == 69 && data[193] == 68 && data[194] == 70 && data[195] == 43 && data[196] == 67
}

/// Declared number of data records (field at bytes 236..244).
pub open spec fn datarecords_of(data: Seq<u8>) -> int {
    atoi_spec(data.subrange(236, 244))
}

/// Duration of one data record in ticks (field at bytes 244..252).
pub open spec fn duration_ticks_of(data: Seq<u8>) -> int {
    duration_field_ticks(data.subrange(244, 252))
}

// ---------------------------------------------------------------------------
// Date and time fields (dd.mm.yy and hh.mm.ss)
// ---------------------------------------------------------------------------

/// Position of the first dot of `s`.
pub open spec fn dot1(s: Seq<u8>) -> int {
    dot_index(s)
}

/// Position of the second dot of `s`, or the length.
pub open spec fn dot2(s: Seq<u8>) -> int {
    if dot1(s) < s.len() {
        dot1(s) + 1 + dot_index(s.skip(dot1(s) + 1))
    } else {
        s.len() as int
    }
}

/// Position of a third dot of `s`, or the length.
pub open spec fn dot3(s: Seq<u8>) -> int {
    if dot2(s) < s.len() {
        dot2(s) + 1 + dot_index(s.skip(dot2(s) + 1))
    } else {
        s.len() as int
    }
}

/// Whether `s` splits on dots into exactly three parts.
pub open spec fn three_parts(s: Seq<u8>) -> bool {
    dot1(s) < s.len() && dot2(s) < s.len() && dot3(s) == s.len()
}

/// First dotted component of `s`, as an integer.
pub open spec fn part1_int(s: Seq<u8>) -> int {
    atoi_spec(s.take(dot1(s)))
}

/// Second dotted component of `s`, as an integer.
pub open spec fn part2_int(s: Seq<u8>) -> int {
    atoi_spec(s.subrange(dot1(s) + 1, dot2(s)))
}

/// Third dotted component of `s`, as an integer.
pub open spec fn part3_int(s: Seq<u8>) -> int {
    atoi_spec(s.skip(dot2(s) + 1))
}

/// The century rule of the start-date field: a two-digit year above 84 is in
/// the 1900s, the rest in the 2000s.
pub open spec fn date_year(s: Seq<u8>) -> int {
    if part3_int(s) > 84 {
        1900 + part3_int(s)
    } else {
        2000 + part3_int(s)
    }
}

/// Month of the start-date field.
pub open spec fn date_month(s: Seq<u8>) -> int {
    part2_int(s)
}

/// Day of the start-date field.
pub open spec fn date_day(s: Seq<u8>) -> int {
    part1_int(s)
}

/// Whether the start-date field is three dotted components that form a valid
/// calendar date.
pub open spec fn date_field_ok(s: Seq<u8>) -> bool {
    three_parts(s) && valid_date(date_year(s), date_month(s), date_day(s))
}

/// Whether the start-time field is three dotted components that form a valid
/// time of day.
pub open spec fn time_field_ok(s: Seq<u8>) -> bool {
    three_parts(s) && valid_time(part1_int(s), part2_int(s), part3_int(s))
}

// ---------------------------------------------------------------------------
// Signal-descriptor fields (column-major: each field repeated n times)
// ---------------------------------------------------------------------------

pub open spec fn sig_label_bytes(data: Seq<u8>, i: int) -> Seq<u8> {
    data.subrange(256 + i * 16, 256 + i * 16 + 16)
}

pub open spec fn sig_transducer_bytes(data: Seq<u8>, n: int, i: int) -> Seq<u8> {
    data.subrange(256 + n * 16 + i * 80, 256 + n * 16 + i * 80 + 80)
}

pub open spec fn sig_dim_bytes(data: Seq<u8>, n: int, i: int) -> Seq<u8> {
    data.subrange(256 + n * 96 + i * 8, 256 + n * 96 + i * 8 + 8)
}

pub open spec fn sig_pmin_bytes(data: Seq<u8>, n: int, i: int) -> Seq<u8> {
    data.subrange(256 + n * 104 + i * 8, 256 + n * 104 + i * 8 + 8)
}

pub open spec fn sig_pmax_bytes(data: Seq<u8>, n: int, i: int) -> Seq<u8> {
    data.subrange(256 + n * 112 + i * 8, 256 + n * 112 + i * 8 + 8)
}

pub open spec fn sig_dmin(data: Seq<u8>, n: int, i: int) -> int {
    atoi_spec(data.subrange(256 + n * 120 + i * 8, 256 + n * 120 + i * 8 + 8))
}

pub open spec fn sig_dmax(data: Seq<u8>, n: int, i: int) -> int {
    atoi_spec(data.subrange(256 + n * 128 + i * 8, 256 + n * 128 + i * 8 + 8))
}

pub open spec fn sig_prefilter_bytes(data: Seq<u8>, n: int, i: int) -> Seq<u8> {
    data.subrange(256 + n * 136 + i * 80, 256 + n * 136 + i * 80 + 80)
}

pub open spec fn sig_spr(data: Seq<u8>, n: int, i: int) -> int {
    atoi_spec(data.subrange(256 + n * 216 + i * 8, 256 + n * 216 + i * 8 + 8))
}

/// Whether a label is exactly `EDF Annotations ` (trailing space included).
pub open spec fn is_annot_label(s: Seq<u8>) -> bool {
    s.len() == 16 && s[0] == 69 && s[1] == 68 && s[2] == 70 && s[3] == 32 && s[4] == 65 && s[5]
        == 110 && s[6] == 110 && s[7] == 111 && s[8] == 116 && s[9] == 97 && s[10] == 116 && s[11]
        == 105 && s[12] == 111 && s[13] == 110 && s[14] == 115 && s[15] == 32
}

pub open spec fn sig_is_annotation(data: Seq<u8>, i: int) -> bool {
    is_annot_label(sig_label_bytes(data, i))
}

/// Byte offset of slot `i` inside one data record: two bytes per sample of
/// every earlier slot.
pub open spec fn buffer_offset_of(data: Seq<u8>, n: int, i: int) -> int
    decreases i,
{
    if i <= 0 {
        0
    } else {
        buffer_offset_of(data, n, i - 1) + 2 * sig_spr(data, n, i - 1)
    }
}

/// Whether signal `i` declares equal physical minimum and maximum.
pub open spec fn sig_phys_equal(data: Seq<u8>, n: int, i: int) -> bool {
    dec_same_value(
        sig_pmin_dec(data, n, i),
        sig_pmax_dec(data, n, i),
    )
}

pub open spec fn sig_pmin_dec(data: Seq<u8>, n: int, i: int) -> DecimalValue {
    DecimalValue {
        mant: atof_mant(sig_pmin_bytes(data, n, i)) as i64,
        exp10: atof_exp(sig_pmin_bytes(data, n, i)) as i32,
    }
}

pub open spec fn sig_pmax_dec(data: Seq<u8>, n: int, i: int) -> DecimalValue {
    DecimalValue {
        mant: atof_mant(sig_pmax_bytes(data, n, i)) as i64,
        exp10: atof_exp(sig_pmax_bytes(data, n, i)) as i32,
    }
}

// ---------------------------------------------------------------------------
// Validation outcome
// ---------------------------------------------------------------------------

/// First signal-level error at or after slot `i`, in declared order: a
/// negative samples-per-record count, then equal physical bounds, then equal
/// digital bounds (the latter two only for measurement signals).
pub open spec fn signal_check_error(data: Seq<u8>, n: int, i: int) -> Option<EdfError>
    decreases n - i when i <= n
{
    if i >= n {
        Option::None
    } else if sig_spr(data, n, i) < 0 {
        Option::Some(EdfError::InvalidHeader)
    } else if !sig_is_annotation(data, i) && sig_phys_equal(data, n, i) {
        Option::Some(EdfError::PhysicalMinEqualsMax)
    } else if !sig_is_annotation(data, i) && sig_dmin(data, n, i) == sig_dmax(data, n, i) {
        Option::Some(EdfError::DigitalMinEqualsMax)
    } else {
        signal_check_error(data, n, i + 1)
    }
}

/// The error that opening the byte image must return, or `None` when the
/// header is acceptable; the checks run in the declared order.
pub open spec fn header_check_error(data: Seq<u8>) -> Option<EdfError> {
    if data.len() < 256 {
        Option::Some(EdfError::FileReadError)
    } else if !version_ok(data) {
        Option::Some(EdfError::UnsupportedFileType)
    } else if !(1 <= nsignals_of(data) <= 640) {
        Option::Some(EdfError::InvalidSignalCount)
    } else if hdrsize_field(data) != (nsignals_of(data) + 1) * 256 {
        Option::Some(EdfError::InvalidHeader)
    } else if !edfplus_ok(data) {
        Option::Some(EdfError::UnsupportedFileType)
    } else if !date_field_ok(data.subrange(168, 176)) || !time_field_ok(data.subrange(176, 184)) {
        Option::Some(EdfError::FormatError)
    } else if data.len() < 256 + nsignals_of(data) * 256 {
        Option::Some(EdfError::FileReadError)
    } else {
        signal_check_error(data, nsignals_of(data), 0)
    }
}

/// When the signal checks pass, every slot declares a non-negative
/// samples-per-record count.
pub proof fn lemma_signal_check_ok(data: Seq<u8>, n: int, i: int)
    requires
        0 <= i <= n,
        signal_check_error(data, n, i) is None,
    ensures
        forall|j: int| i <= j < n ==> #[trigger] sig_spr(data, n, j) >= 0,
    decreases n - i,
{
    if i < n {
        lemma_signal_check_ok(data, n, i + 1);
    }
}

/// Record offsets only grow along the slot list.
pub proof fn lemma_buffer_offset_mono(data: Seq<u8>, n: int, a: int, b: int)
    requires
        0 <= a <= b <= n,
        forall|j: int| 0 <= j < n ==> #[trigger] sig_spr(data, n, j) >= 0,
    ensures
        buffer_offset_of(data, n, a) <= buffer_offset_of(data, n, b),
    decreases b,
{
    if a < b {
        lemma_buffer_offset_mono(data, n, a, b - 1);
    }
}

// ---------------------------------------------------------------------------
// User-signal mapping
// ---------------------------------------------------------------------------

/// Indexes of the non-annotation slots at or after `i`, in order.
pub open spec fn user_slots_from(slots: Seq<SignalInfo>, i: int) -> Seq<int>
    decreases slots.len() - i when 0 <= i
{
    if i >= slots.len() {
        Seq::empty()
    } else if slots[i].is_annotation {
        user_slots_from(slots, i + 1)
    } else {
        seq![i] + user_slots_from(slots, i + 1)
    }
}

/// Indexes of the non-annotation slots: the slot of user signal `k` is
/// element `k`.
pub open spec fn user_slots_of(slots: Seq<SignalInfo>) -> Seq<int> {
    user_slots_from(slots, 0)
}

/// Every listed slot index is in range, not an annotation, and they ascend.
pub proof fn lemma_user_slots_bounds(slots: Seq<SignalInfo>, i: int)
    requires
        0 <= i,
    ensures
        forall|k: int|
            0 <= k < user_slots_from(slots, i).len() ==> i <= #[trigger] user_slots_from(
                slots,
                i,
            )[k] < slots.len() && !slots[user_slots_from(slots, i)[k]].is_annotation,
    decreases slots.len() - i,
{
    if i < slots.len() {
        lemma_user_slots_bounds(slots, i + 1);
        if !slots[i].is_annotation {
            let us = user_slots_from(slots, i);
            assert(us == seq![i] + user_slots_from(slots, i + 1));
            assert forall|k: int|
                0 <= k < us.len() implies i <= #[trigger] us[k] < slots.len()
                && !slots[us[k]].is_annotation by {
                if k == 0 {
                    assert(us[0] == (seq![i] + user_slots_from(slots, i + 1))[0]);
                    assert(us[0] == i);
                } else {
                    assert(us[k] == (seq![i] + user_slots_from(slots, i + 1))[k]);
                    assert((seq![i] + user_slots_from(slots, i + 1))[k] == user_slots_from(
                        slots,
                        i + 1,
                    )[k - 1]);
                }
            }
        }
    }
}

/// Appending a slot appends its index to the user list when it is not an
/// annotation slot, and leaves the list as it was when it is.
pub proof fn lemma_user_slots_push(slots: Seq<SignalInfo>, x: SignalInfo, i: int)
    requires
        0 <= i <= slots.len(),
    ensures
        user_slots_from(slots.push(x), i) == if x.is_annotation {
            user_slots_from(slots, i)
        } else {
            user_slots_from(slots, i) + seq![slots.len() as int]
        },
    decreases slots.len() - i,
{
    if i < slots.len() {
        lemma_user_slots_push(slots, x, i + 1);
        assert(slots.push(x)[i] == slots[i]);
        if !slots[i].is_annotation {
            if x.is_annotation {
            } else {
                assert(seq![i] + (user_slots_from(slots, i + 1) + seq![slots.len() as int]) =~= (
                seq![i] + user_slots_from(slots, i + 1)) + seq![slots.len() as int]);
            }
        }
    } else {
        assert(i == slots.len());
        assert(user_slots_from(slots, i) =~= Seq::<int>::empty());
        assert(slots.push(x)[i] == x);
        assert(user_slots_from(slots.push(x), i + 1) =~= Seq::<int>::empty());
        if !x.is_annotation {
            assert(user_slots_from(slots.push(x), i) =~= seq![i] + user_slots_from(
                slots.push(x),
                i + 1,
            ));
            assert(seq![i] + user_slots_from(slots.push(x), i + 1) =~= seq![i]);
            assert(user_slots_from(slots, i) + seq![slots.len() as int] =~= seq![i]);
        } else {
            assert(user_slots_from(slots.push(x), i) =~= user_slots_from(slots.push(x), i + 1));
        }
    }
}

// ---------------------------------------------------------------------------
// Decoded-value predicates
// ---------------------------------------------------------------------------

/// How one record-layout slot reflects the descriptor block.
pub open spec fn slot_decoded(data: Seq<u8>, n: int, j: int, s: SignalInfo) -> bool {
    &&& s.buffer_offset == buffer_offset_of(data, n, j)
    &&& s.samples_per_record == sig_spr(data, n, j)
    &&& s.is_annotation == sig_is_annotation(data, j)
}

/// How one user-visible descriptor reflects the block entry of slot `j`.
pub open spec fn param_decoded(data: Seq<u8>, n: int, dr: int, j: int, p: SignalParam) -> bool {
    &&& p.label@ == lossy_of(trim_of(sig_label_bytes(data, j)))
    &&& p.transducer@ == lossy_of(trim_of(sig_transducer_bytes(data, n, j)))
    &&& p.physical_dimension@ == lossy_of(trim_of(sig_dim_bytes(data, n, j)))
    &&& p.prefilter@ == lossy_of(trim_of(sig_prefilter_bytes(data, n, j)))
    &&& p.physical_min == sig_pmin_dec(data, n, j)
    &&& p.physical_max == sig_pmax_dec(data, n, j)
    &&& p.digital_min == sig_dmin(data, n, j)
    &&& p.digital_max == sig_dmax(data, n, j)
    &&& p.samples_per_record == sig_spr(data, n, j)
    &&& p.samples_in_file == sig_spr(data, n, j) * dr
}

/// How the signal list and the slot list together reflect the block: one
/// slot per declared signal, and the `k`-th non-annotation slot is user
/// signal `k`.
pub open spec fn signals_decoded(
    data: Seq<u8>,
    n: int,
    dr: int,
    signals: Seq<SignalParam>,
    info: Seq<SignalInfo>,
) -> bool {
    &&& info.len() == n
    &&& forall|j: int| 0 <= j < n ==> slot_decoded(data, n, j, #[trigger] info[j])
    &&& signals.len() == user_slots_of(info).len()
    &&& forall|k: int|
        0 <= k < signals.len() ==> param_decoded(
            data,
            n,
            dr,
            user_slots_of(info)[k],
            #[trigger] signals[k],
        )
}

/// How a decoded header reflects the byte image (before the annotation
/// passes fill in the count and the sub-second offset).
pub open spec fn header_matches(data: Seq<u8>, h: EdfHeader, info: Seq<SignalInfo>, rs: u64) -> bool {
    let n = nsignals_of(data);
    let df = data.subrange(168, 176);
    let tf = data.subrange(176, 184);
    &&& signals_decoded(data, n, datarecords_of(data), h.signals@, info)
    &&& h.datarecords_in_file == datarecords_of(data)
    &&& h.datarecord_duration == duration_ticks_of(data)
    &&& h.file_duration == sat_i64(duration_ticks_of(data) * datarecords_of(data))
    &&& h.start_date.year == date_year(df)
    &&& h.start_date.month == date_month(df)
    &&& h.start_date.day == date_day(df)
    &&& h.start_time.hour == part1_int(tf)
    &&& h.start_time.minute == part2_int(tf)
    &&& h.start_time.second == part3_int(tf)
    &&& h.patient_code@ == lossy_of(nth_token(data.subrange(8, 88), 0))
    &&& h.sex@ == lossy_of(nth_token(data.subrange(8, 88), 1))
    &&& h.birthdate@ == lossy_of(nth_token(data.subrange(8, 88), 2))
    &&& h.patient_name@ == lossy_of(nth_token(data.subrange(8, 88), 3))
    &&& h.patient_additional@ == lossy_of(rest_of_tokens(data.subrange(8, 88), 4))
    &&& h.admin_code@ == lossy_of(nth_token(data.subrange(88, 168), 1))
    &&& h.technician@ == lossy_of(nth_token(data.subrange(88, 168), 2))
    &&& h.equipment@ == lossy_of(nth_token(data.subrange(88, 168), 3))
    &&& h.recording_additional@ == lossy_of(rest_of_tokens(data.subrange(88, 168), 4))
    &&& rs == buffer_offset_of(data, n, n)
}

// ---------------------------------------------------------------------------
// Executable decoding
// ---------------------------------------------------------------------------

/// Reads field `data[a..b]` as an integer.
fn field_int(data: &[u8], a: usize, b: usize) -> (r: i32)
    requires
        a <= b <= data@.len(),
        b - a <= 8,
    ensures
        r == atoi_spec(data@.subrange(a as int, b as int)),
        -99999999 <= r <= 99999999,
{
    let f = slice_subrange(data, a, b);
    atoi_nonlocalized(f)
}

/// Builds the string of field `data[a..b]`, trimmed.
fn trimmed_string(data: &[u8], a: usize, b: usize) -> (r: String)
    requires
        a <= b <= data@.len(),
    ensures
        r@ == lossy_of(trim_of(data@.subrange(a as int, b as int))),
{
    let f = slice_subrange(data, a, b);
    let tr = trimmed_range(f);
    bytes_to_string(slice_subrange(f, tr.0, tr.1))
}

/// Splits field `data[a..b]` at dots into exactly three integers, or fails.
fn split3_ints(data: &[u8], a: usize, b: usize) -> (r: Option<(i32, i32, i32)>)
    requires
        a <= b <= data@.len(),
        b - a <= 8,
    ensures
        r is Some <==> three_parts(data@.subrange(a as int, b as int)),
        r is Some ==> {
            let s = data@.subrange(a as int, b as int);
            r.unwrap().0 == part1_int(s) && r.unwrap().1 == part2_int(s) && r.unwrap().2
                == part3_int(s)
        },
        r is Some ==> -99999999 <= r.unwrap().0 <= 99999999 && -99999999 <= r.unwrap().1
            <= 99999999 && -99999999 <= r.unwrap().2 <= 99999999,
{
    let ghost s = data@.subrange(a as int, b as int);
    let len = b - a;
    // find the first dot
    let mut p1: usize = 0;
    while p1 < len && data[a + p1] != 46
        invariant
            0 <= p1 <= len,
            a + len <= data@.len(),
            s == data@.subrange(a as int, b as int),
            len == b - a,
            forall|i: int| 0 <= i < p1 ==> #[trigger] s[i] != 46,
        decreases len - p1,
    {
        proof {
            assert(s[p1 as int] == data@[(a + p1) as int]);
        }
        p1 = p1 + 1;
    }
    proof {
        assert(p1 < len ==> s[p1 as int] == data@[(a + p1) as int] && s[p1 as int] == 46);
        lemma_dot_index_is(s, p1 as int);
    }
    if p1 >= len {
        return None;
    }
    // find the second dot
    let mut p2 = p1 + 1;
    while p2 < len && data[a + p2] != 46
        invariant
            p1 + 1 <= p2 <= len,
            a + len <= data@.len(),
            s == data@.subrange(a as int, b as int),
            len == b - a,
            forall|i: int| p1 + 1 <= i < p2 ==> #[trigger] s[i] != 46,
        decreases len - p2,
    {
        proof {
            assert(s[p2 as int] == data@[(a + p2) as int]);
        }
        p2 = p2 + 1;
    }
    proof {
        assert(p2 < len ==> s[p2 as int] == data@[(a + p2) as int] && s[p2 as int] == 46);
        assert(s.skip(p1 + 1) =~= data@.subrange(a + p1 + 1, b as int));
        assert forall|i: int| 0 <= i < p2 - p1 - 1 implies #[trigger] s.skip(p1 + 1)[i] != 46 by {
            assert(s.skip(p1 + 1)[i] == s[p1 + 1 + i]);
        }
        if p2 < len {
            assert(s.skip(p1 + 1)[p2 - p1 - 1] == s[p2 as int]);
        }
        lemma_dot_index_is(s.skip(p1 + 1), p2 - p1 - 1);
        assert(dot2(s) == p2);
    }
    if p2 >= len {
        return None;
    }
    // no third dot may follow
    let mut p3 = p2 + 1;
    while p3 < len && data[a + p3] != 46
        invariant
            p2 + 1 <= p3 <= len,
            a + len <= data@.len(),
            s == data@.subrange(a as int, b as int),
            len == b - a,
            forall|i: int| p2 + 1 <= i < p3 ==> #[trigger] s[i] != 46,
        decreases len - p3,
    {
        proof {
            assert(s[p3 as int] == data@[(a + p3) as int]);
        }
        p3 = p3 + 1;
    }
    proof {
        assert(p3 < len ==> s[p3 as int] == data@[(a + p3) as int] && s[p3 as int] == 46);
        assert(s.skip(p2 + 1) =~= data@.subrange(a + p2 + 1, b as int));
        assert forall|i: int| 0 <= i < p3 - p2 - 1 implies #[trigger] s.skip(p2 + 1)[i] != 46 by {
            assert(s.skip(p2 + 1)[i] == s[p2 + 1 + i]);
        }
        if p3 < len {
            assert(s.skip(p2 + 1)[p3 - p2 - 1] == s[p3 as int]);
        }
        lemma_dot_index_is(s.skip(p2 + 1), p3 - p2 - 1);
        assert(dot3(s) == p3);
    }
    if p3 < len {
        return None;
    }
    let v1 = field_int(data, a, a + p1);
    let v2 = field_int(data, a + p1 + 1, a + p2);
    let v3 = field_int(data, a + p2 + 1, a + len);
    proof {
        assert(s.take(p1 as int) =~= data@.subrange(a as int, (a + p1) as int));
        assert(s.subrange(p1 + 1, p2 as int) =~= data@.subrange((a + p1 + 1) as int, (a + p2) as int));
        assert(s.skip(p2 + 1) =~= data@.subrange((a + p2 + 1) as int, (a + len) as int));
    }
    Some((v1, v2, v3))
}

/// Decodes and validates the start date and start time (fields at bytes
/// 168..176 and 176..184).
pub(crate) fn parse_datetime(data: &[u8]) -> (r: Result<(EdfDate, EdfTime), EdfError>)
    requires
        data@.len() >= 256,
    ensures
        r is Ok <==> date_field_ok(data@.subrange(168, 176)) && time_field_ok(
            data@.subrange(176, 184),
        ),
        r is Err ==> r.unwrap_err() == EdfError::FormatError,
        r is Ok ==> {
            let df = data@.subrange(168, 176);
            let tf = data@.subrange(176, 184);
            &&& r.unwrap().0.year == date_year(df)
            &&& r.unwrap().0.month == date_month(df)
            &&& r.unwrap().0.day == date_day(df)
            &&& r.unwrap().1.hour == part1_int(tf)
            &&& r.unwrap().1.minute == part2_int(tf)
            &&& r.unwrap().1.second == part3_int(tf)
        },
{
    let ghost df = data@.subrange(168, 176);
    let date_parts = match split3_ints(data, 168, 176) {
        Option::Some(p) => p,
        Option::None => {
            return Err(EdfError::FormatError);
        },
    };
    let (day, month, yy) = date_parts;
    let year: i32 = if yy > 84 {
        1900 + yy
    } else {
        2000 + yy
    };
    if day < 0 || month < 0 {
        return Err(EdfError::FormatError);
    }
    if !chrono_ymd_valid(year, month as u32, day as u32) {
        return Err(EdfError::FormatError);
    }
    let ghost tf = data@.subrange(176, 184);
    let time_parts = match split3_ints(data, 176, 184) {
        Option::Some(p) => p,
        Option::None => {
            return Err(EdfError::FormatError);
        },
    };
    let (hour, minute, second) = time_parts;
    if hour < 0 || minute < 0 || second < 0 {
        return Err(EdfError::FormatError);
    }
    if !chrono_hms_valid(hour as u32, minute as u32, second as u32) {
        return Err(EdfError::FormatError);
    }
    Ok((
        EdfDate { year, month: month as u32, day: day as u32 },
        EdfTime { hour: hour as u32, minute: minute as u32, second: second as u32 },
    ))
}

/// Splits the EDF+ patient field into code, sex, birthdate, name, and the
/// rest joined with single spaces.
pub(crate) fn parse_edfplus_patient(field: &[u8]) -> (r: (String, String, String, String, String))
    ensures
        r.0@ == lossy_of(nth_token(field@, 0)),
        r.1@ == lossy_of(nth_token(field@, 1)),
        r.2@ == lossy_of(nth_token(field@, 2)),
        r.3@ == lossy_of(nth_token(field@, 3)),
        r.4@ == lossy_of(rest_of_tokens(field@, 4)),
{
    let toks = field_tokens(field);
    let code = token_string(field, &toks, 0);
    let sex = token_string(field, &toks, 1);
    let birthdate = token_string(field, &toks, 2);
    let name = token_string(field, &toks, 3);
    let rest = join_token_bytes(field, &toks, 4);
    let additional = bytes_to_string(rest.as_slice());
    (code, sex, birthdate, name, additional)
}

/// Splits the EDF+ recording field: tokens one to three are administration
/// code, technician and equipment (token zero repeats the start date), and
/// the rest is joined with single spaces.
pub(crate) fn parse_edfplus_recording(field: &[u8]) -> (r: (String, String, String, String))
    ensures
        r.0@ == lossy_of(nth_token(field@, 1)),
        r.1@ == lossy_of(nth_token(field@, 2)),
        r.2@ == lossy_of(nth_token(field@, 3)),
        r.3@ == lossy_of(rest_of_tokens(field@, 4)),
{
    let toks = field_tokens(field);
    let admin = token_string(field, &toks, 1);
    let technician = token_string(field, &toks, 2);
    let equipment = token_string(field, &toks, 3);
    let rest = join_token_bytes(field, &toks, 4);
    let additional = bytes_to_string(rest.as_slice());
    (admin, technician, equipment, additional)
}

/// The string of token `k`, or the empty string's bytes when there are fewer
/// tokens.
fn token_string(field: &[u8], toks: &Vec<(usize, usize)>, k: usize) -> (r: String)
    requires
        crate::text::ranges_tokens(field@, toks@) == crate::text::tokens_of(field@),
        forall|j: int| 0 <= j < toks@.len() ==> 0 <= #[trigger] toks@[j].0 <= toks@[j].1 <= field@.len(),
    ensures
        r@ == lossy_of(nth_token(field@, k as int)),
{
    if k < toks.len() {
        let (lo, hi) = (toks[k].0, toks[k].1);
        proof {
            assert(crate::text::tokens_of(field@)[k as int] == crate::text::ranges_tokens(
                field@,
                toks@,
            )[k as int]);
        }
        bytes_to_string(slice_subrange(field, lo, hi))
    } else {
        proof {
            assert(field@.subrange(0, 0) =~= Seq::<u8>::empty());
        }
        bytes_to_string(slice_subrange(field, 0, 0))
    }
}

/// Decodes the signal-descriptor block: validates each signal in declared
/// order and computes the record layout.
#[verifier::rlimit(100)]
pub(crate) fn parse_signals(data: &[u8], n: usize, dr: i64) -> (r: Result<
    (Vec<SignalParam>, Vec<SignalInfo>, u64),
    EdfError,
>)
    requires
        1 <= n <= 640,
        data@.len() >= 256 + n * 256,
        -99999999 <= dr <= 99999999,
        n == nsignals_of(data@),
    ensures
        r is Err <==> signal_check_error(data@, n as int, 0) is Some,
        r is Err ==> r.unwrap_err() == signal_check_error(data@, n as int, 0).unwrap(),
        r is Ok ==> signals_decoded(
            data@,
            n as int,
            dr as int,
            r.unwrap().0@,
            r.unwrap().1@,
        ) && r.unwrap().2 == buffer_offset_of(data@, n as int, n as int) && r.unwrap().2
            <= 128_000_000_000u64,
{
    let mut signals: Vec<SignalParam> = Vec::new();
    let mut info: Vec<SignalInfo> = Vec::new();
    let mut offset: u64 = 0;
    let mut i: usize = 0;
    while i < n
        invariant
            0 <= i <= n <= 640,
            data@.len() >= 256 + n * 256,
            -99999999 <= dr <= 99999999,
            n == nsignals_of(data@),
            info@.len() == i,
            forall|j: int| 0 <= j < i ==> slot_decoded(data@, n as int, j, #[trigger] info@[j]),
            forall|j: int| 0 <= j < i ==> 0 <= #[trigger] info@[j].samples_per_record <= 99999999,
            signals@.len() == user_slots_of(info@).len(),
            forall|k: int|
                0 <= k < signals@.len() ==> param_decoded(
                    data@,
                    n as int,
                    dr as int,
                    user_slots_of(info@)[k],
                    #[trigger] signals@[k],
                ),
            offset == buffer_offset_of(data@, n as int, i as int),
            offset <= (i as u64) * 200_000_000u64,
            signal_check_error(data@, n as int, 0) == signal_check_error(data@, n as int, i as int),
        decreases n - i,
    {
        let label_start = 256 + i * 16;
        let spr = field_int(data, 256 + n * 216 + i * 8, 256 + n * 216 + i * 8 + 8);
        if spr < 0 {
            return Err(EdfError::InvalidHeader);
        }
        let is_annotation = data[label_start] == 69 && data[label_start + 1] == 68
            && data[label_start + 2] == 70 && data[label_start + 3] == 32
            && data[label_start + 4] == 65 && data[label_start + 5] == 110
            && data[label_start + 6] == 110 && data[label_start + 7] == 111
            && data[label_start + 8] == 116 && data[label_start + 9] == 97
            && data[label_start + 10] == 116 && data[label_start + 11] == 105
            && data[label_start + 12] == 111 && data[label_start + 13] == 110
            && data[label_start + 14] == 115 && data[label_start + 15] == 32;
        proof {
            let lb = sig_label_bytes(data@, i as int);
            assert(forall|q: int| 0 <= q < 16 ==> #[trigger] lb[q] == data@[256 + i * 16 + q]);
            assert(is_annotation == sig_is_annotation(data@, i as int));
        }
        let slot = SignalInfo { buffer_offset: offset, samples_per_record: spr, is_annotation };
        if !is_annotation {
            let pmin = parse_decimal_field(slice_subrange(data, 256 + n * 104 + i * 8, 256 + n
                * 104 + i * 8 + 8));
            let pmax = parse_decimal_field(slice_subrange(data, 256 + n * 112 + i * 8, 256 + n
                * 112 + i * 8 + 8));
            proof {
                assert(pmin == sig_pmin_dec(data@, n as int, i as int));
                assert(pmax == sig_pmax_dec(data@, n as int, i as int));
            }
            if dec_eq(pmin, pmax) {
                return Err(EdfError::PhysicalMinEqualsMax);
            }
            let dmin = field_int(data, 256 + n * 120 + i * 8, 256 + n * 120 + i * 8 + 8);
            let dmax = field_int(data, 256 + n * 128 + i * 8, 256 + n * 128 + i * 8 + 8);
            if dmin == dmax {
                return Err(EdfError::DigitalMinEqualsMax);
            }
            let label = trimmed_string(data, label_start, label_start + 16);
            let transducer = trimmed_string(data, 256 + n * 16 + i * 80, 256 + n * 16 + i * 80
                + 80);
            let physical_dimension = trimmed_string(data, 256 + n * 96 + i * 8, 256 + n * 96 + i
                * 8 + 8);
            let prefilter = trimmed_string(data, 256 + n * 136 + i * 80, 256 + n * 136 + i * 80
                + 80);
            proof {
                assert(-10000000000000000 <= (spr as int) * (dr as int) <= 10000000000000000)
                    by (nonlinear_arith)
                    requires
                        0 <= spr <= 99999999,
                        -99999999 <= dr <= 99999999,
                ;
            }
            let param = SignalParam {
                label,
                samples_in_file: (spr as i64) * dr,
                physical_max: pmax,
                physical_min: pmin,
                digital_max: dmax,
                digital_min: dmin,
                samples_per_record: spr,
                physical_dimension,
                prefilter,
                transducer,
            };
            let ghost old_info = info@;
            let ghost old_signals = signals@;
            signals.push(param);
            info.push(slot);
            proof {
                lemma_user_slots_push(old_info, slot, 0);
                assert(user_slots_of(info@) =~= user_slots_of(old_info) + seq![i as int]);
                assert(user_slots_of(info@)[signals@.len() - 1] == i as int);
                assert(forall|k: int|
                    0 <= k < old_signals.len() ==> user_slots_of(info@)[k] == user_slots_of(
                        old_info,
                    )[k]);
            }
        } else {
            let ghost old_info = info@;
            info.push(slot);
            proof {
                lemma_user_slots_push(old_info, slot, 0);
                assert(user_slots_of(info@) == user_slots_of(old_info));
            }
        }
        offset = offset + 2 * (spr as u64);
        i = i + 1;
    }
    proof {
        assert(signal_check_error(data@, n as int, n as int) is None);
    }
    Ok((signals, info, offset))
}

/// Decodes and validates the whole header: the 256-byte main header and the
/// signal-descriptor block. Returns the header (annotation count and
/// sub-second offset still zero), the record-layout slots, and the record
/// size in bytes.
#[verifier::rlimit(100)]
pub(crate) fn parse_header(data: &[u8]) -> (r: Result<(EdfHeader, Vec<SignalInfo>, u64), EdfError>)
    ensures
        r is Err <==> header_check_error(data@) is Some,
        r is Err ==> r.unwrap_err() == header_check_error(data@).unwrap(),
        r is Ok ==> header_matches(data@, r.unwrap().0, r.unwrap().1@, r.unwrap().2)
            && r.unwrap().0.starttime_subsecond == 0 && r.unwrap().0.annotations_in_file == 0
            && r.unwrap().2 <= 128_000_000_000u64 && r.unwrap().1@.len() == nsignals_of(data@)
            && -99_999_999 <= r.unwrap().0.datarecords_in_file <= 99_999_999,
{
    if data.len() < 256 {
        return Err(EdfError::FileReadError);
    }
    // version must start with '0'
    let f = slice_subrange(data, 0, 8);
    let tr = trimmed_range(f);
    let version_good = tr.1 > tr.0 && f[tr.0] == 48;
    proof {
        let t = trim_of(data@.subrange(0, 8));
        assert(f@ =~= data@.subrange(0, 8));
        assert(tr.1 > tr.0 ==> t[0] == f@[tr.0 as int]);
        assert(version_good == version_ok(data@));
    }
    if !version_good {
        return Err(EdfError::UnsupportedFileType);
    }
    // signal count
    let total_signals = field_int(data, 252, 256);
    if total_signals < 1 || total_signals > crate::EDFLIB_MAXSIGNALS {
        return Err(EdfError::InvalidSignalCount);
    }
    let n = total_signals as usize;
    // declared header size must match
    let hdr_size = field_int(data, 184, 192);
    if hdr_size as i64 != (total_signals as i64 + 1) * 256 {
        return Err(EdfError::InvalidHeader);
    }
    // reserved field must begin with EDF+C
    let edfplus = data[192] == 69 && data[193] == 68 && data[194] == 70 && data[195] == 43
        && data[196] == 67;
    if !edfplus {
        return Err(EdfError::UnsupportedFileType);
    }
    // start date and time
    let (start_date, start_time) = match parse_datetime(data) {
        Ok(dt) => dt,
        Err(e) => {
            return Err(e);
        },
    };
    // record count and duration
    let datarecords = field_int(data, 236, 244) as i64;
    let durf = slice_subrange(data, 244, 252);
    let datarecord_duration = parse_duration_field(durf);
    proof {
        assert(durf@ =~= data@.subrange(244, 252));
    }
    // the descriptor block must be present in full
    if data.len() < 256 + n * 256 {
        return Err(EdfError::FileReadError);
    }
    // signal descriptors
    let (signals, info, record_size) = match parse_signals(data, n, datarecords) {
        Ok(t) => t,
        Err(e) => {
            return Err(e);
        },
    };
    // patient and recording identification
    let pf = slice_subrange(data, 8, 88);
    let (patient_code, sex, birthdate, patient_name, patient_additional) = parse_edfplus_patient(
        pf,
    );
    let rf = slice_subrange(data, 88, 168);
    let (admin_code, technician, equipment, recording_additional) = parse_edfplus_recording(rf);
    proof {
        assert(pf@ =~= data@.subrange(8, 88));
        assert(rf@ =~= data@.subrange(88, 168));
    }
    let file_duration = saturating_mul_i64(datarecord_duration, datarecords);
    let header = EdfHeader {
        signals,
        file_duration,
        start_date,
        start_time,
        starttime_subsecond: 0,
        datarecords_in_file: datarecords,
        datarecord_duration,
        annotations_in_file: 0,
        patient_code,
        sex,
        birthdate,
        patient_name,
        patient_additional,
        admin_code,
        technician,
        equipment,
        recording_additional,
    };
    Ok((header, info, record_size))
}

/// Saturating multiplication on `i64`.
pub fn saturating_mul_i64(a: i64, b: i64) -> (r: i64)
    ensures
        r == sat_i64(a * b),
{
    proof {
        assert((a as int) * (b as int) <= 0x40000000000000000000000000000000 && (a as int) * (
        b as int) >= -0x40000000000000000000000000000000) by (nonlinear_arith)
            requires
                -0x8000000000000000 <= a as int <= 0x7fffffffffffffff,
                -0x8000000000000000 <= b as int <= 0x7fffffffffffffff,
        ;
    }
    let p: i128 = (a as i128) * (b as i128);
    if p > i64::MAX as i128 {
        i64::MAX
    } else if p < i64::MIN as i128 {
        i64::MIN
    } else {
        p as i64
    }
}

} // verus!
