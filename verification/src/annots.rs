//! The two annotation passes over the data records, and the stable sort of
//! the final annotation list.
//!
//! The first pass is bounded to the first hundred records: it counts the
//! annotations and derives the recording's sub-second start offset from
//! record zero. The second pass scans every record, checks that consecutive
//! record-start timestamps are contiguous, and collects the full list.

use vstd::prelude::*;
use crate::tal::{
    TalAnnot, tal_slice_annots, annots_match, record_timestamp, subsecond_of, parse_tal_slice,
    extract_timestamp, extract_subsecond,
};
use crate::types::{Annotation, SignalInfo};
use crate::error::EdfError;

verus! {

// ---------------------------------------------------------------------------
// Annotation-slot mapping
// ---------------------------------------------------------------------------

/// Indexes of the annotation slots at or after `i`, in order.
pub open spec fn ann_slots_from(slots: Seq<SignalInfo>, i: int) -> Seq<int>
    decreases slots.len() - i when 0 <= i
{
    if i >= slots.len() {
        Seq::empty()
    } else if slots[i].is_annotation {
        seq![i] + ann_slots_from(slots, i + 1)
    } else {
        ann_slots_from(slots, i + 1)
    }
}

/// Indexes of the annotation slots of the record layout.
pub open spec fn ann_slots_of(slots: Seq<SignalInfo>) -> Seq<int> {
    ann_slots_from(slots, 0)
}

/// Every listed index is in range and names an annotation slot.
pub proof fn lemma_ann_slots_bounds(slots: Seq<SignalInfo>, i: int)
    requires
        0 <= i,
    ensures
        forall|k: int|
            0 <= k < ann_slots_from(slots, i).len() ==> i <= #[trigger] ann_slots_from(
                slots,
                i,
            )[k] < slots.len() && slots[ann_slots_from(slots, i)[k]].is_annotation,
    decreases slots.len() - i,
{
    if i < slots.len() {
        lemma_ann_slots_bounds(slots, i + 1);
        if slots[i].is_annotation {
            let a = ann_slots_from(slots, i);
            assert(a == seq![i] + ann_slots_from(slots, i + 1));
            assert forall|k: int|
                0 <= k < a.len() implies i <= #[trigger] a[k] < slots.len()
                && slots[a[k]].is_annotation by {
                if k == 0 {
                    assert(a[0] == (seq![i] + ann_slots_from(slots, i + 1))[0]);
                } else {
                    assert(a[k] == (seq![i] + ann_slots_from(slots, i + 1))[k]);
                    assert((seq![i] + ann_slots_from(slots, i + 1))[k] == ann_slots_from(
                        slots,
                        i + 1,
                    )[k - 1]);
                }
            }
        }
    }
}

/// There are no more annotation slots than slots.
pub proof fn lemma_ann_slots_len(slots: Seq<SignalInfo>, i: int)
    requires
        0 <= i,
    ensures
        ann_slots_from(slots, i).len() <= slots.len() - i || ann_slots_from(slots, i).len() == 0,
    decreases slots.len() - i,
{
    if i < slots.len() {
        lemma_ann_slots_len(slots, i + 1);
    }
}

/// Lists the annotation slots of the record layout, as in `ann_slots_of`.
pub fn ann_slot_indices(info: &Vec<SignalInfo>) -> (v: Vec<usize>)
    ensures
        v@.len() == ann_slots_of(info@).len(),
        forall|k: int| 0 <= k < v@.len() ==> #[trigger] v@[k] == ann_slots_of(info@)[k],
{
    let n = info.len();
    let mut v: Vec<usize> = Vec::new();
    let mut i: usize = 0;
    while i < n
        invariant
            0 <= i <= n == info@.len(),
            ann_slots_of(info@).skip(v@.len() as int) == ann_slots_from(info@, i as int),
            v@.len() <= i,
            v@.len() <= ann_slots_of(info@).len(),
            forall|k: int| 0 <= k < v@.len() ==> #[trigger] v@[k] == ann_slots_of(info@)[k],
        decreases n - i,
    {
        proof {
            lemma_ann_slots_bounds(info@, 0);
        }
        if info[i].is_annotation {
            let ghost olen = v@.len() as int;
            proof {
                assert(ann_slots_from(info@, i as int) == seq![i as int] + ann_slots_from(
                    info@,
                    i + 1,
                ));
                assert(ann_slots_of(info@).skip(olen).len() >= 1);
                assert(olen < ann_slots_of(info@).len());
                assert(ann_slots_of(info@).skip(olen)[0] == i as int);
                assert(ann_slots_of(info@)[olen] == ann_slots_of(info@).skip(olen)[0]);
                assert(ann_slots_of(info@).skip(olen + 1) =~= ann_slots_of(info@).skip(
                    olen,
                ).drop_first());
                assert(ann_slots_of(info@).skip(olen).drop_first() =~= ann_slots_from(
                    info@,
                    i + 1,
                ));
            }
            v.push(i);
        }
        i = i + 1;
    }
    proof {
        assert(ann_slots_from(info@, n as int) =~= Seq::<int>::empty());
        assert(ann_slots_of(info@).skip(v@.len() as int).len() == 0);
    }
    v
}

// ---------------------------------------------------------------------------
// Record slices
// ---------------------------------------------------------------------------

/// The byte slice of slot `s` inside record `r`.
pub open spec fn ann_slice(data: Seq<u8>, hs: int, rs: int, r: int, s: SignalInfo) -> Seq<u8> {
    data.subrange(
        hs + r * rs + s.buffer_offset,
        hs + r * rs + s.buffer_offset + 2 * s.samples_per_record,
    )
}

/// Whether records `0..upto` lie inside the data.
pub open spec fn records_readable(data: Seq<u8>, hs: int, rs: int, upto: int) -> bool {
    upto <= 0 || hs + upto * rs <= data.len()
}

// ---------------------------------------------------------------------------
// First pass: annotation count and sub-second offset
// ---------------------------------------------------------------------------

/// How many records the first pass scans: all of them, capped at a hundred.
pub open spec fn scan_limit(dr: int) -> int {
    if dr < 100 {
        dr
    } else {
        100
    }
}

/// Emitted-annotation count of the slots `0..a` of record `r`.
pub open spec fn record_count_upto(
    data: Seq<u8>,
    info: Seq<SignalInfo>,
    hs: int,
    rs: int,
    r: int,
    a: int,
) -> int
    decreases a,
{
    if a <= 0 {
        0
    } else {
        record_count_upto(data, info, hs, rs, r, a - 1) + tal_slice_annots(
            ann_slice(data, hs, rs, r, info[ann_slots_of(info)[a - 1]]),
            a - 1 == 0,
            0,
        ).len()
    }
}

/// Emitted-annotation count of records `0..upto`.
pub open spec fn records_count(
    data: Seq<u8>,
    info: Seq<SignalInfo>,
    hs: int,
    rs: int,
    upto: int,
) -> int
    decreases upto,
{
    if upto <= 0 {
        0
    } else {
        records_count(data, info, hs, rs, upto - 1) + record_count_upto(
            data,
            info,
            hs,
            rs,
            upto - 1,
            ann_slots_of(info).len() as int,
        )
    }
}

/// The annotation count of the first pass: zero when there is no annotation
/// signal or a scanned record lies outside the data.
pub open spec fn count_pass_count(
    data: Seq<u8>,
    info: Seq<SignalInfo>,
    hs: int,
    rs: int,
    dr: int,
) -> int {
    if ann_slots_of(info).len() == 0 {
        0
    } else if !records_readable(data, hs, rs, scan_limit(dr)) {
        0
    } else {
        records_count(data, info, hs, rs, scan_limit(dr))
    }
}

/// The sub-second start offset: the fractional part of record zero's
/// timestamp on the first annotation signal; zero when it cannot be read.
pub open spec fn count_pass_subsec(
    data: Seq<u8>,
    info: Seq<SignalInfo>,
    hs: int,
    rs: int,
    dr: int,
) -> int {
    if ann_slots_of(info).len() == 0 || scan_limit(dr) <= 0 || !records_readable(
        data,
        hs,
        rs,
        scan_limit(dr),
    ) {
        0
    } else {
        subsecond_of(ann_slice(data, hs, rs, 0, info[ann_slots_of(info)[0]]))
    }
}

// ---------------------------------------------------------------------------
// Second pass: the full annotation list, with the continuity check
// ---------------------------------------------------------------------------

/// Outcome of the second pass.
pub enum PassOutcome {
    /// A record-start timestamp broke continuity: the file must be rejected.
    Fatal,
    /// A record lay outside the data: the annotation list stays empty.
    ReadFail,
    /// The decoded annotations, in record order.
    Done(Seq<TalAnnot>),
}

/// The annotations of all annotation slots `0..a` of record `r`, in slot
/// order.
pub open spec fn record_annots_upto(
    data: Seq<u8>,
    info: Seq<SignalInfo>,
    hs: int,
    rs: int,
    r: int,
    subsec: int,
    a: int,
) -> Seq<TalAnnot>
    decreases a,
{
    if a <= 0 {
        Seq::empty()
    } else {
        record_annots_upto(data, info, hs, rs, r, subsec, a - 1) + tal_slice_annots(
            ann_slice(data, hs, rs, r, info[ann_slots_of(info)[a - 1]]),
            a - 1 == 0,
            subsec,
        )
    }
}

/// The second pass from record `r` on: `elapsed` is the last record-start
/// timestamp seen (initially zero), `acc` what was collected so far. For a
/// record whose timestamp strays more than a millisecond from the previous
/// timestamp plus one record duration, the pass is fatal.
pub open spec fn second_pass(
    data: Seq<u8>,
    info: Seq<SignalInfo>,
    hs: int,
    rs: int,
    dr: int,
    subsec: int,
    dur: int,
    r: int,
    elapsed: int,
    acc: Seq<TalAnnot>,
) -> PassOutcome
    decreases dr - r,
{
    if r >= dr {
        PassOutcome::Done(acc)
    } else if hs + r * rs + rs > data.len() {
        PassOutcome::ReadFail
    } else {
        let first_slice = ann_slice(data, hs, rs, r, info[ann_slots_of(info)[0]]);
        let ts = record_timestamp(first_slice);
        if r > 0 && ts is Some && (ts.unwrap() - (elapsed + dur) > 10_000 || ts.unwrap() - (elapsed
            + dur) < -10_000) {
            PassOutcome::Fatal
        } else {
            let elapsed2 = if ts is Some {
                ts.unwrap()
            } else {
                elapsed
            };
            let acc2 = acc + record_annots_upto(
                data,
                info,
                hs,
                rs,
                r,
                subsec,
                ann_slots_of(info).len() as int,
            );
            second_pass(data, info, hs, rs, dr, subsec, dur, r + 1, elapsed2, acc2)
        }
    }
}

/// The outcome of decoding all annotations of the file: an empty list when
/// there is no annotation signal.
pub open spec fn annotations_outcome(
    data: Seq<u8>,
    info: Seq<SignalInfo>,
    hs: int,
    rs: int,
    dr: int,
    subsec: int,
    dur: int,
) -> PassOutcome {
    if ann_slots_of(info).len() == 0 {
        PassOutcome::Done(Seq::empty())
    } else {
        second_pass(data, info, hs, rs, dr, subsec, dur, 0, 0, Seq::empty())
    }
}

// ---------------------------------------------------------------------------
// Executable passes
// ---------------------------------------------------------------------------

/// Bounds that both passes need of the record layout.
pub open spec fn layout_ok(data: Seq<u8>, info: Seq<SignalInfo>, hs: int, rs: int) -> bool {
    &&& 0 <= hs <= 164_096
    &&& 0 <= rs <= 128_000_000_000
    &&& info.len() <= 640
    &&& forall|j: int|
        0 <= j < info.len() ==> 0 <= #[trigger] info[j].buffer_offset && info[j].buffer_offset + 2
            * info[j].samples_per_record <= rs && 0 <= info[j].samples_per_record <= 99_999_999
}

/// The first pass: counts the annotations of the first hundred records and
/// extracts the sub-second start offset from record zero.
#[verifier::rlimit(100)]
pub fn count_annotations_and_parse_subsecond(
    data: &[u8],
    info: &Vec<SignalInfo>,
    dr: i64,
    rs: u64,
    hs: usize,
) -> (r: (i64, i64))
    requires
        layout_ok(data@, info@, hs as int, rs as int),
        -99_999_999 <= dr <= 99_999_999,
    ensures
        r.0 == count_pass_count(data@, info@, hs as int, rs as int, dr as int),
        r.1 == count_pass_subsec(data@, info@, hs as int, rs as int, dr as int),
        -9_999_999 <= r.1 <= 9_999_999,
{
    let anns = ann_slot_indices(info);
    if anns.len() == 0 {
        return (0, 0);
    }
    let limit: i64 = if dr < 100 {
        dr
    } else {
        100
    };
    if limit <= 0 {
        proof {
            assert(!(scan_limit(dr as int) <= 0) ==> records_readable(
                data@,
                hs as int,
                rs as int,
                scan_limit(dr as int),
            ));
            assert(records_count(data@, info@, hs as int, rs as int, scan_limit(dr as int)) == 0);
        }
        return (0, 0);
    }
    // every scanned record must lie inside the data
    proof {
        assert((limit as int) * (rs as int) <= 100 * 128_000_000_000) by (nonlinear_arith)
            requires
                0 < limit <= 100,
                0 <= rs <= 128_000_000_000,
        ;
    }
    let need: u64 = hs as u64 + (limit as u64) * rs;
    if need > data.len() as u64 {
        return (0, 0);
    }
    proof {
        assert(data.len() == data@.len());
    }
    let limit_us: usize = limit as usize;
    let mut count: i64 = 0;
    let mut subsec: i64 = 0;
    let mut r: usize = 0;
    while r < limit_us
        invariant
            data@.len() <= usize::MAX,
            0 <= r <= limit_us,
            limit_us == limit,
            0 < limit <= 100,
            limit == scan_limit(dr as int),
            layout_ok(data@, info@, hs as int, rs as int),
            hs + limit * rs <= data@.len(),
            anns@.len() == ann_slots_of(info@).len() > 0,
            forall|k: int| 0 <= k < anns@.len() ==> #[trigger] anns@[k] == ann_slots_of(info@)[k],
            count == records_count(data@, info@, hs as int, rs as int, r as int),
            0 <= count <= (r as int) * 128_000_000_000,
            subsec == if r == 0 {
                0
            } else {
                count_pass_subsec(data@, info@, hs as int, rs as int, dr as int)
            },
            -9_999_999 <= subsec <= 9_999_999,
        decreases limit_us - r,
    {
        proof {
            lemma_ann_slots_bounds(info@, 0);
            lemma_ann_slots_len(info@, 0);
            assert((r as int) * (rs as int) + rs as int <= (limit as int) * (rs as int))
                by (nonlinear_arith)
                requires
                    0 <= r as int,
                    (r as int) < (limit as int),
                    0 <= rs as int,
            ;
            assert((r as int) * (rs as int) <= 100 * 128_000_000_000) by (nonlinear_arith)
                requires
                    0 <= r as int,
                    (r as int) <= 100,
                    0 <= rs as int,
                    (rs as int) <= 128_000_000_000,
            ;
            assert(hs + (r as int) * (rs as int) + rs as int <= data@.len());
        }
        let base: u64 = hs as u64 + (r as u64) * rs;
        proof {
            assert(base + rs <= data@.len());
            assert(base <= 13_000_000_000_000);
        }
        let mut a: usize = 0;
        let mut rcount: i64 = 0;
        while a < anns.len()
            invariant
                data@.len() <= usize::MAX,
                0 <= a <= anns@.len(),
                0 <= r < limit_us,
                limit_us == limit,
                0 < limit <= 100,
                layout_ok(data@, info@, hs as int, rs as int),
                hs + limit * rs <= data@.len(),
                base == hs + (r as int) * rs,
                base + rs <= data@.len(),
                base <= 13_000_000_000_000,
                anns@.len() == ann_slots_of(info@).len() > 0,
                anns@.len() <= 640,
                forall|k: int|
                    0 <= k < anns@.len() ==> #[trigger] anns@[k] == ann_slots_of(info@)[k],
                rcount == record_count_upto(data@, info@, hs as int, rs as int, r as int, a as int),
                0 <= rcount <= (a as int) * 200_000_000,
            decreases anns@.len() - a,
        {
            proof {
                lemma_ann_slots_bounds(info@, 0);
            }
            let j = anns[a];
            let slot = info[j];
            proof {
                assert(info@[j as int].buffer_offset + 2 * info@[j as int].samples_per_record
                    <= rs);
            }
            let from = base + slot.buffer_offset;
            let to = from + 2 * (slot.samples_per_record as u64);
            proof {
                assert(to <= base + rs <= data@.len());
            }
            let out = parse_tal_slice(data, from as usize, to as usize, a == 0, 0);
            proof {
                assert(data@.subrange(from as int, to as int) =~= ann_slice(
                    data@,
                    hs as int,
                    rs as int,
                    r as int,
                    info@[j as int],
                ));
                crate::tal::lemma_tal_emitted_len_bound(
                    data@.subrange(from as int, to as int),
                    a as int == 0,
                    0,
                );
                assert(out@.len() <= 2 * info@[j as int].samples_per_record);
            }
            rcount = rcount + out.len() as i64;
            a = a + 1;
        }
        if r == 0 {
            let j0 = anns[0];
            let slot = info[j0];
            proof {
                lemma_ann_slots_bounds(info@, 0);
                assert(info@[j0 as int].buffer_offset + 2 * info@[j0 as int].samples_per_record
                    <= rs);
            }
            let from = base + slot.buffer_offset;
            let to = from + 2 * (slot.samples_per_record as u64);
            proof {
                assert(to <= base + rs <= data@.len());
            }
            subsec = extract_subsecond(data, from as usize, to as usize);
            proof {
                assert(data@.subrange(from as int, to as int) =~= ann_slice(
                    data@,
                    hs as int,
                    rs as int,
                    0,
                    info@[j0 as int],
                ));
                assert(records_readable(data@, hs as int, rs as int, scan_limit(dr as int)));
                assert(subsec == count_pass_subsec(data@, info@, hs as int, rs as int, dr as int));
            }
        }
        proof {
            assert(rcount <= 640 * 200_000_000);
        }
        count = count + rcount;
        r = r + 1;
    }
    (count, subsec)
}

/// The second pass: decodes every record's annotation slots in order,
/// checking record-start timestamps for continuity.
#[verifier::rlimit(100)]
pub fn parse_annotations(
    data: &[u8],
    info: &Vec<SignalInfo>,
    dr: i64,
    rs: u64,
    hs: usize,
    subsec: i64,
    dur: i64,
) -> (r: Result<Vec<Annotation>, EdfError>)
    requires
        layout_ok(data@, info@, hs as int, rs as int),
        -99_999_999 <= dr <= 99_999_999,
    ensures
        ({
            let o = annotations_outcome(
                data@,
                info@,
                hs as int,
                rs as int,
                dr as int,
                subsec as int,
                dur as int,
            );
            match r {
                Ok(v) => o is Done && annots_match(v@, o->Done_0),
                Err(e) => (o is Fatal && e == EdfError::InvalidHeader) || (o is ReadFail && e
                    == EdfError::FileReadError),
            }
        }),
{
    let ghost gdata = data@;
    let ghost ginfo = info@;
    let ghost ghs = hs as int;
    let ghost grs = rs as int;
    let anns = ann_slot_indices(info);
    let mut out: Vec<Annotation> = Vec::new();
    if anns.len() == 0 {
        proof {
            assert(out@ =~= Seq::<Annotation>::empty());
        }
        return Ok(out);
    }
    if dr <= 0 {
        proof {
            assert(out@ =~= Seq::<Annotation>::empty());
            assert(second_pass(
                gdata,
                ginfo,
                ghs,
                grs,
                dr as int,
                subsec as int,
                dur as int,
                0,
                0,
                Seq::empty(),
            ) == PassOutcome::Done(Seq::<TalAnnot>::empty()));
        }
        return Ok(out);
    }
    proof {
        assert(data.len() == data@.len());
    }
    let dr_us: usize = dr as usize;
    let mut elapsed: i64 = 0;
    let mut r: usize = 0;
    let ghost target = second_pass(
        gdata,
        ginfo,
        ghs,
        grs,
        dr as int,
        subsec as int,
        dur as int,
        0,
        0,
        Seq::empty(),
    );
    let ghost mut acc: Seq<TalAnnot> = Seq::empty();
    while r < dr_us
        invariant
            gdata.len() <= usize::MAX,
            0 <= r <= dr_us,
            dr_us == dr,
            0 < dr <= 99_999_999,
            layout_ok(gdata, ginfo, ghs, grs),
            gdata == data@,
            ginfo == info@,
            ghs == hs as int,
            grs == rs as int,
            anns@.len() == ann_slots_of(ginfo).len() > 0,
            forall|k: int| 0 <= k < anns@.len() ==> #[trigger] anns@[k] == ann_slots_of(ginfo)[k],
            annots_match(out@, acc),
            target == second_pass(
                gdata,
                ginfo,
                ghs,
                grs,
                dr as int,
                subsec as int,
                dur as int,
                0,
                0,
                Seq::<TalAnnot>::empty(),
            ),
            second_pass(
                gdata,
                ginfo,
                ghs,
                grs,
                dr as int,
                subsec as int,
                dur as int,
                r as int,
                elapsed as int,
                acc,
            ) == target,
        decreases dr_us - r,
    {
        proof {
            lemma_ann_slots_bounds(ginfo, 0);
            lemma_ann_slots_len(ginfo, 0);
            assert((r as int) * grs + grs <= 99_999_999 * 128_000_000_000) by (nonlinear_arith)
                requires
                    0 <= r as int,
                    (r as int) < 99_999_999,
                    0 <= grs <= 128_000_000_000,
            ;
        }
        let base: u64 = hs as u64 + (r as u64) * rs;
        proof {
            assert(base <= 13_000_000_000_000_000_000);
        }
        if base + rs > data.len() as u64 {
            proof {
                assert(second_pass(
                    gdata,
                    ginfo,
                    ghs,
                    grs,
                    dr as int,
                    subsec as int,
                    dur as int,
                    r as int,
                    elapsed as int,
                    acc,
                ) == PassOutcome::ReadFail);
            }
            return Err(EdfError::FileReadError);
        }
        let ghost elapsed_old = elapsed as int;
        // continuity of the first annotation signal's timestamp
        let j0 = anns[0];
        let slot0 = info[j0];
        proof {
            assert(ginfo[j0 as int].buffer_offset + 2 * ginfo[j0 as int].samples_per_record
                <= grs);
        }
        let from0 = base + slot0.buffer_offset;
        let to0 = from0 + 2 * (slot0.samples_per_record as u64);
        proof {
            assert(to0 <= base + rs <= gdata.len());
        }
        let ts = extract_timestamp(data, from0 as usize, to0 as usize);
        proof {
            assert(data@.subrange(from0 as int, to0 as int) =~= ann_slice(
                gdata,
                ghs,
                grs,
                r as int,
                ginfo[j0 as int],
            ));
        }
        let ghost first_slice = ann_slice(gdata, ghs, grs, r as int, ginfo[j0 as int]);
        match ts {
            Option::Some(t) => {
                if r > 0 {
                    let diff: i128 = t as i128 - (elapsed as i128 + dur as i128);
                    if diff > 10_000 || diff < -10_000 {
                        proof {
                            assert(second_pass(
                                gdata,
                                ginfo,
                                ghs,
                                grs,
                                dr as int,
                                subsec as int,
                                dur as int,
                                r as int,
                                elapsed_old,
                                acc,
                            ) == PassOutcome::Fatal);
                        }
                        return Err(EdfError::InvalidHeader);
                    }
                }
                elapsed = t;
            },
            Option::None => {},
        }
        proof {
            assert(elapsed as int == if record_timestamp(first_slice) is Some {
                record_timestamp(first_slice).unwrap()
            } else {
                elapsed_old
            });
        }
        // decode every annotation slot of this record
        let ghost acc_rec = acc;
        let mut a: usize = 0;
        while a < anns.len()
            invariant
                gdata.len() <= usize::MAX,
                0 <= a <= anns@.len(),
                0 <= r < dr_us,
                dr_us == dr,
                layout_ok(gdata, ginfo, ghs, grs),
                gdata == data@,
                ginfo == info@,
                ghs == hs as int,
                grs == rs as int,
                base == ghs + (r as int) * grs,
                base + grs <= gdata.len(),
                base <= 13_000_000_000_000_000_000,
                anns@.len() == ann_slots_of(ginfo).len() > 0,
                forall|k: int|
                    0 <= k < anns@.len() ==> #[trigger] anns@[k] == ann_slots_of(ginfo)[k],
                annots_match(
                    out@,
                    acc_rec + record_annots_upto(
                        gdata,
                        ginfo,
                        ghs,
                        grs,
                        r as int,
                        subsec as int,
                        a as int,
                    ),
                ),
            decreases anns@.len() - a,
        {
            proof {
                lemma_ann_slots_bounds(ginfo, 0);
            }
            let j = anns[a];
            let slot = info[j];
            proof {
                assert(ginfo[j as int].buffer_offset + 2 * ginfo[j as int].samples_per_record
                    <= grs);
            }
            let from = base + slot.buffer_offset;
            let to = from + 2 * (slot.samples_per_record as u64);
            proof {
                assert(to <= base + rs <= gdata.len());
            }
            let mut part = parse_tal_slice(data, from as usize, to as usize, a == 0, subsec);
            proof {
                assert(data@.subrange(from as int, to as int) =~= ann_slice(
                    gdata,
                    ghs,
                    grs,
                    r as int,
                    ginfo[j as int],
                ));
            }
            let ghost out_before = out@;
            let ghost part_seq = part@;
            out.append(&mut part);
            proof {
                assert(out@ == out_before + part_seq);
                let ghost prev = record_annots_upto(
                    gdata,
                    ginfo,
                    ghs,
                    grs,
                    r as int,
                    subsec as int,
                    a as int,
                );
                let ghost cur = tal_slice_annots(
                    ann_slice(gdata, ghs, grs, r as int, ginfo[anns@[a as int] as int]),
                    a as int == 0,
                    subsec as int,
                );
                assert(annots_match(part_seq, cur));
                assert(record_annots_upto(
                    gdata,
                    ginfo,
                    ghs,
                    grs,
                    r as int,
                    subsec as int,
                    a + 1,
                ) == prev + cur);
                lemma_annots_match_concat(out_before, part_seq, acc_rec + prev, cur);
                assert((acc_rec + prev) + cur =~= acc_rec + (prev + cur));
            }
            a = a + 1;
        }
        proof {
            acc = acc_rec + record_annots_upto(
                gdata,
                ginfo,
                ghs,
                grs,
                r as int,
                subsec as int,
                ann_slots_of(ginfo).len() as int,
            );
            assert(second_pass(
                gdata,
                ginfo,
                ghs,
                grs,
                dr as int,
                subsec as int,
                dur as int,
                r as int,
                elapsed_old,
                acc_rec,
            ) == second_pass(
                gdata,
                ginfo,
                ghs,
                grs,
                dr as int,
                subsec as int,
                dur as int,
                r + 1,
                elapsed as int,
                acc,
            ));
        }
        r = r + 1;
    }
    proof {
        assert(second_pass(
            gdata,
            ginfo,
            ghs,
            grs,
            dr as int,
            subsec as int,
            dur as int,
            r as int,
            elapsed as int,
            acc,
        ) == PassOutcome::Done(acc));
    }
    Ok(out)
}

/// Matching lists stay matching under concatenation.
pub proof fn lemma_annots_match_concat(
    v1: Seq<Annotation>,
    v2: Seq<Annotation>,
    a1: Seq<TalAnnot>,
    a2: Seq<TalAnnot>,
)
    requires
        annots_match(v1, a1),
        annots_match(v2, a2),
    ensures
        annots_match(v1 + v2, a1 + a2),
{
    let v = v1 + v2;
    let a = a1 + a2;
    assert forall|i: int| 0 <= i < v.len() implies crate::tal::annot_matches(
        #[trigger] v[i],
        a[i],
    ) by {
        if i < v1.len() {
            assert(v[i] == v1[i]);
            assert(a[i] == a1[i]);
        } else {
            assert(v[i] == v2[i - v1.len()]);
            assert(a[i] == a2[i - a1.len()]);
        }
    }
}

/// Dropping the first elements of matching lists keeps them matching.
proof fn lemma_annots_match_drop_first(v: Seq<Annotation>, a: Seq<TalAnnot>)
    requires
        annots_match(v, a),
        v.len() > 0,
    ensures
        annots_match(v.drop_first(), a.drop_first()),
{
    assert forall|i: int| 0 <= i < v.drop_first().len() implies crate::tal::annot_matches(
        #[trigger] v.drop_first()[i],
        a.drop_first()[i],
    ) by {
        assert(v.drop_first()[i] == v[i + 1]);
        assert(a.drop_first()[i] == a[i + 1]);
    }
}

/// Dropping the last elements of matching lists keeps them matching.
proof fn lemma_annots_match_drop_last(v: Seq<Annotation>, a: Seq<TalAnnot>)
    requires
        annots_match(v, a),
        v.len() > 0,
    ensures
        annots_match(v.drop_last(), a.drop_last()),
{
    assert forall|i: int| 0 <= i < v.drop_last().len() implies crate::tal::annot_matches(
        #[trigger] v.drop_last()[i],
        a.drop_last()[i],
    ) by {
        assert(v.drop_last()[i] == v[i]);
        assert(a.drop_last()[i] == a[i]);
    }
}

// ---------------------------------------------------------------------------
// Stable sort by onset
// ---------------------------------------------------------------------------

/// Where a stable insertion puts `x` in `s`: after every element whose onset
/// is not larger.
pub open spec fn insert_pos(s: Seq<Annotation>, x: Annotation) -> int
    decreases s.len(),
{
    if s.len() == 0 {
        0
    } else if s[0].onset > x.onset {
        0
    } else {
        1 + insert_pos(s.drop_first(), x)
    }
}

/// `s` with `x` inserted at its stable position.
pub open spec fn insert_sorted(s: Seq<Annotation>, x: Annotation) -> Seq<Annotation> {
    s.take(insert_pos(s, x)) + seq![x] + s.skip(insert_pos(s, x))
}

/// The list sorted stably by ascending onset: each element inserted, in
/// order, after the elements that do not exceed it.
pub open spec fn sort_by_onset(s: Seq<Annotation>) -> Seq<Annotation>
    decreases s.len(),
{
    if s.len() == 0 {
        Seq::empty()
    } else {
        insert_sorted(sort_by_onset(s.drop_last()), s.last())
    }
}

/// Non-decreasing onsets.
pub open spec fn sorted_by_onset(s: Seq<Annotation>) -> bool {
    forall|i: int, j: int| 0 <= i < j < s.len() ==> #[trigger] s[i].onset <= #[trigger] s[j].onset
}

pub proof fn lemma_insert_pos_bounds(s: Seq<Annotation>, x: Annotation)
    ensures
        0 <= insert_pos(s, x) <= s.len(),
        forall|i: int| 0 <= i < insert_pos(s, x) ==> #[trigger] s[i].onset <= x.onset,
        insert_pos(s, x) < s.len() ==> s[insert_pos(s, x)].onset > x.onset,
    decreases s.len(),
{
    if s.len() > 0 && !(s[0].onset > x.onset) {
        lemma_insert_pos_bounds(s.drop_first(), x);
        assert forall|i: int| 0 <= i < insert_pos(s, x) implies #[trigger] s[i].onset
            <= x.onset by {
            if i > 0 {
                assert(s.drop_first()[i - 1] == s[i]);
            }
        }
        if insert_pos(s, x) < s.len() {
            assert(s.drop_first()[insert_pos(s, x) - 1] == s[insert_pos(s, x)]);
        }
    }
}

/// If the first `j` elements have onsets not above `x`'s and element `j`
/// exceeds it (or is the end), the stable position is exactly `j`.
pub proof fn lemma_insert_pos_is(s: Seq<Annotation>, x: Annotation, j: int)
    requires
        0 <= j <= s.len(),
        forall|i: int| 0 <= i < j ==> #[trigger] s[i].onset <= x.onset,
        j == s.len() || s[j].onset > x.onset,
    ensures
        insert_pos(s, x) == j,
    decreases j,
{
    if j > 0 {
        lemma_insert_pos_is(s.drop_first(), x, j - 1);
    }
}

/// A stable insertion into a sorted list keeps it sorted.
pub proof fn lemma_insert_sorted_sorted(s: Seq<Annotation>, x: Annotation)
    requires
        sorted_by_onset(s),
    ensures
        sorted_by_onset(insert_sorted(s, x)),
{
    lemma_insert_pos_bounds(s, x);
    let p = insert_pos(s, x);
    let t = insert_sorted(s, x);
    assert forall|i: int, j: int| 0 <= i < j < t.len() implies #[trigger] t[i].onset
        <= #[trigger] t[j].onset by {
        let si = if i < p {
            s[i]
        } else if i == p {
            x
        } else {
            s[i - 1]
        };
        assert(t[i] == si);
        let sj = if j < p {
            s[j]
        } else if j == p {
            x
        } else {
            s[j - 1]
        };
        assert(t[j] == sj);
        if i < p && j > p {
            assert(s[i].onset <= x.onset);
            if s[j - 1].onset <= x.onset {
                assert(s[p].onset <= s[j - 1].onset);
            }
        } else if i == p && j > p {
            if s[j - 1].onset <= x.onset {
                assert(s[p].onset <= s[j - 1].onset);
            }
        }
    }
}

/// The sorted list is sorted: annotations are listed by non-decreasing
/// onset.
pub proof fn lemma_sort_by_onset_sorted(s: Seq<Annotation>)
    ensures
        sorted_by_onset(sort_by_onset(s)),
    decreases s.len(),
{
    if s.len() > 0 {
        lemma_sort_by_onset_sorted(s.drop_last());
        lemma_insert_sorted_sorted(sort_by_onset(s.drop_last()), s.last());
    }
}

/// Inserts `x` into the sorted vector at its stable position.
fn insert_annotation(v: &mut Vec<Annotation>, x: Annotation)
    ensures
        final(v)@ == insert_sorted(old(v)@, x),
{
    let n = v.len();
    let mut j: usize = 0;
    while j < n && v[j].onset <= x.onset
        invariant
            0 <= j <= n == v@.len(),
            v@ == old(v)@,
            forall|i: int| 0 <= i < j ==> #[trigger] v@[i].onset <= x.onset,
        decreases n - j,
    {
        j = j + 1;
    }
    proof {
        lemma_insert_pos_is(v@, x, j as int);
    }
    v.insert(j, x);
    proof {
        assert(old(v)@.insert(j as int, x) =~= insert_sorted(old(v)@, x));
    }
}

/// Sorts the annotations stably by ascending onset.
pub fn sort_annotations(v: Vec<Annotation>) -> (r: Vec<Annotation>)
    ensures
        r@ == sort_by_onset(v@),
{
    let ghost orig = v@;
    let mut src = v;
    let mut out: Vec<Annotation> = Vec::new();
    proof {
        assert(orig.take(0) =~= Seq::<Annotation>::empty());
        assert(orig.skip(0) =~= orig);
    }
    while src.len() > 0
        invariant
            src@.len() <= orig.len(),
            src@ == orig.skip(orig.len() - src@.len()),
            out@ == sort_by_onset(orig.take(orig.len() - src@.len())),
        decreases src@.len(),
    {
        let ghost i = orig.len() - src@.len();
        let x = src.remove(0);
        proof {
            assert(orig.skip(i).remove(0) =~= orig.skip(i + 1));
            assert(x == orig.skip(i)[0]);
            assert(orig.skip(i)[0] == orig[i]);
        }
        insert_annotation(&mut out, x);
        proof {
            assert(orig.take(i + 1).drop_last() =~= orig.take(i));
            assert(orig.take(i + 1).last() == orig[i]);
        }
    }
    proof {
        assert(orig.take(orig.len() as int) =~= orig);
    }
    out
}

/// Sorting matching lists in step: the TalAnnot-level stable sort.
pub open spec fn tal_insert_pos(s: Seq<TalAnnot>, x: TalAnnot) -> int
    decreases s.len(),
{
    if s.len() == 0 {
        0
    } else if s[0].onset > x.onset {
        0
    } else {
        1 + tal_insert_pos(s.drop_first(), x)
    }
}

pub open spec fn tal_insert_sorted(s: Seq<TalAnnot>, x: TalAnnot) -> Seq<TalAnnot> {
    s.take(tal_insert_pos(s, x)) + seq![x] + s.skip(tal_insert_pos(s, x))
}

/// The spec-level annotation list sorted stably by ascending onset.
pub open spec fn tal_sort_by_onset(s: Seq<TalAnnot>) -> Seq<TalAnnot>
    decreases s.len(),
{
    if s.len() == 0 {
        Seq::empty()
    } else {
        tal_insert_sorted(tal_sort_by_onset(s.drop_last()), s.last())
    }
}

proof fn lemma_match_insert_pos(v: Seq<Annotation>, a: Seq<TalAnnot>, x: Annotation, y: TalAnnot)
    requires
        annots_match(v, a),
        x.onset == y.onset,
    ensures
        insert_pos(v, x) == tal_insert_pos(a, y),
    decreases v.len(),
{
    if v.len() > 0 {
        assert(crate::tal::annot_matches(v[0], a[0]));
        if !(v[0].onset > x.onset) {
            lemma_annots_match_drop_first(v, a);
            lemma_match_insert_pos(v.drop_first(), a.drop_first(), x, y);
        }
    }
}

proof fn lemma_match_insert(v: Seq<Annotation>, a: Seq<TalAnnot>, x: Annotation, y: TalAnnot)
    requires
        annots_match(v, a),
        crate::tal::annot_matches(x, y),
    ensures
        annots_match(insert_sorted(v, x), tal_insert_sorted(a, y)),
{
    lemma_match_insert_pos(v, a, x, y);
    lemma_insert_pos_bounds(v, x);
    let p = insert_pos(v, x);
    let iv = insert_sorted(v, x);
    let ia = tal_insert_sorted(a, y);
    assert(iv.len() == ia.len());
    assert forall|i: int| 0 <= i < iv.len() implies crate::tal::annot_matches(
        #[trigger] iv[i],
        ia[i],
    ) by {
        if i < p {
            assert(iv[i] == v[i]);
            assert(ia[i] == a[i]);
        } else if i == p {
            assert(iv[i] == x);
            assert(ia[i] == y);
        } else {
            assert(iv[i] == v[i - 1]);
            assert(ia[i] == a[i - 1]);
        }
    }
}

/// Sorting preserves the match between built annotations and the spec list.
pub proof fn lemma_match_sort(v: Seq<Annotation>, a: Seq<TalAnnot>)
    requires
        annots_match(v, a),
    ensures
        annots_match(sort_by_onset(v), tal_sort_by_onset(a)),
    decreases v.len(),
{
    if v.len() > 0 {
        lemma_annots_match_drop_last(v, a);
        lemma_match_sort(v.drop_last(), a.drop_last());
        assert(crate::tal::annot_matches(v[v.len() - 1], a[a.len() - 1]));
        lemma_match_insert(
            sort_by_onset(v.drop_last()),
            tal_sort_by_onset(a.drop_last()),
            v.last(),
            a.last(),
        );
    }
}

} // verus!
