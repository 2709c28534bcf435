//! The reader: opens a byte image of an EDF+C recording and serves random
//! access to its digital samples and annotations, with one independent
//! cursor per user-visible signal.

use vstd::prelude::*;
use crate::types::{EdfHeader, SignalInfo, Annotation};
use crate::error::EdfError;
use crate::header::{
    parse_header, header_check_error, header_matches, nsignals_of, datarecords_of,
    duration_ticks_of, buffer_offset_of, sig_spr, sig_is_annotation, user_slots_of,
    user_slots_from, signal_check_error, lemma_user_slots_bounds, lemma_signal_check_ok,
    lemma_buffer_offset_mono,
};
use crate::ascii::lemma_atoi_spec_bound;
use vstd::arithmetic::div_mod::{lemma_fundamental_div_mod, lemma_div_is_ordered};
use crate::annots::{
    count_annotations_and_parse_subsecond, parse_annotations, sort_annotations, count_pass_count,
    count_pass_subsec, annotations_outcome, PassOutcome, tal_sort_by_onset, sorted_by_onset,
    lemma_sort_by_onset_sorted, lemma_match_sort, layout_ok,
};
use crate::tal::annots_match;

verus! {

// ---------------------------------------------------------------------------
// Sample model
// ---------------------------------------------------------------------------

/// Little-endian two's-complement value of a two-byte sample.
pub open spec fn sample_le16(b0: u8, b1: u8) -> int {
    let u = b0 + 256 * (b1 as int);
    if u >= 32768 {
        u - 65536
    } else {
        u
    }
}

/// A decoded value clamped as the reader clamps it: raised to the digital
/// minimum first, then capped at the digital maximum.
pub open spec fn clamp_digital(x: int, dmin: int, dmax: int) -> int {
    let lo = if x > dmin {
        x
    } else {
        dmin
    };
    if lo < dmax {
        lo
    } else {
        dmax
    }
}

/// File offset of sample `p` of a signal whose record chunk starts at `bo`.
pub open spec fn sample_offset(hs: int, rs: int, bo: int, spr: int, p: int) -> int {
    hs + (p / spr) * rs + bo + (p % spr) * 2
}

/// The digital sample at position `p`: decoded little-endian, then clamped
/// into the signal's digital range.
pub open spec fn sample_at(
    data: Seq<u8>,
    hs: int,
    rs: int,
    bo: int,
    spr: int,
    dmin: int,
    dmax: int,
    p: int,
) -> int {
    let off = sample_offset(hs, rs, bo, spr, p);
    clamp_digital(sample_le16(data[off], data[off + 1]), dmin, dmax)
}

/// How many samples a read of `n` from cursor `pos` returns: `n`, or what is
/// left of the signal if that is less.
pub open spec fn read_count(sif: int, pos: int, n: int) -> int {
    let avail = if sif - pos > 0 {
        sif - pos
    } else {
        0
    };
    if n < avail {
        n
    } else {
        avail
    }
}

/// Where a seek puts the cursor: the position raised to zero, then capped at
/// the signal length.
pub open spec fn clamp_position(p: int, sif: int) -> int {
    let lo = if p > 0 {
        p
    } else {
        0
    };
    if lo < sif {
        lo
    } else {
        sif
    }
}

// ---------------------------------------------------------------------------
// The file-level model used by `open`'s contract
// ---------------------------------------------------------------------------

/// The record-layout slots that the descriptor block of `data` describes.
pub open spec fn file_slots(data: Seq<u8>) -> Seq<SignalInfo> {
    let n = nsignals_of(data);
    Seq::new(
        n as nat,
        |j: int|
            SignalInfo {
                buffer_offset: buffer_offset_of(data, n, j) as u64,
                samples_per_record: sig_spr(data, n, j) as i32,
                is_annotation: sig_is_annotation(data, j),
            },
    )
}

/// Header size in bytes: one block for the main header and one per signal.
pub open spec fn file_header_size(data: Seq<u8>) -> int {
    (nsignals_of(data) + 1) * 256
}

/// Record size in bytes.
pub open spec fn file_record_size(data: Seq<u8>) -> int {
    buffer_offset_of(data, nsignals_of(data), nsignals_of(data))
}

/// The sub-second start offset that the first pass derives.
pub open spec fn file_subsec(data: Seq<u8>) -> int {
    count_pass_subsec(
        data,
        file_slots(data),
        file_header_size(data),
        file_record_size(data),
        datarecords_of(data),
    )
}

/// The annotation count that the first pass derives.
pub open spec fn file_anncount(data: Seq<u8>) -> int {
    count_pass_count(
        data,
        file_slots(data),
        file_header_size(data),
        file_record_size(data),
        datarecords_of(data),
    )
}

/// The outcome of the annotation second pass over the whole file.
pub open spec fn file_outcome(data: Seq<u8>) -> PassOutcome {
    annotations_outcome(
        data,
        file_slots(data),
        file_header_size(data),
        file_record_size(data),
        datarecords_of(data),
        file_subsec(data),
        duration_ticks_of(data),
    )
}

// ---------------------------------------------------------------------------
// The reader
// ---------------------------------------------------------------------------

/// An opened EDF+C recording: the byte image, the decoded header, the record
/// layout, one cursor per user-visible signal, and the annotation list.
#[derive(Debug)]
pub struct EdfReader {
    data: Vec<u8>,
    header: EdfHeader,
    signal_info: Vec<SignalInfo>,
    sample_positions: Vec<i64>,
    header_size: usize,
    record_size: u64,
    annotations: Vec<Annotation>,
}

impl EdfReader {
    /// The byte image the reader was opened on.
    pub closed spec fn bytes(&self) -> Seq<u8> {
        self.data@
    }

    /// The decoded header.
    pub closed spec fn spec_header(&self) -> EdfHeader {
        self.header
    }

    /// The record-layout slots, annotation slots included.
    pub closed spec fn slots(&self) -> Seq<SignalInfo> {
        self.signal_info@
    }

    /// The per-signal cursors.
    pub closed spec fn positions(&self) -> Seq<i64> {
        self.sample_positions@
    }

    /// The decoded annotations, sorted by onset.
    pub closed spec fn spec_annotations(&self) -> Seq<Annotation> {
        self.annotations@
    }

    /// Header size in bytes.
    pub closed spec fn spec_header_size(&self) -> int {
        self.header_size as int
    }

    /// Record size in bytes.
    pub closed spec fn spec_record_size(&self) -> int {
        self.record_size as int
    }

    /// The record-layout slot of user signal `i`.
    pub open spec fn signal_slot(&self, i: int) -> SignalInfo {
        self.slots()[user_slots_of(self.slots())[i]]
    }

    /// The digital sample of user signal `i` at position `p`.
    pub open spec fn signal_sample(&self, i: int, p: int) -> int {
        let slot = self.signal_slot(i);
        let sig = self.spec_header().signals@[i];
        sample_at(
            self.bytes(),
            self.spec_header_size(),
            self.spec_record_size(),
            slot.buffer_offset as int,
            slot.samples_per_record as int,
            sig.digital_min as int,
            sig.digital_max as int,
            p,
        )
    }

    /// Whether the byte image holds sample `p` of user signal `i` in full.
    pub open spec fn sample_end_ok(&self, i: int, p: int) -> bool {
        let slot = self.signal_slot(i);
        sample_offset(
            self.spec_header_size(),
            self.spec_record_size(),
            slot.buffer_offset as int,
            slot.samples_per_record as int,
            p,
        ) + 2 <= self.bytes().len()
    }

    /// Well-formedness: the cursors, the layout and the header fit together.
    pub open spec fn wf(&self) -> bool {
        let signals = self.spec_header().signals@;
        let slots = self.slots();
        let dr = self.spec_header().datarecords_in_file as int;
        &&& self.positions().len() == signals.len()
        &&& 1 <= slots.len() <= 640
        &&& signals.len() == user_slots_of(slots).len()
        &&& self.spec_header_size() == (slots.len() + 1) * 256
        &&& layout_ok(self.bytes(), slots, self.spec_header_size(), self.spec_record_size())
        &&& -99_999_999 <= dr <= 99_999_999
        &&& forall|k: int|
            0 <= k < signals.len() ==> (#[trigger] signals[k]).samples_per_record
                == self.signal_slot(k).samples_per_record && signals[k].samples_in_file
                == signals[k].samples_per_record * dr && 0 <= signals[k].samples_per_record
                <= 99_999_999
        &&& forall|k: int|
            0 <= k < signals.len() ==> {
                let sif = (#[trigger] signals[k]).samples_in_file as int;
                let lo = if sif < 0 {
                    sif
                } else {
                    0
                };
                let hi = if sif > 0 {
                    sif
                } else {
                    0
                };
                lo <= self.positions()[k] <= hi
            }
        &&& sorted_by_onset(self.spec_annotations())
    }

    /// Gets the decoded header.
    pub fn header(&self) -> (r: &EdfHeader)
        ensures
            *r == self.spec_header(),
    {
        &self.header
    }

    /// Gets the annotation list, sorted by ascending onset.
    pub fn annotations(&self) -> (r: &Vec<Annotation>)
        ensures
            r@ == self.spec_annotations(),
    {
        &self.annotations
    }

    /// Gets the current cursor of a signal.
    pub fn tell(&self, signal: usize) -> (r: Result<i64, EdfError>)
        requires
            self.wf(),
        ensures
            signal < self.spec_header().signals@.len() ==> r == Ok::<i64, EdfError>(
                self.positions()[signal as int],
            ),
            signal >= self.spec_header().signals@.len() ==> r == Err::<i64, EdfError>(
                EdfError::InvalidSignalIndex,
            ),
    {
        if signal >= self.header.signals.len() {
            return Err(EdfError::InvalidSignalIndex);
        }
        Ok(self.sample_positions[signal])
    }

    /// Moves a signal's cursor to `position`, clamped into the signal.
    pub fn seek(&mut self, signal: usize, position: i64) -> (r: Result<i64, EdfError>)
        requires
            old(self).wf(),
        ensures
            final(self).wf(),
            final(self).bytes() == old(self).bytes(),
            final(self).spec_header() == old(self).spec_header(),
            final(self).slots() == old(self).slots(),
            final(self).spec_annotations() == old(self).spec_annotations(),
            final(self).spec_header_size() == old(self).spec_header_size(),
            final(self).spec_record_size() == old(self).spec_record_size(),
            signal >= old(self).spec_header().signals@.len() ==> r == Err::<i64, EdfError>(
                EdfError::InvalidSignalIndex,
            ) && final(self).positions() == old(self).positions(),
            signal < old(self).spec_header().signals@.len() ==> ({
                let sif = old(self).spec_header().signals@[signal as int].samples_in_file as int;
                let c = clamp_position(position as int, sif);
                &&& r == Ok::<i64, EdfError>(c as i64)
                &&& final(self).positions() == old(self).positions().update(
                    signal as int,
                    c as i64,
                )
            }),
    {
        if signal >= self.header.signals.len() {
            return Err(EdfError::InvalidSignalIndex);
        }
        let sif = self.header.signals[signal].samples_in_file;
        let raised = if position > 0 {
            position
        } else {
            0
        };
        let clamped = if raised < sif {
            raised
        } else {
            sif
        };
        self.sample_positions[signal] = clamped;
        Ok(clamped)
    }

    /// Moves a signal's cursor back to the start: the same as seeking to
    /// position zero.
    pub fn rewind(&mut self, signal: usize) -> (r: Result<(), EdfError>)
        requires
            old(self).wf(),
        ensures
            final(self).wf(),
            final(self).bytes() == old(self).bytes(),
            final(self).spec_header() == old(self).spec_header(),
            final(self).slots() == old(self).slots(),
            final(self).spec_annotations() == old(self).spec_annotations(),
            final(self).spec_header_size() == old(self).spec_header_size(),
            final(self).spec_record_size() == old(self).spec_record_size(),
            signal >= old(self).spec_header().signals@.len() ==> r == Err::<(), EdfError>(
                EdfError::InvalidSignalIndex,
            ) && final(self).positions() == old(self).positions(),
            signal < old(self).spec_header().signals@.len() ==> ({
                let sif = old(self).spec_header().signals@[signal as int].samples_in_file as int;
                r == Ok::<(), EdfError>(()) && final(self).positions() == old(
                    self,
                ).positions().update(signal as int, clamp_position(0, sif) as i64)
            }),
    {
        match self.seek(signal, 0) {
            Ok(_) => Ok(()),
            Err(e) => Err(e),
        }
    }
}

// ---------------------------------------------------------------------------
// Sample access
// ---------------------------------------------------------------------------

/// Computes the file offset of sample `p` of a signal.
fn sample_offset_at(hs: u64, rs: u64, bo: u64, spr: u64, p: u64) -> (off: u64)
    requires
        1 <= spr <= 99_999_999,
        hs <= 164_096,
        bo + 2 * spr <= rs,
        rs <= 128_000_000_000,
        p < spr * 100_000_000,
    ensures
        off == sample_offset(hs as int, rs as int, bo as int, spr as int, p as int),
        off <= 13_000_000_000_000_000_000,
{
    let rec = p / spr;
    let m = p % spr;
    proof {
        lemma_fundamental_div_mod(p as int, spr as int);
        assert(rec < 100_000_000) by (nonlinear_arith)
            requires
                spr as int >= 1,
                (p as int) < (spr as int) * 100_000_000,
                rec as int == (p as int) / (spr as int),
                (p as int) == (spr as int) * ((p as int) / (spr as int)) + (p as int) % (
                spr as int),
                0 <= (p as int) % (spr as int),
        ;
        assert((rec as int) * (rs as int) <= 99_999_999 * 128_000_000_000) by (nonlinear_arith)
            requires
                0 <= rec as int <= 99_999_999,
                0 <= rs as int <= 128_000_000_000,
        ;
    }
    hs + rec * rs + bo + 2 * m
}

/// Sample offsets only grow with the position: a signal's samples are laid
/// out in file order.
pub proof fn lemma_sample_offset_mono(hs: int, rs: int, bo: int, spr: int, p: int, q: int)
    requires
        0 <= p <= q,
        spr > 0,
        0 <= bo,
        bo + 2 * spr <= rs,
        0 <= hs,
    ensures
        sample_offset(hs, rs, bo, spr, p) <= sample_offset(hs, rs, bo, spr, q),
{
    let rp = p / spr;
    let mp = p % spr;
    let rq = q / spr;
    let mq = q % spr;
    lemma_fundamental_div_mod(p, spr);
    lemma_fundamental_div_mod(q, spr);
    lemma_div_is_ordered(p, q, spr);
    assert(0 <= mp < spr && 0 <= mq < spr) by (nonlinear_arith)
        requires
            spr > 0,
            mp == p % spr,
            mq == q % spr,
            p >= 0,
            q >= 0,
    ;
    if rp == rq {
        assert(mp <= mq);
    } else {
        assert(rq >= rp + 1);
        assert((rq - rp) * rs >= rs) by (nonlinear_arith)
            requires
                rq - rp >= 1,
                rs >= 0,
        ;
        assert(rq * rs - rp * rs == (rq - rp) * rs) by (nonlinear_arith);
        assert(rq * rs + mq * 2 >= rp * rs + mp * 2);
    }
}

impl EdfReader {
    /// Reads up to `count` digital samples of signal `signal` from its
    /// cursor: fewer near the end of the signal, each decoded little-endian
    /// and clamped into the digital range; the cursor advances by the number
    /// returned. The byte image must hold every requested sample, else
    /// nothing is read.
    #[verifier::rlimit(100)]
    pub fn read_digital_samples(&mut self, signal: usize, count: usize) -> (r: Result<
        Vec<i32>,
        EdfError,
    >)
        requires
            old(self).wf(),
        ensures
            final(self).wf(),
            final(self).bytes() == old(self).bytes(),
            final(self).spec_header() == old(self).spec_header(),
            final(self).slots() == old(self).slots(),
            final(self).spec_annotations() == old(self).spec_annotations(),
            final(self).spec_header_size() == old(self).spec_header_size(),
            final(self).spec_record_size() == old(self).spec_record_size(),
            signal >= old(self).spec_header().signals@.len() ==> r == Err::<Vec<i32>, EdfError>(
                EdfError::InvalidSignalIndex,
            ) && final(self).positions() == old(self).positions(),
            signal < old(self).spec_header().signals@.len() ==> ({
                let sig = old(self).spec_header().signals@[signal as int];
                let sif = sig.samples_in_file as int;
                let pos = old(self).positions()[signal as int] as int;
                let k = read_count(sif, pos, count as int);
                &&& (r is Ok <==> k == 0 || old(self).sample_end_ok(signal as int, pos + k - 1))
                &&& (r is Ok ==> r.unwrap()@.len() == k && (forall|q: int|
                    0 <= q < k ==> r.unwrap()@[q] == old(self).signal_sample(
                        signal as int,
                        pos + q,
                    )) && (sig.digital_min <= sig.digital_max ==> (forall|q: int|
                    0 <= q < k ==> sig.digital_min <= #[trigger] r.unwrap()@[q]
                        <= sig.digital_max))
                    && final(self).positions() == old(self).positions().update(
                    signal as int,
                    (pos + k) as i64,
                ))
                &&& (r is Err ==> r == Err::<Vec<i32>, EdfError>(EdfError::FileReadError)
                    && final(self).positions() == old(self).positions())
            }),
    {
        if signal >= self.header.signals.len() {
            return Err(EdfError::InvalidSignalIndex);
        }
        let spr = self.header.signals[signal].samples_per_record;
        let dmin = self.header.signals[signal].digital_min;
        let dmax = self.header.signals[signal].digital_max;
        let sif = self.header.signals[signal].samples_in_file;
        let pos = self.sample_positions[signal];
        // the slot of this user signal: the signal-th non-annotation slot
        let nslots = self.signal_info.len();
        let mut cnt: usize = 0;
        let mut i: usize = 0;
        let mut slot_idx: usize = 0;
        let mut found = false;
        proof {
            lemma_user_slots_bounds(self.slots(), 0);
        }
        while i < nslots
            invariant_except_break
                !found,
                0 <= i <= nslots,
                cnt <= signal,
                user_slots_of(self.slots()).skip(cnt as int) == user_slots_from(
                    self.slots(),
                    i as int,
                ),
            invariant
                *self == *old(self),
                old(self).wf(),
                nslots == self.slots().len(),
                signal < self.spec_header().signals@.len(),
                found ==> slot_idx < nslots && user_slots_of(self.slots())[signal as int]
                    == slot_idx,
            ensures
                found,
            decreases nslots - i,
        {
            if !self.signal_info[i].is_annotation {
                if cnt == signal {
                    proof {
                        assert(user_slots_from(self.slots(), i as int) == seq![i as int]
                            + user_slots_from(self.slots(), i + 1));
                        assert(user_slots_of(self.slots()).skip(cnt as int)[0] == i as int);
                        assert(user_slots_of(self.slots())[signal as int] == user_slots_of(
                            self.slots(),
                        ).skip(cnt as int)[0]);
                    }
                    slot_idx = i;
                    found = true;
                    break;
                }
                proof {
                    assert(user_slots_from(self.slots(), i as int) == seq![i as int]
                        + user_slots_from(self.slots(), i + 1));
                    assert(user_slots_of(self.slots()).skip(cnt + 1) =~= user_slots_of(
                        self.slots(),
                    ).skip(cnt as int).drop_first());
                    assert(user_slots_of(self.slots()).skip(cnt as int).drop_first()
                        =~= user_slots_from(self.slots(), i + 1));
                }
                cnt = cnt + 1;
            } else {
                proof {
                    assert(user_slots_from(self.slots(), i as int) == user_slots_from(
                        self.slots(),
                        i + 1,
                    ));
                }
            }
            i = i + 1;
        }
        let slot = self.signal_info[slot_idx];
        let bo = slot.buffer_offset;
        proof {
            assert(self.signal_slot(signal as int) == slot);
            assert(slot.samples_per_record == spr);
            assert(0 <= spr <= 99_999_999);
            assert(slot.buffer_offset + 2 * slot.samples_per_record <= self.spec_record_size());
            assert(sif == spr * self.spec_header().datarecords_in_file);
            assert(-10_000_000_000_000_000 <= sif <= 10_000_000_000_000_000) by (nonlinear_arith)
                requires
                    sif == spr * self.spec_header().datarecords_in_file,
                    0 <= spr <= 99_999_999,
                    -99_999_999 <= self.spec_header().datarecords_in_file <= 99_999_999,
            ;
        }
        let avail: i64 = if sif > pos {
            sif - pos
        } else {
            0
        };
        let k: i64 = if avail <= 0 {
            0
        } else if (count as u64) < (avail as u64) {
            count as i64
        } else {
            avail
        };
        proof {
            assert(k as int == read_count(sif as int, pos as int, count as int));
        }
        if k == 0 {
            proof {
                assert(old(self).positions().update(signal as int, pos) =~= old(self).positions());
            }
            return Ok(Vec::new());
        }
        // a sample is wanted, so the signal is non-empty and the cursor is
        // inside it
        let ghost dr = self.spec_header().datarecords_in_file as int;
        proof {
            assert(sif > pos);
            assert(pos >= 0);
            assert(spr > 0 && dr > 0) by (nonlinear_arith)
                requires
                    sif as int == (spr as int) * dr,
                    sif > 0,
                    spr >= 0,
                    -99_999_999 <= dr <= 99_999_999,
            ;
            assert((spr as int) * dr <= (spr as int) * 100_000_000) by (nonlinear_arith)
                requires
                    0 <= spr,
                    dr <= 100_000_000,
            ;
        }
        let last: i64 = pos + k - 1;
        let off_last = sample_offset_at(
            self.header_size as u64,
            self.record_size,
            bo,
            spr as u64,
            last as u64,
        );
        proof {
            assert(self.data.len() == self.data@.len());
        }
        if off_last + 2 > self.data.len() as u64 {
            return Err(EdfError::FileReadError);
        }
        let mut samples: Vec<i32> = Vec::new();
        let mut q: i64 = 0;
        let ghost gslot = slot;
        while q < k
            invariant
                *self == *old(self),
                old(self).wf(),
                signal < self.spec_header().signals@.len(),
                gslot == self.signal_slot(signal as int),
                slot == gslot,
                bo == slot.buffer_offset,
                spr == slot.samples_per_record,
                1 <= spr <= 99_999_999,
                dmin == self.spec_header().signals@[signal as int].digital_min,
                dmax == self.spec_header().signals@[signal as int].digital_max,
                sif == self.spec_header().signals@[signal as int].samples_in_file,
                pos == self.positions()[signal as int],
                0 <= pos,
                0 < k,
                pos + k <= sif,
                sif as int == (spr as int) * dr,
                dr == self.spec_header().datarecords_in_file as int,
                0 < dr <= 99_999_999,
                last == pos + k - 1,
                bo + 2 * spr <= self.spec_record_size(),
                self.spec_record_size() <= 128_000_000_000,
                self.spec_header_size() <= 164_096,
                off_last == sample_offset(
                    self.spec_header_size(),
                    self.spec_record_size(),
                    bo as int,
                    spr as int,
                    last as int,
                ),
                off_last + 2 <= self.data@.len(),
                self.data@.len() <= usize::MAX,
                0 <= q <= k,
                samples@.len() == q,
                forall|j: int|
                    0 <= j < q ==> #[trigger] samples@[j] == old(self).signal_sample(
                        signal as int,
                        pos + j,
                    ),
                dmin <= dmax ==> (forall|j: int|
                    0 <= j < q ==> dmin <= #[trigger] samples@[j] <= dmax),
            decreases k - q,
        {
            let p: i64 = pos + q;
            proof {
                assert((spr as int) * dr <= (spr as int) * 100_000_000) by (nonlinear_arith)
                    requires
                        0 <= spr,
                        dr <= 100_000_000,
                ;
                lemma_sample_offset_mono(
                    self.spec_header_size(),
                    self.spec_record_size(),
                    bo as int,
                    spr as int,
                    p as int,
                    last as int,
                );
            }
            let off = sample_offset_at(
                self.header_size as u64,
                self.record_size,
                bo,
                spr as u64,
                p as u64,
            );
            proof {
                assert(off + 2 <= self.data@.len());
            }
            let b0 = self.data[off as usize];
            let b1 = self.data[off as usize + 1];
            let u: u32 = b0 as u32 + 256 * (b1 as u32);
            let v: i32 = if u >= 32768 {
                (u as i32) - 65536
            } else {
                u as i32
            };
            let c1 = if v < dmin {
                dmin
            } else {
                v
            };
            let c = if c1 > dmax {
                dmax
            } else {
                c1
            };
            proof {
                assert(v == sample_le16(self.data@[off as int], self.data@[off as int + 1]));
                assert(c == old(self).signal_sample(signal as int, pos + q));
                if dmin <= dmax {
                    lemma_sample_in_range(
                        self.bytes(),
                        self.spec_header_size(),
                        self.spec_record_size(),
                        bo as int,
                        spr as int,
                        dmin as int,
                        dmax as int,
                        pos + q,
                    );
                }
            }
            samples.push(c);
            q = q + 1;
        }
        self.sample_positions[signal] = pos + k;
        proof {
            assert(final(self).positions() =~= old(self).positions().update(
                signal as int,
                (pos + k) as i64,
            ));
        }
        Ok(samples)
    }
}

// ---------------------------------------------------------------------------
// Opening
// ---------------------------------------------------------------------------

impl EdfReader {
    /// Opens the byte image of an EDF+C recording: decodes and validates the
    /// header, derives the annotation count and the sub-second start offset,
    /// decodes the full annotation list, and starts every cursor at zero.
    /// A record-start timestamp that breaks continuity rejects the file;
    /// any other trouble in the annotation payloads leaves the list empty
    /// or truncated without failing.
    #[verifier::rlimit(100)]
    pub fn open(data: Vec<u8>) -> (r: Result<EdfReader, EdfError>)
        ensures
            r is Err <==> header_check_error(data@) is Some || file_outcome(data@) is Fatal,
            r is Err ==> r.unwrap_err() == (if header_check_error(data@) is Some {
                header_check_error(data@).unwrap()
            } else {
                EdfError::InvalidHeader
            }),
            r is Ok ==> ({
                let rd = r.unwrap();
                &&& rd.wf()
                &&& rd.bytes() == data@
                &&& rd.slots() == file_slots(data@)
                &&& header_matches(
                    data@,
                    rd.spec_header(),
                    rd.slots(),
                    (file_record_size(data@) as u64),
                )
                &&& rd.spec_header().annotations_in_file == file_anncount(data@)
                &&& rd.spec_header().starttime_subsecond == file_subsec(data@)
                &&& rd.spec_header_size() == (nsignals_of(data@) + 1) * 256
                &&& rd.spec_record_size() == file_record_size(data@)
                &&& rd.positions().len() == rd.spec_header().signals@.len()
                &&& (forall|i: int| 0 <= i < rd.positions().len() ==> rd.positions()[i] == 0)
                &&& (file_outcome(data@) is Done ==> annots_match(
                    rd.spec_annotations(),
                    tal_sort_by_onset(file_outcome(data@)->Done_0),
                ))
                &&& (file_outcome(data@) is ReadFail ==> rd.spec_annotations().len() == 0)
            }),
    {
        let (mut header, info, record_size) = match parse_header(data.as_slice()) {
            Ok(t) => t,
            Err(e) => {
                return Err(e);
            },
        };
        let n = info.len();
        proof {
            assert(header_check_error(data@) is None);
            assert(1 <= nsignals_of(data@) <= 640);
            assert(signal_check_error(data@, n as int, 0) is None);
            lemma_signal_check_ok(data@, n as int, 0);
            assert forall|j: int| 0 <= j < n implies 0 <= #[trigger] info@[j].samples_per_record
                <= 99_999_999 by {
                assert(info@[j].samples_per_record == sig_spr(data@, n as int, j));
                lemma_atoi_spec_bound(
                    data@.subrange(256 + (n as int) * 216 + j * 8, 256 + (n as int) * 216 + j * 8
                        + 8),
                );
            }
            assert forall|j: int| 0 <= j < n implies 0 <= #[trigger] info@[j].buffer_offset
                && info@[j].buffer_offset + 2 * info@[j].samples_per_record
                <= record_size by {
                lemma_buffer_offset_mono(data@, n as int, 0, j);
                lemma_buffer_offset_mono(data@, n as int, j + 1, n as int);
                assert(buffer_offset_of(data@, n as int, j + 1) == buffer_offset_of(
                    data@,
                    n as int,
                    j,
                ) + 2 * sig_spr(data@, n as int, j));
            }
            assert(info@ =~= file_slots(data@));
        }
        let header_size: usize = (n + 1) * 256;
        let mut sample_positions: Vec<i64> = Vec::new();
        let nsig = header.signals.len();
        let mut i: usize = 0;
        while i < nsig
            invariant
                0 <= i <= nsig,
                sample_positions@.len() == i,
                forall|j: int| 0 <= j < i ==> #[trigger] sample_positions@[j] == 0,
            decreases nsig - i,
        {
            sample_positions.push(0);
            i = i + 1;
        }
        proof {
            assert(layout_ok(data@, info@, header_size as int, record_size as int));
        }
        let (anncount, subsec) = count_annotations_and_parse_subsecond(
            data.as_slice(),
            &info,
            header.datarecords_in_file,
            record_size,
            header_size,
        );
        header.annotations_in_file = anncount;
        header.starttime_subsecond = subsec;
        let ghost outcome = annotations_outcome(
            data@,
            info@,
            header_size as int,
            record_size as int,
            header.datarecords_in_file as int,
            subsec as int,
            header.datarecord_duration as int,
        );
        proof {
            assert(outcome == file_outcome(data@));
        }
        let annotations = match parse_annotations(
            data.as_slice(),
            &info,
            header.datarecords_in_file,
            record_size,
            header_size,
            subsec,
            header.datarecord_duration,
        ) {
            Ok(v) => {
                let ghost raw = v@;
                let sorted = sort_annotations(v);
                proof {
                    lemma_match_sort(raw, outcome->Done_0);
                    lemma_sort_by_onset_sorted(raw);
                }
                sorted
            },
            Err(e) => {
                match e {
                    EdfError::InvalidHeader => {
                        return Err(EdfError::InvalidHeader);
                    },
                    _ => Vec::new(),
                }
            },
        };
        let reader = EdfReader {
            data,
            header,
            signal_info: info,
            sample_positions,
            header_size,
            record_size,
            annotations,
        };
        proof {
            lemma_user_slots_bounds(reader.slots(), 0);
            assert(sorted_by_onset(reader.spec_annotations()));
            assert(reader.wf());
        }
        Ok(reader)
    }
}

// ---------------------------------------------------------------------------
// Laws
// ---------------------------------------------------------------------------

/// A clamped seek position lies in the signal, and a position already inside
/// is kept as it is.
pub proof fn lemma_clamp_position_range(p: int, sif: int)
    requires
        sif >= 0,
    ensures
        0 <= clamp_position(p, sif) <= sif,
        0 <= p <= sif ==> clamp_position(p, sif) == p,
        p < 0 ==> clamp_position(p, sif) == 0,
        p > sif ==> clamp_position(p, sif) == sif,
{
}

/// Every sample the reader returns lies inside the signal's digital range
/// (when the range is not inverted).
pub proof fn lemma_sample_in_range(
    data: Seq<u8>,
    hs: int,
    rs: int,
    bo: int,
    spr: int,
    dmin: int,
    dmax: int,
    p: int,
)
    requires
        dmin <= dmax,
    ensures
        dmin <= sample_at(data, hs, rs, bo, spr, dmin, dmax, p) <= dmax,
{
}

/// The samples that a read returns, as a sequence over positions.
pub open spec fn samples_seq(
    data: Seq<u8>,
    hs: int,
    rs: int,
    bo: int,
    spr: int,
    dmin: int,
    dmax: int,
    p: int,
    k: int,
) -> Seq<int> {
    Seq::new(
        (if k >= 0 {
            k
        } else {
            0
        }) as nat,
        |q: int| sample_at(data, hs, rs, bo, spr, dmin, dmax, p + q),
    )
}

/// Rewinding and reading `k1` then `k2` samples yields the same samples as
/// one read of `k1 + k2` after rewinding, split at `k1`: the counts add up
/// and the sequences concatenate.
pub proof fn lemma_read_read_concat(
    data: Seq<u8>,
    hs: int,
    rs: int,
    bo: int,
    spr: int,
    dmin: int,
    dmax: int,
    sif: int,
    k1: int,
    k2: int,
)
    requires
        sif >= 0,
        k1 >= 0,
        k2 >= 0,
    ensures
        ({
            let c1 = read_count(sif, 0, k1);
            let c2 = read_count(sif, c1, k2);
            &&& read_count(sif, 0, k1 + k2) == c1 + c2
            &&& samples_seq(data, hs, rs, bo, spr, dmin, dmax, 0, c1) + samples_seq(
                data,
                hs,
                rs,
                bo,
                spr,
                dmin,
                dmax,
                c1,
                c2,
            ) == samples_seq(data, hs, rs, bo, spr, dmin, dmax, 0, c1 + c2)
        }),
{
    let c1 = read_count(sif, 0, k1);
    let c2 = read_count(sif, c1, k2);
    assert(samples_seq(data, hs, rs, bo, spr, dmin, dmax, 0, c1) + samples_seq(
        data,
        hs,
        rs,
        bo,
        spr,
        dmin,
        dmax,
        c1,
        c2,
    ) =~= samples_seq(data, hs, rs, bo, spr, dmin, dmax, 0, c1 + c2));
}

} // verus!
