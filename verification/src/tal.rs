//! The TAL (Time-stamped Annotations List) decoder: a four-state machine
//! over the byte payload of one annotation-signal slice.
//!
//! Grammar of one TAL: `+<onset>[\x15<duration>]\x14<description>\x14`.
//! A slice holds a run of TALs followed by NUL padding and must end with a
//! NUL byte. A single NUL is tolerated only directly after a `\x14` and
//! starts the next TAL; a malformed byte stops the decoder, which keeps what
//! was emitted so far and drops the rest of the slice.

use vstd::prelude::*;
use crate::numeric::{
    valid_time_text, digit_text_ticks, sat_i64, timestamp_ticks_spec, ticks_per_second,
    check_time_text, time_text_ticks, timestamp_ticks,
};
use crate::text::{lossy_of, bytes_to_string};
use crate::types::Annotation;

verus! {

/// The decoder's four states.
#[derive(Clone, Copy, Debug, PartialEq, Eq, Structural)]
pub enum TalState {
    /// Before a TAL: waiting for the `+` that opens an onset.
    WaitingForOnset,
    /// Inside the onset field.
    CollectingOnset,
    /// Inside the duration field.
    CollectingDuration,
    /// Inside the description field.
    CollectingDescription,
}

/// One decoded annotation, at the spec level: tick values and description
/// bytes.
pub struct TalAnnot {
    pub onset: int,
    pub duration: int,
    pub desc: Seq<u8>,
}

/// The whole decoder state, at the spec level.
pub struct TalMachine {
    pub state: TalState,
    pub scratch: Seq<u8>,
    pub time_text: Seq<u8>,
    pub dur_text: Seq<u8>,
    pub has_dur: bool,
    pub zeros: int,
    pub annots_seen: int,
    pub emitted: Seq<TalAnnot>,
    pub done: bool,
}

/// The decoder's starting state.
pub open spec fn tal_init() -> TalMachine {
    TalMachine {
        state: TalState::WaitingForOnset,
        scratch: Seq::empty(),
        time_text: Seq::empty(),
        dur_text: Seq::empty(),
        has_dur: false,
        zeros: 0,
        annots_seen: 0,
        emitted: Seq::empty(),
        done: false,
    }
}

/// The annotation that the machine emits when a description closes: onset
/// ticks adjusted by the recording's sub-second start offset; duration ticks
/// or -1 when none was given.
pub open spec fn tal_emit(m: TalMachine, subsec: int) -> TalAnnot {
    TalAnnot {
        onset: sat_i64(sat_i64(digit_text_ticks(m.time_text)) - subsec),
        duration: if m.has_dur {
            sat_i64(digit_text_ticks(m.dur_text))
        } else {
            -1
        },
        desc: m.scratch,
    }
}

/// Whether the annotation just closed is the record-start timestamp: the
/// first annotation of the slice, on the first annotation signal, with an
/// empty description. It is not emitted.
pub open spec fn is_timestamp_annot(m: TalMachine, first_signal: bool) -> bool {
    first_signal && m.annots_seen == 0 && m.scratch.len() == 0
}

/// One step of the decoder on byte `k` of the slice.
pub open spec fn tal_step(
    m: TalMachine,
    data: Seq<u8>,
    k: int,
    first_signal: bool,
    subsec: int,
) -> TalMachine {
    if m.done {
        m
    } else {
        let b = data[k];
        if b == 0 {
            if m.zeros == 0 {
                if k > 0 && data[k - 1] != 20 {
                    TalMachine { done: true, ..m }
                } else {
                    TalMachine {
                        state: TalState::WaitingForOnset,
                        scratch: Seq::empty(),
                        has_dur: false,
                        zeros: 1,
                        ..m
                    }
                }
            } else {
                TalMachine { zeros: m.zeros + 1, ..m }
            }
        } else if m.zeros > 1 {
            TalMachine { done: true, ..m }
        } else {
            let m0 = TalMachine { zeros: 0, ..m };
            match m.state {
                TalState::WaitingForOnset => {
                    if b == 43 {
                        TalMachine {
                            state: TalState::CollectingOnset,
                            scratch: Seq::empty(),
                            ..m0
                        }
                    } else if b == 20 || b == 21 {
                        TalMachine { done: true, ..m0 }
                    } else {
                        m0
                    }
                },
                TalState::CollectingOnset => {
                    if b == 20 {
                        if valid_time_text(m.scratch) {
                            TalMachine {
                                state: TalState::CollectingDescription,
                                time_text: m.scratch,
                                scratch: Seq::empty(),
                                ..m0
                            }
                        } else {
                            TalMachine { done: true, ..m0 }
                        }
                    } else if b == 21 {
                        if valid_time_text(m.scratch) {
                            TalMachine {
                                state: TalState::CollectingDuration,
                                time_text: m.scratch,
                                scratch: Seq::empty(),
                                ..m0
                            }
                        } else {
                            TalMachine { done: true, ..m0 }
                        }
                    } else {
                        TalMachine { scratch: m.scratch.push(b), ..m0 }
                    }
                },
                TalState::CollectingDuration => {
                    if b == 20 {
                        if valid_time_text(m.scratch) {
                            TalMachine {
                                state: TalState::CollectingDescription,
                                dur_text: m.scratch,
                                has_dur: true,
                                scratch: Seq::empty(),
                                ..m0
                            }
                        } else {
                            TalMachine { done: true, ..m0 }
                        }
                    } else if b == 21 {
                        TalMachine { done: true, ..m0 }
                    } else {
                        TalMachine { scratch: m.scratch.push(b), ..m0 }
                    }
                },
                TalState::CollectingDescription => {
                    if b == 20 {
                        let emitted = if is_timestamp_annot(m, first_signal) {
                            m.emitted
                        } else {
                            m.emitted.push(tal_emit(m, subsec))
                        };
                        TalMachine {
                            state: TalState::WaitingForOnset,
                            scratch: Seq::empty(),
                            time_text: Seq::empty(),
                            dur_text: Seq::empty(),
                            has_dur: false,
                            annots_seen: m.annots_seen + 1,
                            emitted,
                            ..m0
                        }
                    } else if b == 21 {
                        TalMachine { done: true, ..m0 }
                    } else {
                        TalMachine { scratch: m.scratch.push(b), ..m0 }
                    }
                },
            }
        }
    }
}

/// Runs the decoder from byte `k` to the end of the slice. The final byte is
/// never consumed: it is the NUL that the slice is required to end with.
pub open spec fn tal_run(
    data: Seq<u8>,
    k: int,
    m: TalMachine,
    first_signal: bool,
    subsec: int,
) -> TalMachine
    decreases data.len() - k when 0 <= k
{
    if m.done || k >= data.len() - 1 {
        m
    } else {
        tal_run(data, k + 1, tal_step(m, data, k, first_signal, subsec), first_signal, subsec)
    }
}

/// The annotations emitted for one annotation-signal slice: none when the
/// slice is empty or does not end with a NUL byte.
pub open spec fn tal_slice_annots(data: Seq<u8>, first_signal: bool, subsec: int) -> Seq<TalAnnot> {
    if data.len() == 0 || data[data.len() - 1] != 0 {
        Seq::empty()
    } else {
        tal_run(data, 0, tal_init(), first_signal, subsec).emitted
    }
}

/// Each step emits at most one annotation, so a slice emits at most one
/// annotation per byte.
pub proof fn lemma_tal_run_emitted_bound(
    data: Seq<u8>,
    k: int,
    m: TalMachine,
    first_signal: bool,
    subsec: int,
)
    requires
        0 <= k,
    ensures
        tal_run(data, k, m, first_signal, subsec).emitted.len() <= m.emitted.len() + (
        if data.len() - 1 - k >= 0 {
            data.len() - 1 - k
        } else {
            0
        }),
    decreases data.len() - k,
{
    if !(m.done || k >= data.len() - 1) {
        let m2 = tal_step(m, data, k, first_signal, subsec);
        assert(m2.emitted.len() <= m.emitted.len() + 1);
        lemma_tal_run_emitted_bound(data, k + 1, m2, first_signal, subsec);
    }
}

/// A slice emits at most one annotation per byte.
pub proof fn lemma_tal_emitted_len_bound(data: Seq<u8>, first_signal: bool, subsec: int)
    ensures
        tal_slice_annots(data, first_signal, subsec).len() <= data.len(),
{
    if !(data.len() == 0 || data[data.len() - 1] != 0) {
        lemma_tal_run_emitted_bound(data, 0, tal_init(), first_signal, subsec);
    }
}

/// What the decoder has emitted is never taken back: scanning further
/// bytes, malformed or not, only appends annotations. In particular a
/// malformed remainder of a slice is dropped while every annotation decoded
/// before it stays.
pub proof fn lemma_tal_emitted_monotone(
    data: Seq<u8>,
    k: int,
    m: TalMachine,
    first_signal: bool,
    subsec: int,
)
    requires
        0 <= k,
    ensures
        m.emitted.is_prefix_of(tal_run(data, k, m, first_signal, subsec).emitted),
    decreases data.len() - k,
{
    if m.done || k >= data.len() - 1 {
        assert(m.emitted.take(m.emitted.len() as int) =~= m.emitted);
    } else {
        let m2 = tal_step(m, data, k, first_signal, subsec);
        lemma_tal_emitted_monotone(data, k + 1, m2, first_signal, subsec);
        let fin = tal_run(data, k + 1, m2, first_signal, subsec).emitted;
        assert(m2.emitted == m.emitted || m2.emitted == m.emitted.push(
            tal_emit(m, subsec),
        ));
        assert(fin.take(m2.emitted.len() as int) == m2.emitted);
        assert(fin.take(m.emitted.len() as int) =~= fin.take(m2.emitted.len() as int).take(
            m.emitted.len() as int,
        ));
        if m2.emitted == m.emitted.push(tal_emit(m, subsec)) {
            assert(m2.emitted.take(m.emitted.len() as int) =~= m.emitted);
        } else {
            assert(m2.emitted.take(m.emitted.len() as int) =~= m.emitted);
        }
    }
}

/// A finished machine never changes again.
pub proof fn lemma_tal_run_done(
    data: Seq<u8>,
    k: int,
    m: TalMachine,
    first_signal: bool,
    subsec: int,
)
    requires
        0 <= k,
        m.done,
    ensures
        tal_run(data, k, m, first_signal, subsec) == m,
{
}

/// `s` without a leading empty-description annotation, when one is there.
pub open spec fn drop_leading_timestamp(s: Seq<TalAnnot>) -> Seq<TalAnnot> {
    if s.len() > 0 && s[0].desc.len() == 0 {
        s.drop_first()
    } else {
        s
    }
}

/// How the machines of the paired runs relate: everything equal except that
/// the run without the first-signal role may have emitted one leading
/// empty-description annotation more.
spec fn pair_rel(mt: TalMachine, mf: TalMachine) -> bool {
    &&& mt.state == mf.state
    &&& mt.scratch == mf.scratch
    &&& mt.time_text == mf.time_text
    &&& mt.dur_text == mf.dur_text
    &&& mt.has_dur == mf.has_dur
    &&& mt.zeros == mf.zeros
    &&& mt.annots_seen == mf.annots_seen
    &&& mt.done == mf.done
    &&& ((mt.annots_seen == 0 && mt.emitted == Seq::<TalAnnot>::empty() && mf.emitted == Seq::<
        TalAnnot,
    >::empty()) || (mt.annots_seen > 0 && mf.emitted.len() == mt.emitted.len() + 1
        && mf.emitted[0].desc.len() == 0 && mf.emitted.drop_first() == mt.emitted) || (
    mt.annots_seen > 0 && mf.emitted == mt.emitted && mt.emitted.len() > 0
        && mt.emitted[0].desc.len() > 0))
}

proof fn lemma_tal_pair_step(mt: TalMachine, mf: TalMachine, data: Seq<u8>, k: int, subsec: int)
    requires
        pair_rel(mt, mf),
        0 <= k < data.len(),
    ensures
        pair_rel(tal_step(mt, data, k, true, subsec), tal_step(mf, data, k, false, subsec)),
{
    let nt = tal_step(mt, data, k, true, subsec);
    let nf = tal_step(mf, data, k, false, subsec);
    if !mt.done && data[k] != 0 && !(mt.zeros > 1) && mt.state == TalState::CollectingDescription
        && data[k] == 20 {
        let x = tal_emit(mt, subsec);
        assert(tal_emit(mf, subsec) == x);
        if is_timestamp_annot(mt, true) {
            assert(mt.annots_seen == 0 && mt.scratch.len() == 0);
            assert(mt.emitted == Seq::<TalAnnot>::empty());
            assert(nf.emitted == mf.emitted.push(x));
            assert(nf.emitted.len() == 1);
            assert(nf.emitted[0] == x);
            assert(x.desc.len() == 0);
            assert(nf.emitted.drop_first() =~= nt.emitted);
        } else {
            assert(nt.emitted == mt.emitted.push(x));
            assert(nf.emitted == mf.emitted.push(x));
            if mt.annots_seen == 0 {
                assert(x.desc == mt.scratch);
                assert(x.desc.len() > 0);
                assert(nt.emitted[0] == x);
            } else if mf.emitted.len() == mt.emitted.len() + 1 && mf.emitted[0].desc.len() == 0
                && mf.emitted.drop_first() == mt.emitted {
                assert(nf.emitted[0] == mf.emitted[0]);
                assert(nf.emitted.drop_first() =~= mf.emitted.drop_first().push(x));
                assert(nf.emitted.drop_first() == nt.emitted);
            } else {
                assert(nt.emitted[0] == mt.emitted[0]);
            }
        }
    }
}

proof fn lemma_tal_pair_run(data: Seq<u8>, k: int, mt: TalMachine, mf: TalMachine, subsec: int)
    requires
        pair_rel(mt, mf),
        0 <= k,
    ensures
        pair_rel(
            tal_run(data, k, mt, true, subsec),
            tal_run(data, k, mf, false, subsec),
        ),
    decreases data.len() - k,
{
    if !(mt.done || k >= data.len() - 1) {
        lemma_tal_pair_step(mt, mf, data, k, subsec);
        lemma_tal_pair_run(
            data,
            k + 1,
            tal_step(mt, data, k, true, subsec),
            tal_step(mf, data, k, false, subsec),
            subsec,
        );
    }
}

/// The record-start timestamp annotation is never emitted: on the first
/// annotation signal, the decoder yields exactly what a decoder without the
/// first-signal role yields, less one leading annotation with an empty
/// description when there is one. Every other annotation, empty description
/// or not, is kept.
pub proof fn lemma_timestamp_annotation_dropped(data: Seq<u8>, subsec: int)
    ensures
        tal_slice_annots(data, true, subsec) == drop_leading_timestamp(
            tal_slice_annots(data, false, subsec),
        ),
{
    if data.len() == 0 || data[data.len() - 1] != 0 {
    } else {
        lemma_tal_pair_run(data, 0, tal_init(), tal_init(), subsec);
    }
}

/// How one built annotation matches its spec-level counterpart.
pub open spec fn annot_matches(x: Annotation, y: TalAnnot) -> bool {
    &&& x.onset == y.onset
    &&& x.duration == y.duration
    &&& x.description@ == lossy_of(y.desc)
}

/// How a vector of built annotations matches the spec-level list.
pub open spec fn annots_match(v: Seq<Annotation>, a: Seq<TalAnnot>) -> bool {
    &&& v.len() == a.len()
    &&& forall|i: int| 0 <= i < v.len() ==> annot_matches(#[trigger] v[i], a[i])
}

/// Saturating subtraction on `i64`.
pub fn saturating_sub_i64(a: i64, b: i64) -> (r: i64)
    ensures
        r == sat_i64(a - b),
{
    let d: i128 = a as i128 - b as i128;
    if d > i64::MAX as i128 {
        i64::MAX
    } else if d < i64::MIN as i128 {
        i64::MIN
    } else {
        d as i64
    }
}

/// Decodes one annotation-signal slice `s[from..to]`, appending each emitted
/// annotation; earlier annotations of a malformed slice are kept, the
/// remainder is dropped.
#[verifier::rlimit(100)]
pub fn parse_tal_slice(
    s: &[u8],
    from: usize,
    to: usize,
    first_signal: bool,
    subsec: i64,
) -> (out: Vec<Annotation>)
    requires
        from <= to <= s@.len(),
    ensures
        annots_match(out@, tal_slice_annots(s@.subrange(from as int, to as int), first_signal, subsec as int)),
{
    let ghost data = s@.subrange(from as int, to as int);
    let ghost gsub = subsec as int;
    let len = to - from;
    let mut out: Vec<Annotation> = Vec::new();
    if len == 0 {
        return out;
    }
    if s[to - 1] != 0 {
        proof {
            assert(data[len - 1] == s@[to - 1]);
        }
        return out;
    }
    proof {
        assert(data[len - 1] == s@[to - 1]);
    }
    let ghost target = tal_run(data, 0, tal_init(), first_signal, gsub);
    let mut state = TalState::WaitingForOnset;
    let mut scratch: Vec<u8> = Vec::new();
    let mut time_text: Vec<u8> = Vec::new();
    let mut dur_text: Vec<u8> = Vec::new();
    let mut has_dur = false;
    let mut zeros: usize = 0;
    let mut annots_seen: usize = 0;
    let ghost mut m = tal_init();
    let mut k: usize = 0;
    proof {
        assert(scratch@ =~= m.scratch);
        assert(time_text@ =~= m.time_text);
        assert(dur_text@ =~= m.dur_text);
        assert(out@ =~= Seq::<Annotation>::empty());
    }
    while k < len - 1
        invariant_except_break
            !m.done,
            m.state == state,
            m.scratch == scratch@,
            m.time_text == time_text@,
            m.dur_text == dur_text@,
            m.has_dur == has_dur,
            m.zeros == zeros as int,
            m.annots_seen == annots_seen as int,
            zeros <= k,
            annots_seen <= k,
            (state == TalState::CollectingDuration || state == TalState::CollectingDescription)
                ==> valid_time_text(time_text@),
            has_dur ==> valid_time_text(dur_text@),
        invariant
            0 <= k <= len == data.len(),
            1 <= len,
            from <= to <= s@.len(),
            len == to - from,
            data == s@.subrange(from as int, to as int),
            gsub == subsec as int,
            annots_match(out@, m.emitted),
            tal_run(data, k as int, m, first_signal, gsub) == target,
        ensures
            annots_match(out@, m.emitted),
            tal_run(data, k as int, m, first_signal, gsub) == target,
            m.done || k + 1 >= len,
        decreases len - k,
    {
        let b = s[from + k];
        proof {
            assert(data[k as int] == s@[(from + k) as int]);
            assert(k > 0 ==> data[k as int - 1] == s@[(from + k) as int - 1]);
        }
        let ghost m_next = tal_step(m, data, k as int, first_signal, gsub);
        proof {
            assert(tal_run(data, k as int, m, first_signal, gsub) == tal_run(
                data,
                k + 1,
                m_next,
                first_signal,
                gsub,
            ));
        }
        if b == 0 {
            if zeros == 0 {
                if k > 0 && s[from + k - 1] != 20 {
                    proof {
                        m = m_next;
                        lemma_tal_run_done(data, k + 1, m, first_signal, gsub);
                    }
                    break;
                }
                state = TalState::WaitingForOnset;
                scratch = Vec::new();
                has_dur = false;
                zeros = 1;
            } else {
                zeros = zeros + 1;
            }
            proof {
                m = m_next;
                assert(m.scratch =~= scratch@);
            }
            k = k + 1;
            continue;
        }
        if zeros > 1 {
            proof {
                m = m_next;
                lemma_tal_run_done(data, k + 1, m, first_signal, gsub);
            }
            break;
        }
        zeros = 0;
        match state {
            TalState::WaitingForOnset => {
                if b == 43 {
                    state = TalState::CollectingOnset;
                    scratch = Vec::new();
                    proof {
                        m = m_next;
                        assert(m.scratch =~= scratch@);
                    }
                } else if b == 20 || b == 21 {
                    proof {
                        m = m_next;
                        lemma_tal_run_done(data, k + 1, m, first_signal, gsub);
                    }
                    break;
                } else {
                    proof {
                        m = m_next;
                    }
                }
            },
            TalState::CollectingOnset => {
                if b == 20 || b == 21 {
                    let ok = check_time_text(scratch.as_slice(), 0, scratch.len());
                    proof {
                        assert(scratch@.subrange(0, scratch@.len() as int) =~= scratch@);
                    }
                    if !ok {
                        proof {
                            m = m_next;
                            lemma_tal_run_done(data, k + 1, m, first_signal, gsub);
                        }
                        break;
                    }
                    state = if b == 20 {
                        TalState::CollectingDescription
                    } else {
                        TalState::CollectingDuration
                    };
                    time_text = scratch;
                    scratch = Vec::new();
                    proof {
                        m = m_next;
                        assert(m.scratch =~= scratch@);
                    }
                } else {
                    scratch.push(b);
                    proof {
                        m = m_next;
                    }
                }
            },
            TalState::CollectingDuration => {
                if b == 20 {
                    let ok = check_time_text(scratch.as_slice(), 0, scratch.len());
                    proof {
                        assert(scratch@.subrange(0, scratch@.len() as int) =~= scratch@);
                    }
                    if !ok {
                        proof {
                            m = m_next;
                            lemma_tal_run_done(data, k + 1, m, first_signal, gsub);
                        }
                        break;
                    }
                    state = TalState::CollectingDescription;
                    dur_text = scratch;
                    has_dur = true;
                    scratch = Vec::new();
                    proof {
                        m = m_next;
                        assert(m.scratch =~= scratch@);
                    }
                } else if b == 21 {
                    proof {
                        m = m_next;
                        lemma_tal_run_done(data, k + 1, m, first_signal, gsub);
                    }
                    break;
                } else {
                    scratch.push(b);
                    proof {
                        m = m_next;
                    }
                }
            },
            TalState::CollectingDescription => {
                if b == 20 {
                    let is_ts = first_signal && annots_seen == 0 && scratch.len() == 0;
                    if !is_ts {
                        let onset0 = time_text_ticks(time_text.as_slice(), 0, time_text.len());
                        proof {
                            assert(time_text@.subrange(0, time_text@.len() as int) =~= time_text@);
                        }
                        let onset = saturating_sub_i64(onset0, subsec);
                        let duration: i64 = if has_dur {
                            let d = time_text_ticks(dur_text.as_slice(), 0, dur_text.len());
                            proof {
                                assert(dur_text@.subrange(0, dur_text@.len() as int)
                                    =~= dur_text@);
                            }
                            d
                        } else {
                            -1
                        };
                        let description = bytes_to_string(scratch.as_slice());
                        out.push(Annotation { onset, duration, description });
                    }
                    annots_seen = annots_seen + 1;
                    state = TalState::WaitingForOnset;
                    scratch = Vec::new();
                    time_text = Vec::new();
                    dur_text = Vec::new();
                    has_dur = false;
                    proof {
                        m = m_next;
                        assert(m.scratch =~= scratch@);
                        assert(m.time_text =~= time_text@);
                        assert(m.dur_text =~= dur_text@);
                    }
                } else if b == 21 {
                    proof {
                        m = m_next;
                        lemma_tal_run_done(data, k + 1, m, first_signal, gsub);
                    }
                    break;
                } else {
                    scratch.push(b);
                    proof {
                        m = m_next;
                    }
                }
            },
        }
        k = k + 1;
    }
    proof {
        assert(tal_run(data, k as int, m, first_signal, gsub) == m);
        assert(target.emitted == m.emitted);
    }
    out
}

/// Where the first TAL's onset field ends: the index of the first `\x14`,
/// scanning up to (and not including) the slice's final byte; `None` when a
/// NUL or the scan bound comes first.
pub open spec fn first_field_end(data: Seq<u8>, k: int) -> Option<int>
    decreases data.len() - k when 0 <= k
{
    if k >= data.len() - 1 {
        None
    } else if data[k] == 0 {
        None
    } else if data[k] == 20 {
        Some(k)
    } else {
        first_field_end(data, k + 1)
    }
}

/// The record-start timestamp of a slice: the first field parsed as a signed
/// decimal, in ticks; `None` when there is no field or it does not parse.
pub open spec fn record_timestamp(data: Seq<u8>) -> Option<int> {
    match first_field_end(data, 0) {
        Option::None => Option::None,
        Option::Some(j) => timestamp_ticks_spec(data.take(j)),
    }
}

/// The sub-second part of a slice's timestamp, truncated toward zero; 0 when
/// there is no timestamp.
pub open spec fn subsecond_of(data: Seq<u8>) -> int {
    match record_timestamp(data) {
        Option::None => 0,
        Option::Some(t) => if t >= 0 {
            t % ticks_per_second()
        } else {
            -((-t) % ticks_per_second())
        },
    }
}

/// Extracts the record-start timestamp of slice `s[from..to]`.
pub fn extract_timestamp(s: &[u8], from: usize, to: usize) -> (r: Option<i64>)
    requires
        from <= to <= s@.len(),
    ensures
        r is Some <==> record_timestamp(s@.subrange(from as int, to as int)) is Some,
        r is Some ==> r.unwrap() == record_timestamp(s@.subrange(from as int, to as int)).unwrap(),
{
    let ghost data = s@.subrange(from as int, to as int);
    let len = to - from;
    if len == 0 {
        return None;
    }
    let mut k: usize = 0;
    while k < len - 1
        invariant
            0 <= k <= len,
            1 <= len,
            len == to - from,
            from <= to <= s@.len(),
            data == s@.subrange(from as int, to as int),
            first_field_end(data, 0) == first_field_end(data, k as int),
        decreases len - k,
    {
        let b = s[from + k];
        proof {
            assert(data[k as int] == s@[(from + k) as int]);
        }
        if b == 0 {
            return None;
        }
        if b == 20 {
            let r = timestamp_ticks(s, from, from + k);
            proof {
                assert(data.take(k as int) =~= s@.subrange(from as int, (from + k) as int));
            }
            return r;
        }
        k = k + 1;
    }
    None
}

/// Extracts the sub-second offset from a record-0 slice.
pub fn extract_subsecond(s: &[u8], from: usize, to: usize) -> (r: i64)
    requires
        from <= to <= s@.len(),
    ensures
        r == subsecond_of(s@.subrange(from as int, to as int)),
        -9999999 <= r <= 9999999,
{
    let t = extract_timestamp(s, from, to);
    match t {
        Option::None => 0,
        Option::Some(t) => {
            if t >= 0 {
                t % crate::EDFLIB_TIME_DIMENSION
            } else {
                let m = ((-(t as i128)) % (crate::EDFLIB_TIME_DIMENSION as i128)) as i64;
                -m
            }
        },
    }
}

} // verus!
