//! End-to-end tests of the reader over in-memory EDF+C byte images.

use edfplus::{EdfError, EdfReader};

/// A signal descriptor for the test builder.
struct Sig {
    label: &'static str,
    physical_min: &'static str,
    physical_max: &'static str,
    digital_min: &'static str,
    digital_max: &'static str,
    samples_per_record: usize,
}

fn eeg_signal() -> Sig {
    Sig {
        label: "EEG Fpz-Cz",
        physical_min: "-100",
        physical_max: "100",
        digital_min: "-32768",
        digital_max: "32767",
        samples_per_record: 256,
    }
}

fn annotation_signal(samples_per_record: usize) -> Sig {
    Sig {
        label: "EDF Annotations ",
        physical_min: "-1",
        physical_max: "1",
        digital_min: "-32768",
        digital_max: "32767",
        samples_per_record,
    }
}

fn field(s: &str, w: usize) -> Vec<u8> {
    let mut v = s.as_bytes().to_vec();
    assert!(v.len() <= w, "field too long");
    while v.len() < w {
        v.push(b' ');
    }
    v
}

/// Builds the 256-byte main header plus the descriptor block.
fn build_header(signals: &[Sig], datarecords: &str, duration: &str) -> Vec<u8> {
    let n = signals.len();
    let mut h = Vec::new();
    h.extend(field("0", 8)); // version
    h.extend(field("P001 M 01-JAN-1990 Test_Patient", 80)); // patient
    h.extend(field("Startdate ADM001 TECH EQUIP room 4", 80)); // recording
    h.extend(field("10.10.23", 8)); // start date
    h.extend(field("14.30.00", 8)); // start time
    h.extend(field(&format!("{}", (n + 1) * 256), 8)); // header size
    h.extend(field("EDF+C", 44)); // reserved
    h.extend(field(datarecords, 8));
    h.extend(field(duration, 8));
    h.extend(field(&format!("{}", n), 4));
    assert_eq!(h.len(), 256);
    // descriptor block, column-major
    for s in signals {
        h.extend(field(s.label, 16));
    }
    for _ in signals {
        h.extend(field("AgAgCl electrode", 80));
    }
    for _ in signals {
        h.extend(field("uV", 8));
    }
    for s in signals {
        h.extend(field(s.physical_min, 8));
    }
    for s in signals {
        h.extend(field(s.physical_max, 8));
    }
    for s in signals {
        h.extend(field(s.digital_min, 8));
    }
    for s in signals {
        h.extend(field(s.digital_max, 8));
    }
    for _ in signals {
        h.extend(field("HP:0.1Hz", 80));
    }
    for s in signals {
        h.extend(field(&format!("{}", s.samples_per_record), 8));
    }
    for _ in signals {
        h.extend(field("", 32));
    }
    assert_eq!(h.len(), 256 + n * 256);
    h
}

/// A two-signal file: ten records, one second each, 256 samples per record,
/// sample value = low 15 bits of the global sample index.
fn simple_file() -> Vec<u8> {
    let signals = [eeg_signal(), eeg_signal()];
    let mut data = build_header(&signals, "10", "1");
    for record in 0..10usize {
        for _signal in 0..2usize {
            for i in 0..256usize {
                let v = ((record * 256 + i) % 20000) as i16;
                data.extend(v.to_le_bytes());
            }
        }
    }
    data
}

/// A file with one measurement signal and one annotation signal; the TAL
/// payload of each record is given by `tals`.
fn annotated_file(tals: &[Vec<u8>], duration: &str) -> Vec<u8> {
    let ann_spr = 32; // 64 bytes of TAL payload per record
    let signals = [eeg_signal(), annotation_signal(ann_spr)];
    let records = tals.len();
    let mut data = build_header(&signals, &format!("{}", records), duration);
    for tal in tals {
        for i in 0..256usize {
            data.extend((i as i16).to_le_bytes());
        }
        let mut payload = tal.clone();
        assert!(payload.len() <= ann_spr * 2);
        while payload.len() < ann_spr * 2 {
            payload.push(0);
        }
        data.extend(payload);
    }
    data
}

fn tal_bytes(parts: &[&str]) -> Vec<u8> {
    let mut v = Vec::new();
    for p in parts {
        v.extend(p.as_bytes());
    }
    v
}

#[test]
fn open_simple_file() {
    let reader = EdfReader::open(simple_file()).unwrap();
    let header = reader.header();
    assert_eq!(header.signals.len(), 2);
    assert_eq!(header.datarecords_in_file, 10);
    assert_eq!(header.datarecord_duration, 10_000_000);
    assert_eq!(header.file_duration, 100_000_000);
    assert_eq!(header.signals[0].samples_in_file, 2560);
    assert_eq!(header.signals[1].samples_in_file, 2560);
    assert_eq!(header.annotations_in_file, 0);
    assert_eq!(reader.annotations().len(), 0);
    assert_eq!(header.signals[0].label, "EEG Fpz-Cz");
    assert_eq!(header.signals[0].physical_dimension, "uV");
    assert_eq!(header.signals[0].transducer, "AgAgCl electrode");
    assert_eq!(header.signals[0].prefilter, "HP:0.1Hz");
    assert_eq!(header.signals[0].digital_min, -32768);
    assert_eq!(header.signals[0].digital_max, 32767);
    assert_eq!(header.start_date.year, 2023);
    assert_eq!(header.start_date.month, 10);
    assert_eq!(header.start_date.day, 10);
    assert_eq!(header.start_time.hour, 14);
    assert_eq!(header.start_time.minute, 30);
    assert_eq!(header.start_time.second, 0);
    assert_eq!(header.patient_code, "P001");
    assert_eq!(header.sex, "M");
    assert_eq!(header.birthdate, "01-JAN-1990");
    assert_eq!(header.patient_name, "Test_Patient");
    assert_eq!(header.admin_code, "ADM001");
    assert_eq!(header.technician, "TECH");
    assert_eq!(header.equipment, "EQUIP");
    assert_eq!(header.recording_additional, "room 4");
    assert_eq!(header.patient_additional, "");
}

#[test]
fn header_size_field_must_match() {
    // the header-size field must equal (signals + 1) * 256
    let mut data = simple_file();
    let bad = field("512", 8);
    data[184..192].copy_from_slice(&bad);
    assert!(matches!(EdfReader::open(data), Err(EdfError::InvalidHeader)));
}

#[test]
fn read_across_record_boundary() {
    // one read of 300 samples crosses the record boundary at 256
    let mut reader = EdfReader::open(simple_file()).unwrap();
    let samples = reader.read_digital_samples(0, 300).unwrap();
    assert_eq!(samples.len(), 300);
    assert_eq!(reader.tell(0).unwrap(), 300);
    for (i, v) in samples.iter().enumerate() {
        assert_eq!(*v, (i % 20000) as i32);
    }
    // the same, split in two reads
    let mut reader2 = EdfReader::open(simple_file()).unwrap();
    let first = reader2.read_digital_samples(0, 256).unwrap();
    let second = reader2.read_digital_samples(0, 44).unwrap();
    assert_eq!(first.len(), 256);
    assert_eq!(second.len(), 44);
    let mut joined = first.clone();
    joined.extend(second.iter());
    assert_eq!(samples, joined);
}

#[test]
fn rewind_read_split_matches_single_read() {
    let mut reader = EdfReader::open(simple_file()).unwrap();
    reader.rewind(0).unwrap();
    let a = reader.read_digital_samples(0, 100).unwrap();
    let b = reader.read_digital_samples(0, 150).unwrap();
    reader.rewind(0).unwrap();
    let whole = reader.read_digital_samples(0, 250).unwrap();
    assert_eq!(whole[..100], a[..]);
    assert_eq!(whole[100..], b[..]);
}

#[test]
fn cursor_independence() {
    // operations on one signal leave the other signal's cursor alone
    let mut reader = EdfReader::open(simple_file()).unwrap();
    assert_eq!(reader.tell(1).unwrap(), 0);
    reader.read_digital_samples(0, 100).unwrap();
    assert_eq!(reader.tell(0).unwrap(), 100);
    assert_eq!(reader.tell(1).unwrap(), 0);
    reader.seek(0, 1000).unwrap();
    assert_eq!(reader.tell(1).unwrap(), 0);
    reader.read_digital_samples(1, 7).unwrap();
    assert_eq!(reader.tell(0).unwrap(), 1000);
    assert_eq!(reader.tell(1).unwrap(), 7);
}

#[test]
fn seek_clamps_and_tell_agrees() {
    let mut reader = EdfReader::open(simple_file()).unwrap();
    assert_eq!(reader.seek(0, -100).unwrap(), 0);
    assert_eq!(reader.tell(0).unwrap(), 0);
    assert_eq!(reader.seek(0, 2560 + 1000).unwrap(), 2560);
    assert_eq!(reader.tell(0).unwrap(), 2560);
    assert_eq!(reader.seek(0, 42).unwrap(), 42);
    assert_eq!(reader.tell(0).unwrap(), 42);
    reader.rewind(0).unwrap();
    assert_eq!(reader.tell(0).unwrap(), 0);
}

#[test]
fn read_zero_returns_empty() {
    let mut reader = EdfReader::open(simple_file()).unwrap();
    reader.seek(0, 5).unwrap();
    let samples = reader.read_digital_samples(0, 0).unwrap();
    assert!(samples.is_empty());
    assert_eq!(reader.tell(0).unwrap(), 5);
}

#[test]
fn read_past_end_returns_suffix() {
    let mut reader = EdfReader::open(simple_file()).unwrap();
    reader.seek(0, 2550).unwrap();
    let samples = reader.read_digital_samples(0, 100).unwrap();
    assert_eq!(samples.len(), 10);
    assert_eq!(reader.tell(0).unwrap(), 2560);
    let more = reader.read_digital_samples(0, 100).unwrap();
    assert!(more.is_empty());
    assert_eq!(reader.tell(0).unwrap(), 2560);
}

#[test]
fn tell_tracks_reads() {
    let mut reader = EdfReader::open(simple_file()).unwrap();
    assert_eq!(reader.tell(0).unwrap(), 0);
    let a = reader.read_digital_samples(0, 10).unwrap();
    assert_eq!(a.len(), 10);
    assert_eq!(reader.tell(0).unwrap(), 10);
    reader.seek(0, 100).unwrap();
    let b = reader.read_digital_samples(0, 5).unwrap();
    assert_eq!(b.len(), 5);
    assert_eq!(reader.tell(0).unwrap(), 105);
}

#[test]
fn invalid_signal_index() {
    let mut reader = EdfReader::open(simple_file()).unwrap();
    assert!(matches!(reader.tell(2), Err(EdfError::InvalidSignalIndex)));
    assert!(matches!(reader.seek(2, 0), Err(EdfError::InvalidSignalIndex)));
    assert!(matches!(reader.rewind(2), Err(EdfError::InvalidSignalIndex)));
    assert!(matches!(
        reader.read_digital_samples(2, 1),
        Err(EdfError::InvalidSignalIndex)
    ));
}

#[test]
fn digital_values_are_clamped() {
    // raw bytes 0x00 0x80 decode to -32768; with digital_min -32000 the
    // returned value is -32000
    let mut sig = eeg_signal();
    sig.digital_min = "-32000";
    sig.digital_max = "32000";
    sig.samples_per_record = 4;
    let signals = [sig];
    let mut data = build_header(&signals, "1", "1");
    data.extend([0x00u8, 0x80]); // -32768 -> clamped to -32000
    data.extend([0xFFu8, 0x7F]); // 32767 -> clamped to 32000
    data.extend([0x10u8, 0x00]); // 16
    data.extend([0xF0u8, 0xFF]); // -16
    let mut reader = EdfReader::open(data).unwrap();
    let samples = reader.read_digital_samples(0, 4).unwrap();
    assert_eq!(samples, vec![-32000, 32000, 16, -16]);
}

#[test]
fn truncated_file_fails_read() {
    // the header promises ten records but the data holds only a part
    let signals = [eeg_signal()];
    let mut data = build_header(&signals, "10", "1");
    for i in 0..256usize {
        data.extend((i as i16).to_le_bytes());
    }
    let mut reader = EdfReader::open(data).unwrap();
    // the first record is there
    let ok = reader.read_digital_samples(0, 256).unwrap();
    assert_eq!(ok.len(), 256);
    assert_eq!(reader.tell(0).unwrap(), 256);
    // the second is not; the cursor must not move
    assert!(matches!(
        reader.read_digital_samples(0, 1),
        Err(EdfError::FileReadError)
    ));
    assert_eq!(reader.tell(0).unwrap(), 256);
}

#[test]
fn version_must_start_with_zero() {
    let mut data = simple_file();
    data[0..8].copy_from_slice(&field("9", 8));
    assert!(matches!(
        EdfReader::open(data),
        Err(EdfError::UnsupportedFileType)
    ));
}

#[test]
fn reserved_must_be_edfplus_c() {
    let mut data = simple_file();
    data[192..236].copy_from_slice(&field("EDF+D", 44));
    assert!(matches!(
        EdfReader::open(data),
        Err(EdfError::UnsupportedFileType)
    ));
}

#[test]
fn signal_count_must_be_positive() {
    let mut data = simple_file();
    data[252..256].copy_from_slice(&field("0", 4));
    assert!(matches!(
        EdfReader::open(data),
        Err(EdfError::InvalidSignalCount)
    ));
}

#[test]
fn malformed_date_is_rejected() {
    let mut data = simple_file();
    data[168..176].copy_from_slice(&field("311023", 8));
    assert!(matches!(EdfReader::open(data), Err(EdfError::FormatError)));
}

#[test]
fn impossible_calendar_date_is_rejected() {
    // the 31st of February does not exist
    let mut data = simple_file();
    data[168..176].copy_from_slice(&field("31.02.23", 8));
    assert!(matches!(EdfReader::open(data), Err(EdfError::FormatError)));
}

#[test]
fn impossible_time_is_rejected() {
    let mut data = simple_file();
    data[176..184].copy_from_slice(&field("25.00.00", 8));
    assert!(matches!(EdfReader::open(data), Err(EdfError::FormatError)));
}

#[test]
fn century_rule_maps_years() {
    // two-digit year 85 falls in the 1900s
    let mut data = simple_file();
    data[168..176].copy_from_slice(&field("01.01.85", 8));
    let reader = EdfReader::open(data).unwrap();
    assert_eq!(reader.header().start_date.year, 1985);
}

#[test]
fn equal_physical_bounds_are_rejected() {
    let mut sig = eeg_signal();
    sig.physical_min = "5.0";
    sig.physical_max = "5";
    let signals = [sig];
    let data = build_header(&signals, "0", "1");
    assert!(matches!(
        EdfReader::open(data),
        Err(EdfError::PhysicalMinEqualsMax)
    ));
}

#[test]
fn equal_digital_bounds_are_rejected() {
    let mut sig = eeg_signal();
    sig.digital_min = "100";
    sig.digital_max = "100";
    let signals = [sig];
    let data = build_header(&signals, "0", "1");
    assert!(matches!(
        EdfReader::open(data),
        Err(EdfError::DigitalMinEqualsMax)
    ));
}

#[test]
fn short_file_fails_open() {
    let data = vec![0u8; 100];
    assert!(matches!(EdfReader::open(data), Err(EdfError::FileReadError)));
}

#[test]
fn fractional_record_duration() {
    let signals = [eeg_signal()];
    let mut data = build_header(&signals, "4", "0.5");
    for _ in 0..4usize {
        for i in 0..256usize {
            data.extend((i as i16).to_le_bytes());
        }
    }
    let reader = EdfReader::open(data).unwrap();
    assert_eq!(reader.header().datarecord_duration, 5_000_000);
    assert_eq!(reader.header().file_duration, 20_000_000);
}

#[test]
fn annotation_emitted_timestamp_dropped() {
    // a record-start timestamp +0.0 and one user annotation at +1.0 with
    // description Stimulus: one annotation comes out, the timestamp does not
    let tals = vec![tal_bytes(&["+0\x14\x14", "+1.0\x14Stimulus\x14"])];
    let data = annotated_file(&tals, "1");
    let reader = EdfReader::open(data).unwrap();
    let annotations = reader.annotations();
    assert_eq!(annotations.len(), 1);
    assert_eq!(annotations[0].onset, 10_000_000);
    assert_eq!(annotations[0].duration, -1);
    assert_eq!(annotations[0].description, "Stimulus");
    assert_eq!(reader.header().annotations_in_file, 1);
    assert_eq!(reader.header().starttime_subsecond, 0);
}

#[test]
fn annotation_with_duration() {
    let tals = vec![tal_bytes(&["+0\x14\x14", "+2.5\x150.75\x14Spike\x14"])];
    let data = annotated_file(&tals, "1");
    let reader = EdfReader::open(data).unwrap();
    let annotations = reader.annotations();
    assert_eq!(annotations.len(), 1);
    assert_eq!(annotations[0].onset, 25_000_000);
    assert_eq!(annotations[0].duration, 7_500_000);
    assert_eq!(annotations[0].description, "Spike");
}

#[test]
fn subsecond_start_offset_adjusts_onsets() {
    // record 0 timestamp +0.125: the sub-second offset is an eighth of a
    // second and later onsets are shifted by it
    let tals = vec![tal_bytes(&["+0.125\x14\x14", "+1.125\x14Blink\x14"])];
    let data = annotated_file(&tals, "1");
    let reader = EdfReader::open(data).unwrap();
    assert_eq!(reader.header().starttime_subsecond, 1_250_000);
    let annotations = reader.annotations();
    assert_eq!(annotations.len(), 1);
    assert_eq!(annotations[0].onset, 10_000_000);
}

#[test]
fn annotations_sorted_by_onset() {
    // annotations of later records with earlier onsets still come out sorted
    let tals = vec![
        tal_bytes(&["+0\x14\x14", "+9.5\x14Late\x14"]),
        tal_bytes(&["+1\x14\x14", "+1.25\x14Early\x14", "+3\x14Middle\x14"]),
    ];
    let data = annotated_file(&tals, "1");
    let reader = EdfReader::open(data).unwrap();
    let annotations = reader.annotations();
    assert_eq!(annotations.len(), 3);
    for i in 1..annotations.len() {
        assert!(annotations[i - 1].onset <= annotations[i].onset);
    }
    assert_eq!(annotations[0].description, "Early");
    assert_eq!(annotations[1].description, "Middle");
    assert_eq!(annotations[2].description, "Late");
}

#[test]
fn empty_description_user_annotation_is_kept() {
    // only the first annotation of the first annotation signal may be a
    // timestamp; a later one with an empty description is still emitted
    let tals = vec![tal_bytes(&["+0\x14\x14", "+2\x14\x14"])];
    let data = annotated_file(&tals, "1");
    let reader = EdfReader::open(data).unwrap();
    let annotations = reader.annotations();
    assert_eq!(annotations.len(), 1);
    assert_eq!(annotations[0].onset, 20_000_000);
    assert_eq!(annotations[0].description, "");
}

#[test]
fn discontinuous_records_are_rejected() {
    // with one-second records, a record 2 timestamp of +5.0 after +1.0
    // breaks continuity
    let tals = vec![
        tal_bytes(&["+0\x14\x14"]),
        tal_bytes(&["+1\x14\x14"]),
        tal_bytes(&["+5\x14\x14"]),
    ];
    let data = annotated_file(&tals, "1");
    assert!(matches!(EdfReader::open(data), Err(EdfError::InvalidHeader)));
}

#[test]
fn contiguous_records_are_accepted() {
    let tals = vec![
        tal_bytes(&["+0\x14\x14"]),
        tal_bytes(&["+1\x14\x14"]),
        tal_bytes(&["+2\x14\x14"]),
    ];
    let data = annotated_file(&tals, "1");
    assert!(EdfReader::open(data).is_ok());
}

#[test]
fn malformed_tal_keeps_earlier_annotations() {
    // a valid annotation, then a malformed onset: the remainder of the
    // slice is dropped, the earlier annotation stays
    let tals = vec![tal_bytes(&["+0\x14\x14", "+1\x14Kept\x14", "+2..3\x14Gone\x14"])];
    let data = annotated_file(&tals, "1");
    let reader = EdfReader::open(data).unwrap();
    let annotations = reader.annotations();
    assert_eq!(annotations.len(), 1);
    assert_eq!(annotations[0].description, "Kept");
}

#[test]
fn slice_without_final_nul_is_ignored() {
    // the annotation slice must end with a NUL byte; one that does not is
    // ignored wholesale
    let mut payload = tal_bytes(&["+0\x14\x14", "+1\x14A\x14"]);
    while payload.len() < 63 {
        payload.push(0);
    }
    payload.push(b'x');
    let tals = vec![payload];
    let data = annotated_file(&tals, "1");
    let reader = EdfReader::open(data).unwrap();
    assert_eq!(reader.annotations().len(), 0);
}

#[test]
fn annotation_count_matches_list() {
    let tals = vec![
        tal_bytes(&["+0\x14\x14", "+0.5\x14A\x14"]),
        tal_bytes(&["+1\x14\x14", "+1.5\x14B\x14", "+1.75\x14C\x14"]),
    ];
    let data = annotated_file(&tals, "1");
    let reader = EdfReader::open(data).unwrap();
    assert_eq!(reader.header().annotations_in_file, 3);
    assert_eq!(reader.annotations().len(), 3);
}

#[test]
fn negative_onset_text_is_dropped() {
    // the onset validator accepts digits and one dot only; a minus sign
    // aborts the TAL
    let tals = vec![tal_bytes(&["+0\x14\x14", "+-1\x14Bad\x14"])];
    let data = annotated_file(&tals, "1");
    let reader = EdfReader::open(data).unwrap();
    assert_eq!(reader.annotations().len(), 0);
}

#[test]
fn equal_onsets_keep_record_order() {
    // the sort is stable: annotations with equal onsets stay in decoding
    // order
    let tals = vec![tal_bytes(&[
        "+0\x14\x14",
        "+3\x14First\x14",
        "+3\x14Second\x14",
        "+3\x14Third\x14",
    ])];
    let data = annotated_file(&tals, "1");
    let reader = EdfReader::open(data).unwrap();
    let annotations = reader.annotations();
    assert_eq!(annotations.len(), 3);
    assert_eq!(annotations[0].description, "First");
    assert_eq!(annotations[1].description, "Second");
    assert_eq!(annotations[2].description, "Third");
}

#[test]
fn annotation_count_is_capped_at_hundred_records() {
    // the first pass scans at most a hundred records for the count; the
    // full list still covers every record
    let mut tals = Vec::new();
    for r in 0..102usize {
        tals.push(tal_bytes(&[&format!("+{}\x14\x14+{}.5\x14E\x14", r, r)]));
    }
    let data = annotated_file(&tals, "1");
    let reader = EdfReader::open(data).unwrap();
    assert_eq!(reader.header().annotations_in_file, 100);
    assert_eq!(reader.annotations().len(), 102);
}

#[test]
fn second_annotation_signal_contributes_annotations() {
    // only the first annotation signal's leading empty annotation is a
    // timestamp; one from another annotation signal is emitted
    let ann_spr = 16;
    let signals = [
        eeg_signal(),
        annotation_signal(ann_spr),
        annotation_signal(ann_spr),
    ];
    let mut data = build_header(&signals, "1", "1");
    for i in 0..256usize {
        data.extend((i as i16).to_le_bytes());
    }
    for payload_text in ["+0\x14\x14+1\x14X\x14", "+0.5\x14\x14"] {
        let mut payload = payload_text.as_bytes().to_vec();
        while payload.len() < ann_spr * 2 {
            payload.push(0);
        }
        data.extend(payload);
    }
    let reader = EdfReader::open(data).unwrap();
    let annotations = reader.annotations();
    assert_eq!(annotations.len(), 2);
    // sorted by onset: the second signal's annotation at +0.5 comes first
    assert_eq!(annotations[0].onset, 5_000_000);
    assert_eq!(annotations[0].description, "");
    assert_eq!(annotations[1].onset, 10_000_000);
    assert_eq!(annotations[1].description, "X");
}

#[test]
fn tal_after_single_nul_starts_fresh() {
    // one NUL directly after a field delimiter ends the TAL; the next TAL
    // follows it
    let tals = vec![tal_bytes(&["+0\x14\x14\x00", "+2\x14Next\x14"])];
    let data = annotated_file(&tals, "1");
    let reader = EdfReader::open(data).unwrap();
    let annotations = reader.annotations();
    assert_eq!(annotations.len(), 1);
    assert_eq!(annotations[0].description, "Next");
    assert_eq!(annotations[0].onset, 20_000_000);
}

#[test]
fn error_descriptions() {
    assert_eq!(EdfError::InvalidHeader.description(), "invalid header");
    assert_eq!(EdfError::FileReadError.description(), "file read error");
    assert_eq!(EdfError::FormatError.description(), "malformed start date or time");
}
