//! The data model of a recording: header, signal descriptors, annotations.

use vstd::prelude::*;
use crate::decimal::DecimalValue;

verus! {

/// A calendar date held as plain year, month and day.
#[derive(Clone, Copy, Debug, PartialEq, Eq, Structural)]
pub struct EdfDate {
    pub year: i32,
    pub month: u32,
    pub day: u32,
}

/// A time of day held as plain hour, minute and second.
#[derive(Clone, Copy, Debug, PartialEq, Eq, Structural)]
pub struct EdfTime {
    pub hour: u32,
    pub minute: u32,
    pub second: u32,
}

/// One annotation: onset and duration in ticks, and a free-text description.
/// A negative duration means that none was given.
#[derive(Clone, Debug)]
pub struct Annotation {
    pub onset: i64,
    pub duration: i64,
    pub description: String,
}

/// A user-visible signal descriptor.
#[derive(Clone, Debug)]
pub struct SignalParam {
    pub label: String,
    pub samples_in_file: i64,
    pub physical_max: DecimalValue,
    pub physical_min: DecimalValue,
    pub digital_max: i32,
    pub digital_min: i32,
    pub samples_per_record: i32,
    pub physical_dimension: String,
    pub prefilter: String,
    pub transducer: String,
}

/// The decoded main header of a recording.
#[derive(Clone, Debug)]
pub struct EdfHeader {
    pub signals: Vec<SignalParam>,
    pub file_duration: i64,
    pub start_date: EdfDate,
    pub start_time: EdfTime,
    pub starttime_subsecond: i64,
    pub datarecords_in_file: i64,
    pub datarecord_duration: i64,
    pub annotations_in_file: i64,
    pub patient_code: String,
    pub sex: String,
    pub birthdate: String,
    pub patient_name: String,
    pub patient_additional: String,
    pub admin_code: String,
    pub technician: String,
    pub equipment: String,
    pub recording_additional: String,
}

/// One on-disk signal slot: where its chunk lies inside a data record.
/// Annotation slots are never exposed as user signals, but their offsets
/// participate in the record layout.
#[derive(Clone, Copy, Debug)]
pub struct SignalInfo {
    pub buffer_offset: u64,
    pub samples_per_record: i32,
    pub is_annotation: bool,
}

} // verus!
