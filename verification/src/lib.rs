//! Reader for EDF+ (European Data Format Plus) biosignal recordings.
//!
//! The library decodes the fixed-layout ASCII header of an EDF+C file held in
//! memory, enumerates its signal descriptors, performs random-access retrieval
//! of digital samples with independent per-signal cursors, and parses the
//! Time-stamped Annotations Lists (TAL) embedded in dedicated annotation
//! signals.

use vstd::prelude::*;

pub mod annots;
pub mod ascii;
pub mod cal;
pub mod decimal;
pub mod error;
pub mod header;
pub mod numeric;
pub mod reader;
pub mod tal;
pub mod text;
pub mod types;

pub use crate::error::EdfError;
pub use crate::reader::EdfReader;
pub use crate::types::{Annotation, EdfDate, EdfHeader, EdfTime, SignalInfo, SignalParam};
pub use crate::decimal::DecimalValue;

verus! {

/// Fixed-point time resolution: ticks per second used for all durations and
/// onsets (100-nanosecond units).
pub const EDFLIB_TIME_DIMENSION: i64 = 10_000_000;

/// Largest number of signals a file may declare.
pub const EDFLIB_MAXSIGNALS: i32 = 640;

} // verus!
