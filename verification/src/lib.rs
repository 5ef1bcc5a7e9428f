//! Integer line adapters and a paired-maximum scan.
//!
//! The reads of a line source become lines or a typed read failure
//! ([`source`]). Text lines are turned into integers or parse failures
//! ([`parse`]), an adapter walks a list of lines under a failure policy
//! ([`adapter`]), and the scan pairs two numbered streams and reports the
//! positions of the largest positive sum ([`scan`]). What holds of the
//! adapter and of the scan on whole families of inputs is proved in
//! [`adapter_lemmas`] and [`scan_lemmas`].

pub mod adapter;
pub mod adapter_lemmas;
pub mod parse;
pub mod scan;
pub mod scan_lemmas;
pub mod source;

pub use adapter::{CorrectLines, CorrectLinesIterator, FailurePolicy};
pub use parse::{parse_line, ParseFailure, ParseOutcome};
pub use scan::{algo, Entry, MaxState, ScanError};
pub use source::{lines_read, SourceReadFailure};
