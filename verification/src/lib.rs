#![allow(non_camel_case_types)]
//! Raw-filtering accelerator for record-oriented text data.
//!
//! A user-supplied parsing callback decides whether a record satisfies a
//! structured predicate; this library eliminates most records beforehand via
//! cheap substring scans, so that the expensive parser runs only on plausible
//! candidates.  A calibration stage samples the input, measures per-filter
//! selectivity and parser cost, and searches combinations of substring
//! filters to minimise expected per-record work.

pub mod bitmap;
pub mod common;
pub mod decompose_ascii_rawfilters;
pub mod sparser;
pub mod sparser_kernels;
pub mod utils;
