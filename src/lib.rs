//! Calibration values of text lines: each line's first and last digit, written as
//! a digit character or spelled out in English, read as a two-digit number.
pub mod calibration;
pub mod laws;
pub mod spelling;
pub mod text;

pub use calibration::{calibration_total, find_digit, parse_line, CalibrationError};
