//! A small library with two independent parts: a branch-minimized
//! converter between day offsets (day 0 = 1970-01-01, proleptic
//! Gregorian) and calendar dates, and a base64 index encoder.

pub mod b64;
pub mod dates;

pub use b64::encode_to_bytes;
pub use b64::encode_to_string;
pub use dates::days_to_date;
pub use dates::Date;
