//! A buffered reader for decoding an untrusted byte stream into UTF-8
//! characters and bounded lines.
//!
//! Reading lines from a stream that may never contain a terminator, or whose
//! lines may be arbitrarily long, risks unbounded memory growth. [`CharReader`]
//! fixes both problems: it owns a fixed-capacity buffer, decodes one Unicode
//! scalar value at a time, and extracts lines under two character thresholds —
//! one after which characters are dropped from the result, and one after which
//! the whole call fails.

pub mod line;
pub mod reader;
pub mod source;
pub mod unicode;

pub use reader::CharReader;
pub use reader::ReadError;
pub use source::ByteSource;
pub use source::VecSource;
