//! Streaming conversion of delimited row data into a fixed XML schema.
//!
//! The pipeline is: a header-driven field classifier, a character-data
//! escaper, a row source over a delimited-text reader, and an XML emitter
//! that writes one record element per input row.

pub mod error;
pub mod escape_str;
pub mod generate_xml;
pub mod io_arg;
pub mod read_csv;
pub mod record_type;
