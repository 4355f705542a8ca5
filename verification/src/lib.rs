//! Turns a textual record description — leveled field declarations with
//! picture, usage and repetition clauses — into a byte-offset layout report:
//! for every field its storage format, byte length, and starting position.
pub mod cobol_parser;
pub mod record_layout;
pub mod text;
