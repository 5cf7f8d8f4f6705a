//! Verified core of a raw ZGC heap backing-file reader.
pub mod analysis;
pub mod census;
pub mod bytes;
pub mod checksums;
pub mod classmap;
pub mod compare;
pub mod corpus;
pub mod counts;
pub mod dictionaries;
pub mod discovery;
pub mod digest;
pub mod encoding;
pub mod error;
pub mod index;
pub mod jstring;
pub mod layout;
pub mod lines;
pub mod maps;
pub mod number;
pub mod patterns;
pub mod profiles;
pub mod raw_strings;
pub mod rank;
pub mod reader;
pub mod references;
pub mod scan;
pub mod scanner;
pub mod spacing;
pub mod summary;
pub mod tally;
pub mod text;

pub use error::Error;
