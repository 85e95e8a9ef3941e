//! Splits a source into files: by a number of lines, by a number of files, by
//! a number of bytes, or before each line that a pattern matches. The library
//! works on the bytes of the source and returns the files to be written, each
//! with its name; reading the source and writing the files is the caller's
//! part.

pub mod arguments;
pub mod byte_count;
pub mod chunks;
pub mod decimal;
pub mod error;
pub mod filename;
pub mod lines;
pub mod output;
pub mod pattern;
pub mod split;

pub use arguments::{Arguments, Method};
pub use byte_count::ByteCount;
pub use error::SplitError;
pub use filename::Filename;
pub use output::{FileOptions, OutputFile};
pub use split::{
    run, split_at_matches, split_by_byte_count, split_by_chunk_count, split_by_line_count,
    split_by_pattern,
};
