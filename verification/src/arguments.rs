//! The arguments of a split as they come from a command line, and what they
//! select.

use vstd::prelude::*;
use crate::error::SplitError;
use crate::output::{FileOptions, Naming};

verus! {

/// The smallest suffix length that is offered.
pub const MIN_SUFFIX_LENGTH: i64 = 2;

/// The largest suffix length that is offered.
pub const MAX_SUFFIX_LENGTH: i64 = 13;

/// The largest number of chunks that is offered: as many as two letters can
/// number.
pub const MAX_CHUNK_COUNT: i64 = 676;

/// The arguments of one split.
#[derive(Debug)]
pub struct Arguments {
    /// The width of the suffix of the file names.
    pub suffix_length: i64,
    /// Whether the suffix is in decimal digits rather than in letters.
    pub numeric_suffix: bool,
    /// How many lines a file holds, where no other way of splitting is
    /// chosen.
    pub line_count: usize,
    /// Into how many files to split, if by a number of files.
    pub chunk_count: Option<i64>,
    /// How many bytes a file holds, if by a number of bytes.
    pub byte_count: Option<u64>,
    /// The pattern with whose matches files start, if by a pattern.
    pub pattern: Option<String>,
    /// Where the source is to be read.
    pub file_path: String,
    /// What every file name starts with.
    pub prefix: String,
}

/// The way of splitting, with what it needs.
#[derive(Debug, PartialEq, Eq)]
pub enum Method {
    /// By lines, so many to a file.
    ByLineCount(usize),
    /// Into so many files.
    ByChunkCount(usize),
    /// By bytes, so many to a file.
    ByByteCount(u64),
    /// By lines, a file starting with each line that the pattern matches.
    ByPattern(String),
}

impl Default for Arguments {
    /// Arguments with nothing chosen: every number is zero, every text empty.
    fn default() -> (args: Arguments)
        ensures
            args.suffix_length == 0,
            !args.numeric_suffix,
            args.line_count == 0,
            args.chunk_count is None,
            args.byte_count is None,
            args.pattern is None,
            args.file_path@ == Seq::<char>::empty(),
            args.prefix@ == Seq::<char>::empty(),
    {
        Arguments {
            suffix_length: 0,
            numeric_suffix: false,
            line_count: 0,
            chunk_count: None,
            byte_count: None,
            pattern: None,
            file_path: String::new(),
            prefix: String::new(),
        }
    }
}

impl Arguments {
    /// Whether more than one of the number of files, the number of bytes and
    /// the pattern is given.
    pub open spec fn conflicting(&self) -> bool {
        ||| self.chunk_count is Some && self.byte_count is Some
        ||| self.chunk_count is Some && self.pattern is Some
        ||| self.byte_count is Some && self.pattern is Some
    }

    /// The way of splitting that the arguments select. At most one of the
    /// number of files, the number of bytes and the pattern may be given; where
    /// none is, the lines are counted. The number of files is at least one and
    /// at most `MAX_CHUNK_COUNT`.
    pub open spec fn selected(&self) -> Result<Method, SplitError> {
        if self.conflicting() {
            Err(SplitError::ConflictingMethods)
        } else if self.chunk_count is Some {
            let count = self.chunk_count->0;
            if 1 <= count <= MAX_CHUNK_COUNT {
                Ok(Method::ByChunkCount(count as usize))
            } else {
                Err(SplitError::InvalidChunkCount)
            }
        } else if self.byte_count is Some {
            Ok(Method::ByByteCount(self.byte_count->0))
        } else if self.pattern is Some {
            Ok(Method::ByPattern(self.pattern->0))
        } else {
            Ok(Method::ByLineCount(self.line_count))
        }
    }

    /// How the arguments name the files. The suffix length is at least
    /// `MIN_SUFFIX_LENGTH` and at most `MAX_SUFFIX_LENGTH`.
    pub open spec fn naming(&self) -> Result<Naming, SplitError> {
        if MIN_SUFFIX_LENGTH <= self.suffix_length <= MAX_SUFFIX_LENGTH {
            Ok(
                Naming {
                    prefix: self.prefix@,
                    suffix_length: self.suffix_length as nat,
                    numeric: self.numeric_suffix,
                },
            )
        } else {
            Err(SplitError::InvalidSuffixLength)
        }
    }

    /// The way of splitting that the arguments select.
    pub fn method(&self) -> (result: Result<Method, SplitError>)
        ensures
            result == self.selected(),
    {
        let chosen_twice = match (&self.chunk_count, &self.byte_count, &self.pattern) {
            (Some(_), Some(_), _) => true,
            (Some(_), _, Some(_)) => true,
            (_, Some(_), Some(_)) => true,
            _ => false,
        };
        if chosen_twice {
            return Err(SplitError::ConflictingMethods);
        }
        if let Some(count) = self.chunk_count {
            if 1 <= count && count <= MAX_CHUNK_COUNT {
                Ok(Method::ByChunkCount(count as usize))
            } else {
                Err(SplitError::InvalidChunkCount)
            }
        } else if let Some(byte_count) = self.byte_count {
            Ok(Method::ByByteCount(byte_count))
        } else if let Some(pattern) = &self.pattern {
            Ok(Method::ByPattern(pattern.clone()))
        } else {
            Ok(Method::ByLineCount(self.line_count))
        }
    }

    /// The options for the file names.
    pub fn file_options(&self) -> (result: Result<FileOptions, SplitError>)
        ensures
            match result {
                Ok(options) => self.naming() == Ok::<Naming, SplitError>(options@),
                Err(error) => self.naming() == Err::<Naming, SplitError>(error),
            },
    {
        if MIN_SUFFIX_LENGTH <= self.suffix_length && self.suffix_length <= MAX_SUFFIX_LENGTH {
            Ok(
                FileOptions {
                    prefix: self.prefix.clone(),
                    suffix_length: self.suffix_length as usize,
                    numeric_suffix: self.numeric_suffix,
                },
            )
        } else {
            Err(SplitError::InvalidSuffixLength)
        }
    }
}

} // verus!
