//! The run's configuration, built from the process arguments and the
//! presence of the case-folding switch.
use vstd::prelude::*;
use crate::search::{
    lines_containing, lines_containing_folded, search, search_case_insensitive, views,
};

verus! {

/// Why a run could not go ahead.
pub enum Error {
    /// Too few arguments were given; the message says so.
    ArgumentError(&'static str),
    /// The file could not be read; the text describes the cause.
    IoError(String),
}

impl Error {
    /// The human-readable text of the error.
    pub fn message(&self) -> (r: &str)
        ensures
            r@ == match self {
                Error::ArgumentError(m) => m@,
                Error::IoError(cause) => cause@,
            },
    {
        match self {
            Error::ArgumentError(m) => m,
            Error::IoError(cause) => cause.as_str(),
        }
    }
}

/// What to search for, where, and whether case matters.
pub struct Config {
    pub query: String,
    pub file_path: String,
    pub ignore_case: bool,
}

impl Config {
    /// Builds the configuration from the process arguments (program name,
    /// query, file path; later ones are ignored) and the value of the
    /// case-folding variable, if it is set. Whether it is set decides
    /// `ignore_case`; its value does not matter.
    pub fn build(args: &[String], ignore_case_var: Option<&str>) -> (r: Result<Config, Error>)
        ensures
            r is Err <==> args@.len() < 3,
            match r {
                Ok(config) => {
                    &&& config.query@ == args@[1]@
                    &&& config.file_path@ == args@[2]@
                    &&& config.ignore_case == ignore_case_var is Some
                },
                Err(Error::ArgumentError(m)) => m@ == "Not enough arguments"@,
                Err(Error::IoError(_)) => false,
            },
    {
        if args.len() < 3 {
            return Err(Error::ArgumentError("Not enough arguments"));
        }
        let query = args[1].clone();
        let file_path = args[2].clone();
        let ignore_case = ignore_case_var.is_some();
        Ok(Config { query, file_path, ignore_case })
    }

    /// The lines of `contents` that this configuration selects: matched
    /// after lowercasing when `ignore_case` is set, exactly otherwise.
    pub fn matching_lines<'a>(&self, contents: &'a str) -> (r: Vec<&'a str>)
        ensures
            views(r@) == if self.ignore_case {
                lines_containing_folded(self.query@, contents@)
            } else {
                lines_containing(self.query@, contents@)
            },
    {
        if self.ignore_case {
            search_case_insensitive(self.query.as_str(), contents)
        } else {
            search(self.query.as_str(), contents)
        }
    }
}

} // verus!
