//! The request a command line makes, and the search it selects.
use vstd::prelude::*;
use crate::search::{search, search_case_insensitive, search_folded_spec, search_spec, strs_view};

verus! {

/// What went wrong while reading the command line.
#[derive(Debug, Clone, Copy, PartialEq, Eq, Structural)]
pub enum ConfigError {
    /// Fewer than a program name, a query and a file path were given.
    InsufficientArguments,
}

/// One search: the text to look for, the file to look in, and whether case is ignored.
pub struct Config {
    pub query: String,
    pub file_path: String,
    pub ignore_case: bool,
}

impl Config {
    /// Reads a request from the command line `args`: the program name, the query and the
    /// file path, in that order; anything after them is ignored. `ignore_case` says whether
    /// the environment asks for case to be ignored.
    pub fn build(args: &[String], ignore_case: bool) -> (r: Result<Config, ConfigError>)
        ensures
            r is Err <==> args@.len() < 3,
            r matches Err(e) ==> e == ConfigError::InsufficientArguments,
            r matches Ok(c) ==> {
                &&& c.query@ == args@[1]@
                &&& c.file_path@ == args@[2]@
                &&& c.ignore_case == ignore_case
            },
    {
        if args.len() < 3 {
            return Err(ConfigError::InsufficientArguments);
        }
        let query = args[1].clone();
        let file_path = args[2].clone();
        Ok(Config { query, file_path, ignore_case })
    }
}

/// The lines of `contents` that `config` asks for: those that contain its query, with case
/// ignored when it says so, in order, each a slice of `contents`.
pub fn matching_lines<'a>(config: &Config, contents: &'a str) -> (r: Vec<&'a str>)
    ensures
        config.ignore_case ==> strs_view(r@) == search_folded_spec(config.query@, contents@),
        !config.ignore_case ==> strs_view(r@) == search_spec(config.query@, contents@),
{
    if config.ignore_case {
        search_case_insensitive(config.query.as_str(), contents)
    } else {
        search(config.query.as_str(), contents)
    }
}

} // verus!
