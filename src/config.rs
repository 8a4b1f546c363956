//! The settings of one search, taken from the command line.

use vstd::prelude::*;
use crate::search::{found_lines, search, search_case_insensitive};

verus! {

/// The message given when the command line holds too few arguments.
pub const MISSING_ARGUMENTS: &'static str = "недостаточно аргументов";

/// What to look for, where, and whether case matters.
#[derive(Debug)]
pub struct Config {
    pub query: String,
    pub filename: String,
    pub case_sensitive: bool,
}

impl Config {
    /// Builds the settings from the command line `args` (the program name
    /// first, then the query, then the file name; more are ignored) and from
    /// whether the case-insensitive switch is set in the environment.
    pub fn new(args: &[String], ignore_case: bool) -> (r: Result<Config, &'static str>)
        ensures
            r is Ok <==> args@.len() >= 3,
            r matches Ok(c) ==> c.query@ == args@[1]@ && c.filename@ == args@[2]@
                && c.case_sensitive == !ignore_case,
            r matches Err(e) ==> e@ == MISSING_ARGUMENTS@,
    {
        if args.len() < 3 {
            return Err(MISSING_ARGUMENTS);
        }
        let query = args[1].clone();
        let filename = args[2].clone();
        Ok(Config { query, filename, case_sensitive: !ignore_case })
    }

    /// The lines of `contents` that match this search's query, in order:
    /// exact containment when case matters, containment after lowercasing
    /// both sides otherwise.
    pub fn find_in<'a>(&self, contents: &'a str) -> (r: Vec<&'a str>)
        ensures
            r@.map_values(|l: &'a str| l@) == found_lines(self.case_sensitive, self.query@, contents@),
    {
        if self.case_sensitive {
            search(self.query.as_str(), contents)
        } else {
            search_case_insensitive(self.query.as_str(), contents)
        }
    }
}

} // verus!
