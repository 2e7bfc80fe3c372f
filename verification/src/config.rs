//! The parameters of one search run.

use vstd::prelude::*;

verus! {

/// What a caller is told when too few arguments were given.
pub const USAGE: &'static str =
    "Not enough arguments. Usage: <keyword> <directory> [case_insensitive]";

/// The fourth argument that asks for a search that ignores case.
pub const IGNORE_CASE: &'static str = "case_insensitive";

/// The parameters of one search run. They are fixed once the run starts.
#[derive(Debug, Clone, PartialEq, Eq)]
pub struct Config {
    pub keyword: String,
    pub directory: String,
    pub case_insensitive: bool,
}

/// Whether the arguments ask for a search that ignores case: a fourth
/// argument is present and is exactly the flag.
pub open spec fn asks_to_ignore_case(args: Seq<String>) -> bool {
    args.len() > 3 && args[3]@ == IGNORE_CASE@
}

impl Config {
    /// Reads the parameters from the program's arguments: the program's own
    /// name, the keyword, the directory and, optionally, the flag. Arguments
    /// after the fourth are ignored.
    pub fn new(args: &[String]) -> (result: Result<Config, &'static str>)
        ensures
            result is Err <==> args@.len() < 3,
            result matches Err(message) ==> message@ == USAGE@,
            result matches Ok(config) ==> {
                &&& config.keyword@ == args@[1]@
                &&& config.directory@ == args@[2]@
                &&& config.case_insensitive == asks_to_ignore_case(args@)
            },
    {
        if args.len() < 3 {
            return Err(USAGE);
        }
        let keyword = args[1].clone();
        let directory = args[2].clone();
        let case_insensitive = if args.len() > 3 {
            let flag = IGNORE_CASE.to_owned();
            args[3] == flag
        } else {
            false
        };
        Ok(Config { keyword, directory, case_insensitive })
    }
}

} // verus!
