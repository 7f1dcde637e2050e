//! The run's configuration, built from the program's argument list.
use vstd::prelude::*;
use crate::text::same_text;

verus! {

/// What to search for, where, and whether to print diagnostics.
pub struct Config {
    pub query: String,
    pub file_path: String,
    /// Enables debug logs.
    pub debug: bool,
}

/// The error that `Config::build` gives for too short an argument list.
pub open spec fn too_few_arguments() -> Seq<char> {
    "not enough arguments"@
}

/// Whether an argument list asks for debug logs: it has a fourth entry and
/// that entry is exactly `debug`.
pub open spec fn asks_for_debug(args: Seq<String>) -> bool {
    args.len() > 3 && args[3]@ == "debug"@
}

impl Config {
    /// Builds the configuration from a full argument list, whose first entry
    /// is the program's name. The query and the file path are the second and
    /// third entries; a list of fewer than three entries is an error.
    pub fn build(args: &[String]) -> (r: Result<Config, &'static str>)
        ensures
            r is Err <==> args@.len() < 3,
            r is Err ==> r->Err_0@ == too_few_arguments(),
            r is Ok ==> r->Ok_0.query@ == args@[1]@ && r->Ok_0.file_path@ == args@[2]@
                && r->Ok_0.debug == asks_for_debug(args@),
    {
        if args.len() < 3 {
            return Err("not enough arguments");
        }
        let query = args[1].clone();
        let file_path = args[2].clone();
        let debug = args.len() > 3 && same_text(args[3].as_str(), "debug");
        Ok(Config { query, file_path, debug })
    }
}

} // verus!
