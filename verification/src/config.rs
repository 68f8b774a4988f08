//! Settings of the text-search utility.

use vstd::prelude::*;

verus! {

/// What to search for, where, and how.
pub struct Config {
    /// The text to look for.
    pub query: String,
    /// The file to look in.
    pub file_path: String,
    /// Whether upper and lower case count as the same.
    pub ignore_case: bool,
}

impl Config {
    /// Reads the settings from the arguments of the program: the program's
    /// name comes first and is passed over, the query second, the file path
    /// third; what follows is ignored. `ignore_case` is taken as it is.
    pub fn build(args: Vec<String>, ignore_case: bool) -> (config: Result<Config, &'static str>)
        ensures
            match config {
                Ok(c) => {
                    &&& args@.len() >= 3
                    &&& c.query@ == args@[1]@
                    &&& c.file_path@ == args@[2]@
                    &&& c.ignore_case == ignore_case
                },
                Err(message) => {
                    &&& args@.len() < 3
                    &&& message@ == if args@.len() < 2 {
                        "Didn't get a query string"@
                    } else {
                        "Didn't get a file path"@
                    }
                },
            },
    {
        let mut args = args;
        if args.len() < 2 {
            return Err("Didn't get a query string");
        }
        if args.len() < 3 {
            return Err("Didn't get a file path");
        }
        let query = args.remove(1);
        let file_path = args.remove(1);
        Ok(Config { query, file_path, ignore_case })
    }
}

} // verus!
