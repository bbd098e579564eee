use vstd::prelude::*;

verus! {

/// What one run searches for, where, and whether case matters.
#[derive(Debug)]
pub struct Config {
    pub query: String,
    pub file_path: String,
    pub ignore_case: bool,
}

impl Config {
    /// Builds a configuration from command-line arguments: `args[1]` is the
    /// query and `args[2]` the path of the file to search; `args[0]`, the
    /// program's name, and anything after `args[2]` are not read. Fewer than
    /// three arguments, or an empty query, is an error.
    pub fn build(args: &[String], ignore_case: bool) -> (r: Result<Config, &'static str>)
        ensures
            args@.len() < 3 ==> (r matches Err(e) && e@ == "not enough arguments"@),
            args@.len() >= 3 && args@[1]@.len() == 0 ==> (r matches Err(e) && e@ == "empty query"@),
            args@.len() >= 3 && args@[1]@.len() > 0 <==> r is Ok,
            r matches Ok(c) ==> c.query@ == args@[1]@ && c.file_path@ == args@[2]@ && c.ignore_case
                == ignore_case,
    {
        if args.len() < 3 {
            return Err("not enough arguments");
        }
        let query = args[1].clone();
        let file_path = args[2].clone();
        if query.as_str().is_empty() {
            return Err("empty query");
        }
        Ok(Config { query, file_path, ignore_case })
    }
}

} // verus!
