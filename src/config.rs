use vstd::prelude::*;

verus! {

/// Settings the editor hands over: whether to look for a newer release, and
/// the paths and arguments of the runtime and of the compiler.
#[derive(Debug)]
pub struct Config {
    pub check_for_updates: bool,
    pub slim_path: String,
    pub slim_args: Vec<String>,
    pub compiler_path: String,
    pub compiler_args: Vec<String>,
}

impl Default for Config {
    fn default() -> (r: Config)
        ensures
            !r.check_for_updates,
            r.slim_path@.len() == 0,
            r.slim_args@.len() == 0,
            r.compiler_path@.len() == 0,
            r.compiler_args@.len() == 0,
    {
        Config {
            check_for_updates: false,
            slim_path: String::new(),
            slim_args: Vec::new(),
            compiler_path: String::new(),
            compiler_args: Vec::new(),
        }
    }
}

} // verus!
