//! Settings read from the user's configuration file.
use vstd::prelude::*;

verus! {

/// The user's settings.
#[derive(Debug)]
pub struct Config {
    pub test: Option<Test>,
}

/// The settings of the `test` action.
#[derive(Clone, Debug)]
pub struct Test {
    /// Where the suites of all projects are kept.
    pub tests_path: Option<String>,
    /// Path of the external tool that a unit's arguments may name.
    pub digital_path: Option<String>,
}

/// The external tool path that `config` gives, if any.
pub open spec fn tool_path_of(config: Config) -> Option<Seq<char>> {
    match config.test {
        Some(t) => match t.digital_path {
            Some(p) => Some(p@),
            None => None,
        },
        None => None,
    }
}

impl Default for Config {
    fn default() -> (r: Self)
        ensures
            r.test is None,
    {
        Config { test: None }
    }
}

impl Default for Test {
    fn default() -> (r: Self)
        ensures
            r.tests_path is None,
            r.digital_path is None,
    {
        Test { tests_path: None, digital_path: None }
    }
}

impl Config {
    /// The external tool path, where the settings give one.
    pub fn tool_path(&self) -> (r: Option<&str>)
        ensures
            r is Some <==> tool_path_of(*self) is Some,
            r is Some ==> r->0@ == tool_path_of(*self)->0,
    {
        match &self.test {
            Some(t) => match &t.digital_path {
                Some(p) => Some(p.as_str()),
                None => None,
            },
            None => None,
        }
    }
}

} // verus!
