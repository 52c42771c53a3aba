//! What one search is run with, and how it is read off the command line and
//! the environment.

use vstd::prelude::*;
use crate::substring::same_text;

verus! {

/// The environment variable whose presence asks for a search that ignores
/// case. Its value is not looked at.
pub const CASE_INSENSITIVE: &'static str = "CASE_INSENSITIVE";

/// The inputs of one search.
#[derive(Debug, PartialEq, Eq)]
pub struct Config {
    /// The term that a line must contain.
    pub search: String,
    /// The path of the file to search.
    pub filename: String,
    /// Whether upper and lower case differ.
    pub case_sensitive: bool,
}

/// The positional argument that the command line lacks.
#[derive(Debug, Clone, Copy, PartialEq, Eq, Structural)]
pub enum MissingArgument {
    /// The first: the search term.
    Search,
    /// The second: the file's path.
    Filename,
}

/// A variable named `name` is in `env`, whatever its value.
pub open spec fn is_set(env: Seq<(String, String)>, name: Seq<char>) -> bool {
    exists|i: int| 0 <= i < env.len() && (#[trigger] env[i]).0@ == name
}

/// The argument at `position` is there and is not empty.
pub open spec fn is_given(args: Seq<String>, position: int) -> bool {
    0 <= position < args.len() && args[position]@.len() > 0
}

/// Whether a variable named `name` is among the name and value pairs of
/// `env`.
pub fn variable_is_set(env: &[(String, String)], name: &str) -> (set: bool)
    ensures
        set == is_set(env@, name@),
{
    let count: usize = env.len();
    let mut i: usize = 0;
    while i < count
        invariant
            count == env@.len(),
            i <= count,
            forall|k: int| 0 <= k < i ==> (#[trigger] env@[k]).0@ != name@,
        decreases count - i,
    {
        if same_text(env[i].0.as_str(), name) {
            return true;
        }
        i += 1;
    }
    false
}

impl MissingArgument {
    /// The words in which the lack is reported.
    pub open spec fn message_text(self) -> Seq<char> {
        match self {
            MissingArgument::Search => "Didn't get a search string"@,
            MissingArgument::Filename => "Didn't get a filename"@,
        }
    }

    /// The words in which the lack is reported.
    pub fn message(&self) -> (words: &'static str)
        ensures
            words@ == self.message_text(),
    {
        match self {
            MissingArgument::Search => "Didn't get a search string",
            MissingArgument::Filename => "Didn't get a filename",
        }
    }
}

impl Config {
    /// Both the search term and the file's path are there: neither is empty.
    pub open spec fn well_formed(&self) -> bool {
        self.search@.len() > 0 && self.filename@.len() > 0
    }

    /// Reads a configuration off the command line `args`, whose first entry is
    /// the program's name, and the environment `env`.
    ///
    /// The search term is the first argument after the program's name and the
    /// file's path the second; further arguments are ignored. An argument that
    /// is absent or empty is missing, and the first that is missing is
    /// reported. Case counts unless the environment holds `CASE_INSENSITIVE`.
    pub fn new(args: &[String], env: &[(String, String)]) -> (resolved: Result<
        Config,
        MissingArgument,
    >)
        ensures
            resolved is Ok <==> is_given(args@, 1) && is_given(args@, 2),
            args@.len() < 3 ==> resolved is Err,
            match resolved {
                Ok(config) => {
                    &&& config.search@ == args@[1]@
                    &&& config.filename@ == args@[2]@
                    &&& config.case_sensitive == !is_set(env@, CASE_INSENSITIVE@)
                    &&& config.well_formed()
                },
                Err(missing) => missing == if is_given(args@, 1) {
                    MissingArgument::Filename
                } else {
                    MissingArgument::Search
                },
            },
    {
        let case_sensitive = !variable_is_set(env, CASE_INSENSITIVE);
        let count: usize = args.len();
        if count < 2 || args[1].as_str().is_empty() {
            return Err(MissingArgument::Search);
        }
        if count < 3 || args[2].as_str().is_empty() {
            return Err(MissingArgument::Filename);
        }
        Ok(Config { search: args[1].clone(), filename: args[2].clone(), case_sensitive })
    }
}

} // verus!
