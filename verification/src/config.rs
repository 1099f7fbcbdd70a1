//! What one run needs to know: the query, the file, and whether letter case
//! counts.

use vstd::prelude::*;

verus! {

/// The environment variable whose presence, whatever it holds, switches the
/// search to matching without regard to case.
pub const CASE_INSENSITIVE_VARIABLE: &'static str = "CASE_INSENSITIVE";

/// Why no configuration could be built.
#[derive(Debug, Clone, Copy, PartialEq, Eq)]
pub enum ConfigError {
    /// The arguments hold no query, or no file name, after the program's name.
    InsufficientArguments,
}

impl ConfigError {
    /// The error in words.
    pub fn message(&self) -> (text: &'static str)
        ensures
            text@ == "not enough arguments"@,
    {
        match self {
            ConfigError::InsufficientArguments => "not enough arguments",
        }
    }
}

/// What a configuration holds.
pub ghost struct ConfigView {
    pub query: Seq<char>,
    pub filename: Seq<char>,
    pub is_case_sensitive: bool,
}

/// The configuration of one run. It does not change once built.
#[derive(Debug)]
pub struct Config {
    query: String,
    filename: String,
    is_case_sensitive: bool,
}

impl View for Config {
    type V = ConfigView;

    closed spec fn view(&self) -> ConfigView {
        ConfigView {
            query: self.query@,
            filename: self.filename@,
            is_case_sensitive: self.is_case_sensitive,
        }
    }
}

impl Config {
    /// Builds the configuration from the raw arguments, which are the
    /// program's name, the query, the file name, and whatever follows, and from
    /// whether the environment has the variable that switches case off
    /// (`CASE_INSENSITIVE_VARIABLE`). With fewer than three arguments there is
    /// no configuration. The query and the file name are copies of the second
    /// and third argument; case counts unless the variable is present.
    pub fn new(args: &Vec<String>, case_insensitive_set: bool) -> (built: Result<
        Config,
        ConfigError,
    >)
        ensures
            args@.len() < 3 ==> built == Err::<Config, ConfigError>(
                ConfigError::InsufficientArguments,
            ),
            args@.len() >= 3 ==> built is Ok && built->Ok_0@ == (ConfigView {
                query: args@[1]@,
                filename: args@[2]@,
                is_case_sensitive: !case_insensitive_set,
            }),
    {
        if args.len() < 3 {
            return Err(ConfigError::InsufficientArguments);
        }
        Ok(
            Config {
                query: args[1].clone(),
                filename: args[2].clone(),
                is_case_sensitive: !case_insensitive_set,
            },
        )
    }

    /// The text to look for.
    pub fn query(&self) -> (text: &str)
        ensures
            text@ == self@.query,
    {
        self.query.as_str()
    }

    /// The path of the file to search, as it was given.
    pub fn filename(&self) -> (text: &str)
        ensures
            text@ == self@.filename,
    {
        self.filename.as_str()
    }

    /// Whether letter case counts in the search.
    pub fn is_case_sensitive(&self) -> (yes: bool)
        ensures
            yes == self@.is_case_sensitive,
    {
        self.is_case_sensitive
    }
}

} // verus!
