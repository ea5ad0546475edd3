//! The run configuration: the query, the file to search, and the case
//! policy, built once from the command-line arguments.

use vstd::prelude::*;

verus! {

/// Why a run configuration could not be built: one of the two positional
/// arguments after the program name is missing.
#[derive(Clone, Copy, Debug, PartialEq, Eq, Structural)]
pub enum ConfigError {
    MissingQuery,
    MissingFilename,
}

impl ConfigError {
    /// A short human-readable description of the missing argument.
    pub fn message(&self) -> (m: &'static str)
        ensures
            *self == ConfigError::MissingQuery ==> m@ == "missing query"@,
            *self == ConfigError::MissingFilename ==> m@ == "missing filename"@,
    {
        match self {
            ConfigError::MissingQuery => "missing query",
            ConfigError::MissingFilename => "missing filename",
        }
    }
}

/// One run of the search: what to look for, in which file, and whether the
/// containment test respects case.
#[derive(Debug)]
pub struct Config {
    pub query: String,
    pub filename: String,
    pub case_sensitive: bool,
}

impl Config {
    /// Builds a configuration from the command-line arguments, whose first
    /// element is by convention the program name, and from the
    /// already-resolved case policy. The query and the filename are the
    /// first and the second argument after the program name; each error
    /// names the first of the two that is absent.
    pub fn new(args: &[String], case_sensitive: bool) -> (result: Result<Config, ConfigError>)
        ensures
            match result {
                Ok(config) => {
                    &&& args@.len() >= 3
                    &&& config.query@ == args@[1]@
                    &&& config.filename@ == args@[2]@
                    &&& config.case_sensitive == case_sensitive
                },
                Err(e) => {
                    &&& args@.len() < 3
                    &&& (e == ConfigError::MissingQuery <==> args@.len() < 2)
                    &&& (e == ConfigError::MissingFilename <==> args@.len() == 2)
                },
            },
    {
        if args.len() < 2 {
            return Err(ConfigError::MissingQuery);
        }
        if args.len() < 3 {
            return Err(ConfigError::MissingFilename);
        }
        Ok(Config { query: args[1].clone(), filename: args[2].clone(), case_sensitive })
    }
}

} // verus!
