use vstd::prelude::*;

use crate::command::strs;
use crate::help::{join_words, joined_with};

verus! {

/// Everything that can go wrong while resolving a token vector.
#[derive(Debug, Clone, PartialEq, Eq)]
pub enum ResolveError {
    /// The root path of the node at `keys` could not be resolved.
    Scope { keys: Vec<String> },
    /// A configured path could not be resolved.
    Path { input: String },
    /// The target resolves to nothing.
    NoMatch,
    /// More than one source defines a reachable command for the target.
    Conflict { keys: Vec<String> },
    /// The key path does not lead to a command.
    NoCommand { keys: Vec<String> },
    /// Environments exist, no token names one and there is no default.
    NoEnvironmentSpecified,
    /// The token does not name an environment and there is no default.
    UnknownEnvironment,
    /// The default environment named here is not defined.
    DefaultEnvironmentMissing { name: String },
    /// Help rows were asked of something that is not a group.
    NotAGroup,
    /// No loaded document has the path of a match.
    FileNotLoaded { path: String },
}

/// Key path words separated by spaces.
pub open spec fn spaced_keys(keys: Vec<String>) -> Seq<char> {
    joined_with(strs(keys@), ' ')
}

impl ResolveError {
    /// The text shown for the error.
    pub open spec fn spec_message(self) -> Seq<char> {
        match self {
            ResolveError::Scope { keys } => "Error determining scope for command: "@ + spaced_keys(
                keys,
            ),
            ResolveError::Path { input } => "Could not resolve path: "@ + input@,
            ResolveError::NoMatch => "No matching command found"@,
            ResolveError::Conflict { keys } => "Conflict detected for command: "@ + spaced_keys(
                keys,
            ),
            ResolveError::NoCommand { keys } => "No command found for keys: "@ + spaced_keys(keys),
            ResolveError::NoEnvironmentSpecified =>
                "No environment specified, and no default environment is set"@,
            ResolveError::UnknownEnvironment =>
                "Environment not found, and no default environment is set"@,
            ResolveError::DefaultEnvironmentMissing { name } =>
                "Environment not found, and default environment '"@ + name@ + "' is not found"@,
            ResolveError::NotAGroup => "Only groups have help rows"@,
            ResolveError::FileNotLoaded { path } => "File not loaded: "@ + path@,
        }
    }

    /// The text shown for the error.
    pub fn message(&self) -> (r: String)
        ensures
            r@ == self.spec_message(),
    {
        proof {
            reveal_strlit(" ");
        }
        match self {
            ResolveError::Scope { keys } => {
                let mut s = String::from_str("Error determining scope for command: ");
                s.append(join_words(keys, " ").as_str());
                s
            },
            ResolveError::Path { input } => {
                let mut s = String::from_str("Could not resolve path: ");
                s.append(input.as_str());
                s
            },
            ResolveError::NoMatch => String::from_str("No matching command found"),
            ResolveError::Conflict { keys } => {
                let mut s = String::from_str("Conflict detected for command: ");
                s.append(join_words(keys, " ").as_str());
                s
            },
            ResolveError::NoCommand { keys } => {
                let mut s = String::from_str("No command found for keys: ");
                s.append(join_words(keys, " ").as_str());
                s
            },
            ResolveError::NoEnvironmentSpecified => String::from_str(
                "No environment specified, and no default environment is set",
            ),
            ResolveError::UnknownEnvironment => String::from_str(
                "Environment not found, and no default environment is set",
            ),
            ResolveError::DefaultEnvironmentMissing { name } => {
                let mut s = String::from_str("Environment not found, and default environment '");
                s.append(name.as_str());
                s.append("' is not found");
                s
            },
            ResolveError::NotAGroup => String::from_str("Only groups have help rows"),
            ResolveError::FileNotLoaded { path } => {
                let mut s = String::from_str("File not loaded: ");
                s.append(path.as_str());
                s
            },
        }
    }
}

} // verus!
