//! A hierarchical command dispatcher.
//!
//! Configuration documents describe nested groups of shell commands. A flat
//! token vector is resolved against that hierarchy, taking aliases, flattened
//! groups, directory scopes, default commands and environments into account,
//! and the result is either a runner descriptor (an invocation string, a
//! working directory and an environment plan) or a signal to show help.
pub mod command;
pub mod config;
pub mod dir;
pub mod do_something;
pub mod ds_file;
pub mod env;
pub mod error;
pub mod group;
pub mod help;
pub mod runner;
