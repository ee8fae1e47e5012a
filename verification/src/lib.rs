//! The core of an adapter for the fastText command-line tool: the command
//! lines that drive the tool, the policy that installs it where it is
//! missing, and the parsers that turn what it prints into values.
//!
//! Nothing here starts a process or touches a file. A driver runs the
//! commands that `command` and `install` build, reports to `coordinator`
//! what came of them, and hands the text that the tool printed to `labels`,
//! `blocks` or `vectors`.

pub mod blocks;
pub mod command;
pub mod coordinator;
pub mod install;
pub mod invocation;
pub mod labels;
pub mod number;
pub mod options;
pub mod outcome;
pub mod printed;
pub mod text;
pub mod vectors;
