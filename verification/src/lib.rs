//! Command-shadowing engine: a persistent alias registry, the planning logic
//! for the symlinks that make interception possible, and the dispatch rules
//! that decide, for one invocation, whether to run the replacement command,
//! the original, or the administrative interface.

pub mod aliases;
pub mod cli;
pub mod commands;
pub mod config;
pub mod document;
pub mod error;
pub mod symlink;
pub mod text;
