//! Reformats a shell's `alias` listing into grouped, human-readable sections.
//!
//! The library parses alias definitions of the form `name=value` (with bare,
//! single-quoted or double-quoted values), groups the parsed aliases by the
//! first token of their value, and renders the groups as text, optionally
//! with ANSI colors.

pub mod alias;
pub mod driver;
pub mod color;
pub mod group;
pub mod init;
pub mod parser;
pub mod present;
pub mod text;
