//! The host abstraction of a build tool: reading files and enumerating
//! directories without ever escaping a designated workspace root, plus the
//! target-address grammar used to name what the tool should build.
//!
//! The pieces, leaves first: lexical path normalization ([`paths`]), the
//! error model ([`errors`]), the sandbox resolution bound to a workspace
//! root ([`fs_host`]), the read-only host capability interface and the
//! recursive lister built on it ([`host`]), an in-memory host for fixtures
//! ([`mem_host`]), and the target pattern parser and formatter
//! ([`target_pattern`]).

pub mod errors;
pub mod fs_host;
pub mod host;
pub mod mem_host;
pub mod paths;
pub mod target_pattern;
