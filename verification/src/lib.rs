//! A reader for line-oriented `key = value` configuration text.
//!
//! # Format
//!
//! ```text
//! * A line whose first character is an asterisk is a comment line.
//!
//! port = 2022     // what follows a space and two slashes is a comment
//! threads=8
//!
//! %include /home/user/more.conf
//! ```
//!
//! Blank lines and comment lines are skipped. Every other line is first cut
//! before its trailing comment. A line that then starts with `%include` and
//! goes on after it includes the file named by its second token, which must
//! be an absolute path; the properties of that file are taken over where the
//! line stands. A line that holds `=` sets the property named left of the
//! first `=` to what stands right of it, both trimmed. Any other line is
//! ignored. Where a name is set more than once, the last value stays.
//!
//! # Layout
//!
//! The library reads no file. [`loader::Loader`] names the file it needs
//! next and is handed what the caller found there, until it is done.
//!
//! - [`text`]: characters, trimming, searching, tokens, lines.
//! - [`line`]: the meaning of one line; [`line_laws`]: what holds of it.
//! - [`config_map`]: the mapping from name to value.
//! - [`error`]: the ways in which a load fails.
//! - [`semantics`]: what loading means, by recursion over inclusions.
//! - [`loader`]: loading step by step.
//! - [`agreement`]: the loader computes what loading means.
//! - [`expansion`]: last write wins, across inclusions.
//! - [`neutrality`]: blank lines and comment lines change no result.
//!
//! Inclusions are not checked for cycles. A file that includes itself,
//! directly or through other files, has no outcome at any depth, and a loader
//! that is handed such files asks for them again and again;
//! [`loader::Loader::depth`] tells a caller how deep the load has come.
pub mod agreement;
pub mod config_map;
pub mod error;
pub mod expansion;
pub mod line;
pub mod line_laws;
pub mod loader;
pub mod neutrality;
pub mod semantics;
pub mod text;
