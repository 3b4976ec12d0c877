//! searchlight: a fast, parallel content search for the terminal.
//!
//! searchlight is a grep-style tool without dependencies. The crate is
//! organized as a pipeline of independent modules, and every function of it
//! states what it returns and is proved to do so:
//!
//! * [`args`] parses and validates the command line into a
//!   [`Config`](args::Config): long flags, clustered short flags and
//!   attached values.
//! * [`pattern`] is the matcher used for content patterns **and** for glob
//!   filters; it supports classes, quantifiers, alternation, anchors and word
//!   boundaries.
//! * [`filters`] combines `--glob`/`--exclude-glob`, size limits and a
//!   pragmatic subset of gitignore semantics, plus the NUL-byte binary
//!   sniff.
//! * [`walk`] decides which files of a directory tree are candidates, for any
//!   number of workers that share one queue.
//! * [`search`] scans each file, recording matches, their char spans and
//!   context windows.
//! * [`output`] renders results as plain or colored text, counts, file
//!   lists or JSON Lines; [`highlight`] paints the matched spans.
//! * [`stats`] and [`timer`] collect counters and wall-clock timings for
//!   `--stats`.
//! * [`error`] funnels every failure into one enum with stable exit codes
//!   (`0` matches found, `1` no matches, `2` error).
//! * [`program`] holds the decisions of the program itself.
//! * [`json`], [`lines`], [`paths`], [`sizes`], [`sorting`], [`duration`],
//!   [`double`] and [`text`] are the utility layers underneath.
//!
//! What the functions return is stated over mathematical models: spec
//! functions on sequences of characters, integers, sets and maps. What holds
//! of several functions together is stated by proof functions whose names
//! start with `law_`; those in [`results`] speak of the calls themselves.
//!
//! # Exit codes
//!
//! | Code | Meaning                                 |
//! |------|-----------------------------------------|
//! | 0    | at least one match was found            |
//! | 1    | no matches were found                   |
//! | 2    | an error occurred (bad args, I/O, ...)  |

use vstd::prelude::*;

pub mod args;
pub mod double;
pub mod duration;
pub mod error;
pub mod filters;
pub mod highlight;
pub mod json;
pub mod lines;
pub mod output;
pub mod paths;
pub mod pattern;
pub mod program;
pub mod results;
pub mod search;
pub mod sizes;
pub mod sorting;
pub mod stats;
pub mod text;
pub mod timer;
pub mod walk;

verus! {

/// The version of the crate.
pub const VERSION: &'static str = "1.0.0";

/// One-line description used by `--help` and `--version` output.
pub const TAGLINE: &'static str = "Fast, parallel content search for the terminal";

} // verus!
