//! Supervision of an externally supplied, long-running server process: its
//! launch specification, output-driven endpoint discovery, readiness gating
//! and escalating shutdown, together with the text parsing behind the
//! version-control, settings and skills-catalog features built around it.
//! Process control, networking and file access belong to the caller; every
//! decision and every parser lives here, verified.

use vstd::prelude::*;

pub mod chars;
pub mod git;
pub mod gitopts;
pub mod gitfile;
pub mod laws;
mod path_rewrite;
pub mod scan;
pub mod settings;
pub mod shellenv;
pub mod skills;
pub mod strutil;
pub mod supervisor;

pub use path_rewrite::rewrite_path;
