//! Lexical path normalization and progress estimation for file-deletion
//! processes.
//!
//! The library is the pure core: it normalizes paths without touching the
//! filesystem, builds a lookup from normalized command-line arguments to
//! their positions, and matches open-descriptor paths against that lookup
//! by an ancestor walk.  Reading live process metadata is left to the
//! surrounding program.

use vstd::prelude::*;

pub mod lex;
pub mod procinfo;
pub mod progress;

verus! {

pub use lex::NormalizeError;
pub use lex::normalize_lexically;

} // verus!
