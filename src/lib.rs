//! Environment variables as editable text: a set of variables sorted by name,
//! its `name=value` text form, a parser for that form, and a diff that
//! classifies each variable as unchanged, modified, added or deleted.
use vstd::prelude::*;

pub mod diff;
pub mod parse;
pub mod record;
pub mod set;
pub mod text;

pub use diff::{diff, report, DiffEntry, DiffState};
pub use record::{EnvEditError, EnvVar};
pub use set::EnvVars;

verus! {

} // verus!
