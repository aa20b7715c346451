//! Query and mutation engine of a version-control GUI: a paginated commit
//! graph layout, unified diff hunks, and hunk transplanting between commits.
use vstd::prelude::*;

pub mod bytes;
pub mod diff;
pub mod graph;
pub mod hunk;
pub mod refs;
pub mod text;
pub mod transplant;

verus! {

} // verus!
