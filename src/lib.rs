use vstd::prelude::*;

pub mod error;
pub mod hunk;
pub mod ledger;
pub mod rewrite;
pub mod stack;
pub mod user;
pub mod workspace;

verus! {

} // verus!
