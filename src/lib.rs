//! Bookkeeping for a dotfiles workspace: lexical path normalization, the
//! canonical keys derived from it, and the store that maps each managed
//! source file to the place it was relocated to inside the workspace.
use vstd::prelude::*;

pub mod error;
pub mod key;
pub mod order;
pub mod path;
pub mod store;
pub mod workspace;

verus! {

} // verus!
