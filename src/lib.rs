use vstd::prelude::*;

pub mod hex;
pub mod codec;
pub mod digest;
pub mod index;
pub mod object;
pub mod tree;
pub mod workspace;
pub mod status;
pub mod tree_diff;
pub mod migration;
pub mod refs;
pub mod commit;
pub mod revision;
pub mod add;
pub mod diff;

verus! {

} // verus!
