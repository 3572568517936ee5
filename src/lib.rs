//! Finds duplicate files across directory listings: which pairs of files to
//! compare, how two files are compared, and which file each duplicate is a
//! copy of.
use vstd::prelude::*;

pub mod compare;
pub mod find;
pub mod pairs;
pub mod resolve;
pub mod scan;

verus! {

} // verus!
