//! The result of a skip-list traversal: whether the key was found, and for
//! every level the handles of the predecessor and successor between which
//! the key belongs.

use vstd::prelude::*;

verus! {

pub struct FindResult {
    pub success: bool,
    pub preds: Vec<usize>,
    pub succs: Vec<usize>,
}

} // verus!
