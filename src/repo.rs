//! Locating a repository.
use vstd::prelude::*;

use crate::error::{JogenError, Result};

verus! {

/// The index of the first directory, from the starting one up through its
/// ancestors, that holds the control directory. `has_control_dir[i]` says
/// whether the `i`-th of them does; none doing so is an error.
pub fn find_root(has_control_dir: &Vec<bool>) -> (r: Result<usize>)
    ensures
        r matches Ok(i) ==> i < has_control_dir@.len() && has_control_dir@[i as int]
            && forall|j: int| 0 <= j < i ==> !#[trigger] has_control_dir@[j],
        r is Err <==> forall|j: int| 0 <= j < has_control_dir@.len() ==> !#[trigger] has_control_dir@[j],
        r is Err ==> r matches Err(JogenError::ProjectRootNotFound),
{
    let mut i: usize = 0;
    while i < has_control_dir.len()
        invariant
            i <= has_control_dir@.len(),
            forall|j: int| 0 <= j < i ==> !#[trigger] has_control_dir@[j],
        decreases has_control_dir@.len() - i,
    {
        if has_control_dir[i] {
            return Ok(i);
        }
        i = i + 1;
    }
    Err(JogenError::ProjectRootNotFound)
}

} // verus!
