pub mod distance;
pub mod edit;
pub mod matrix;
pub mod model;

pub use distance::levenshtein_memoization;
pub use edit::{
    all_edit_scripts, apply_edits, generate_edits, reconstruct_edit_script, EditError,
    EditOperation, ReconstructionMode,
};
pub use matrix::DistanceMatrix;

use vstd::laws_eq::obeys_concrete_eq;
use vstd::prelude::*;

use crate::distance::is_distance_table;
use crate::model::lev;

verus! {

/// The Levenshtein distance between `source` and `target`, together with the
/// full distance table, from which edit scripts can be reconstructed.
pub fn distance<T: Eq>(source: &[T], target: &[T]) -> (r: (usize, DistanceMatrix))
    requires
        obeys_concrete_eq::<T>(),
        (source@.len() + 1) * (target@.len() + 1) <= usize::MAX,
    ensures
        r.0 == lev(source@, target@),
        r.0 == r.1.at(source@.len() as int, target@.len() as int),
        is_distance_table(r.1, source@, target@),
{
    let r = levenshtein_memoization(source, target);
    proof {
        assert(source@.take(source@.len() as int) =~= source@);
        assert(target@.take(target@.len() as int) =~= target@);
    }
    r
}

} // verus!
