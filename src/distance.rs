use vstd::laws_eq::obeys_concrete_eq;
use vstd::prelude::*;
use vstd::std_specs::cmp::PartialEqSpec;

use crate::matrix::DistanceMatrix;
use crate::model::{lemma_lev_prefix_step, lemma_lev_upper, lev, lev_prefix, min3};

verus! {

/// `m` is the complete distance table of `source` against `target`: one row per
/// prefix of the source, one column per prefix of the target, and each cell the
/// distance between the two prefixes.
pub open spec fn is_distance_table<T>(m: DistanceMatrix, source: Seq<T>, target: Seq<T>) -> bool {
    &&& m.well_formed()
    &&& m.num_rows() == source.len() + 1
    &&& m.num_cols() == target.len() + 1
    &&& forall|i: int, j: int|
        0 <= i <= source.len() && 0 <= j <= target.len() ==> #[trigger] m.at(i, j) == lev_prefix(
            source,
            target,
            i,
            j,
        )
}

/// The smallest of three values.
fn min_of_three(x: usize, y: usize, z: usize) -> (r: usize)
    ensures
        r == min3(x as nat, y as nat, z as nat),
{
    if x <= y && x <= z {
        x
    } else if y <= z {
        y
    } else {
        z
    }
}

/// Fills the distance table of `source` against `target` row by row and returns
/// the distance between the whole sequences together with the table.
pub fn levenshtein_memoization<T: Eq>(source: &[T], target: &[T]) -> (r: (usize, DistanceMatrix))
    requires
        obeys_concrete_eq::<T>(),
        (source@.len() + 1) * (target@.len() + 1) <= usize::MAX,
    ensures
        r.0 == lev(source@, target@),
        is_distance_table(r.1, source@, target@),
{
    let m: usize = source.len();
    let n: usize = target.len();
    proof {
        reveal(obeys_concrete_eq);
        assert((m + 1) * (n + 1) == m * n + m + n + 1) by (nonlinear_arith);
        assert(0 <= m * n) by (nonlinear_arith);
    }
    let rows: usize = m + 1;
    let cols: usize = n + 1;
    let mut table = DistanceMatrix::new(rows, cols);
    let mut i: usize = 0;
    while i < rows
        invariant
            obeys_concrete_eq::<T>(),
            T::obeys_eq_spec(),
            forall|x: T, y: T| x.eq_spec(&y) <==> (x == y),
            m + n + 1 <= usize::MAX,
            m == source@.len(),
            n == target@.len(),
            rows == m + 1,
            cols == n + 1,
            i <= rows,
            table.well_formed(),
            table.num_rows() == rows,
            table.num_cols() == cols,
            forall|a: int, b: int|
                0 <= a < i && 0 <= b < cols ==> #[trigger] table.at(a, b) == lev_prefix(
                    source@,
                    target@,
                    a,
                    b,
                ),
        decreases rows - i,
    {
        let mut j: usize = 0;
        while j < cols
            invariant
                T::obeys_eq_spec(),
                forall|x: T, y: T| x.eq_spec(&y) <==> (x == y),
                m + n + 1 <= usize::MAX,
                m == source@.len(),
                n == target@.len(),
                rows == m + 1,
                cols == n + 1,
                i < rows,
                j <= cols,
                table.well_formed(),
                table.num_rows() == rows,
                table.num_cols() == cols,
                forall|a: int, b: int|
                    0 <= a < i && 0 <= b < cols ==> #[trigger] table.at(a, b) == lev_prefix(
                        source@,
                        target@,
                        a,
                        b,
                    ),
                forall|b: int|
                    0 <= b < j ==> #[trigger] table.at(i as int, b) == lev_prefix(
                        source@,
                        target@,
                        i as int,
                        b,
                    ),
            decreases cols - j,
        {
            proof {
                lemma_lev_prefix_step(source@, target@, i as int, j as int);
                lemma_lev_upper(source@.take(i as int), target@.take(j as int));
            }
            let value: usize = if i == 0 {
                j
            } else if j == 0 {
                i
            } else {
                proof {
                    lemma_lev_upper(source@.take(i - 1), target@.take(j as int));
                    lemma_lev_upper(source@.take(i as int), target@.take(j - 1));
                    lemma_lev_upper(source@.take(i - 1), target@.take(j - 1));
                }
                let deletion = table.get(i - 1, j) + 1;
                let insertion = table.get(i, j - 1) + 1;
                let diagonal = table.get(i - 1, j - 1);
                let same = source[i - 1] == target[j - 1];
                let substitution = if same {
                    diagonal
                } else {
                    diagonal + 1
                };
                min_of_three(deletion, insertion, substitution)
            };
            table.set(i, j, value);
            j = j + 1;
        }
        i = i + 1;
    }
    let dist = table.get(m, n);
    proof {
        assert(source@.take(m as int) =~= source@);
        assert(target@.take(n as int) =~= target@);
    }
    (dist, table)
}

} // verus!
