use vstd::laws_eq::obeys_concrete_eq;
use vstd::prelude::*;
use vstd::std_specs::cmp::PartialEqSpec;

use crate::distance::is_distance_table;
use crate::matrix::DistanceMatrix;
use crate::model::{lemma_lev_identity, lemma_lev_prefix_step, lev, lev_prefix};

verus! {

/// One step of an edit script. Positions are indices into the source and the
/// target sequence.
#[derive(Clone, Copy, Debug, PartialEq, Eq)]
pub enum EditOperation<T> {
    /// Source element at the first position is kept; it equals the target
    /// element at the second position.
    Match(usize, usize),
    /// Source element at the first position is replaced by the given element,
    /// which is the target element at the second position.
    Substitute(usize, usize, T),
    /// The given element, the target element at the position, is inserted.
    Insert(usize, T),
    /// Source element at the position is removed.
    Delete(usize),
}

/// Failures of edit reconstruction.
#[derive(Clone, Copy, Debug, PartialEq, Eq)]
pub enum EditError {
    /// The table's dimensions are not one more than the two sequences' lengths.
    DimensionMismatch,
}

/// How many scripts reconstruction produces.
#[derive(Clone, Copy, Debug, PartialEq, Eq)]
pub enum ReconstructionMode {
    /// One minimal script, chosen by the fixed tie-break order.
    Single,
    /// Every minimal script.
    All,
}

/// Source row the operation starts from, when it ends at source row `i`.
pub open spec fn prev_row<T>(op: EditOperation<T>, i: int) -> int {
    match op {
        EditOperation::Insert(_, _) => i,
        _ => i - 1,
    }
}

/// Target column the operation starts from, when it ends at target column `j`.
pub open spec fn prev_col<T>(op: EditOperation<T>, j: int) -> int {
    match op {
        EditOperation::Delete(_) => j,
        _ => j - 1,
    }
}

/// `op` is a correct step into the cell `(i, j)`: its positions are the ones it
/// consumes there, and the elements it keeps or writes are the target's.
pub open spec fn step_into<T>(s: Seq<T>, t: Seq<T>, op: EditOperation<T>, i: int, j: int) -> bool {
    &&& 0 <= i <= s.len()
    &&& 0 <= j <= t.len()
    &&& match op {
        EditOperation::Match(a, b) => a + 1 == i && b + 1 == j && s[a as int] == t[b as int],
        EditOperation::Substitute(a, b, x) => a + 1 == i && b + 1 == j && x == t[b as int],
        EditOperation::Insert(b, x) => b + 1 == j && x == t[b as int],
        EditOperation::Delete(a) => a + 1 == i,
    }
}

/// `ops`, applied in order, take the first `i0` source elements aligned with
/// the first `j0` target elements to the first `i` aligned with the first `j`.
pub open spec fn segment<T>(
    s: Seq<T>,
    t: Seq<T>,
    ops: Seq<EditOperation<T>>,
    i0: int,
    j0: int,
    i: int,
    j: int,
) -> bool
    decreases ops.len(),
{
    if ops.len() == 0 {
        i == i0 && j == j0
    } else {
        &&& step_into(s, t, ops.last(), i, j)
        &&& segment(
            s,
            t,
            ops.drop_last(),
            i0,
            j0,
            prev_row(ops.last(), i),
            prev_col(ops.last(), j),
        )
    }
}

/// `ops` is an edit script that turns the whole of `s` into the whole of `t`.
pub open spec fn is_script<T>(s: Seq<T>, t: Seq<T>, ops: Seq<EditOperation<T>>) -> bool {
    segment(s, t, ops, 0, 0, s.len() as int, t.len() as int)
}

/// Cost of one operation: zero for a match, one otherwise.
pub open spec fn op_cost<T>(op: EditOperation<T>) -> nat {
    match op {
        EditOperation::Match(_, _) => 0,
        _ => 1,
    }
}

/// Number of operations in `ops` that are not matches.
pub open spec fn cost<T>(ops: Seq<EditOperation<T>>) -> nat
    decreases ops.len(),
{
    if ops.len() == 0 {
        0
    } else {
        cost(ops.drop_last()) + op_cost(ops.last())
    }
}

/// What one operation writes to the output when applied to `s`.
pub open spec fn op_output<T>(s: Seq<T>, op: EditOperation<T>) -> Seq<T> {
    match op {
        EditOperation::Match(a, _) => seq![s[a as int]],
        EditOperation::Substitute(_, _, x) => seq![x],
        EditOperation::Insert(_, x) => seq![x],
        EditOperation::Delete(_) => Seq::empty(),
    }
}

/// The sequence produced by applying `ops` in order to `s`.
pub open spec fn apply<T>(s: Seq<T>, ops: Seq<EditOperation<T>>) -> Seq<T>
    decreases ops.len(),
{
    if ops.len() == 0 {
        Seq::empty()
    } else {
        apply(s, ops.drop_last()) + op_output(s, ops.last())
    }
}

/// Every source position that a match in `ops` keeps lies inside a source of length `n`.
pub open spec fn matches_within<T>(ops: Seq<EditOperation<T>>, n: int) -> bool {
    forall|k: int|
        0 <= k < ops.len() ==> match #[trigger] ops[k] {
            EditOperation::Match(a, _) => a < n,
            _ => true,
        }
}

/// Two segments that meet at a cell join into one.
pub proof fn lemma_segment_concat<T>(
    s: Seq<T>,
    t: Seq<T>,
    p: Seq<EditOperation<T>>,
    q: Seq<EditOperation<T>>,
    i0: int,
    j0: int,
    i1: int,
    j1: int,
    i2: int,
    j2: int,
)
    requires
        segment(s, t, p, i0, j0, i1, j1),
        segment(s, t, q, i1, j1, i2, j2),
    ensures
        segment(s, t, p + q, i0, j0, i2, j2),
        cost(p + q) == cost(p) + cost(q),
    decreases q.len(),
{
    if q.len() == 0 {
        assert(p + q =~= p);
    } else {
        let o = q.last();
        assert((p + q).drop_last() =~= p + q.drop_last());
        assert((p + q).last() == o);
        lemma_segment_concat(s, t, p, q.drop_last(), i0, j0, i1, j1, prev_row(o, i2), prev_col(o, j2));
    }
}

/// A segment from the origin ends inside the table and matches stay inside the source.
pub proof fn lemma_segment_bounds<T>(s: Seq<T>, t: Seq<T>, ops: Seq<EditOperation<T>>, i: int, j: int)
    requires
        segment(s, t, ops, 0, 0, i, j),
    ensures
        0 <= i <= s.len(),
        0 <= j <= t.len(),
        matches_within(ops, s.len() as int),
    decreases ops.len(),
{
    if ops.len() > 0 {
        let o = ops.last();
        lemma_segment_bounds(s, t, ops.drop_last(), prev_row(o, i), prev_col(o, j));
        assert forall|k: int| 0 <= k < ops.len() implies match #[trigger] ops[k] {
            EditOperation::Match(a, _) => a < s.len(),
            _ => true,
        } by {
            if k < ops.len() - 1 {
                assert(ops[k] == ops.drop_last()[k]);
            }
        }
    }
}

/// Applying a segment from the origin to `(i, j)` writes the first `j` target elements.
pub proof fn lemma_segment_output<T>(s: Seq<T>, t: Seq<T>, ops: Seq<EditOperation<T>>, i: int, j: int)
    requires
        segment(s, t, ops, 0, 0, i, j),
    ensures
        apply(s, ops) =~= t.take(j),
    decreases ops.len(),
{
    if ops.len() > 0 {
        let o = ops.last();
        lemma_segment_output(s, t, ops.drop_last(), prev_row(o, i), prev_col(o, j));
        lemma_segment_bounds(s, t, ops, i, j);
        if o is Delete {
        } else {
            assert(t.take(j) =~= t.take(j - 1).push(t[j - 1]));
        }
    }
}

/// No segment from the origin to `(i, j)` costs less than the distance of the prefixes.
pub proof fn lemma_segment_cost_lower<T>(s: Seq<T>, t: Seq<T>, ops: Seq<EditOperation<T>>, i: int, j: int)
    requires
        segment(s, t, ops, 0, 0, i, j),
    ensures
        cost(ops) >= lev_prefix(s, t, i, j),
    decreases ops.len(),
{
    lemma_segment_bounds(s, t, ops, i, j);
    if ops.len() == 0 {
        lemma_lev_prefix_step(s, t, 0, 0);
    } else {
        let o = ops.last();
        lemma_segment_cost_lower(s, t, ops.drop_last(), prev_row(o, i), prev_col(o, j));
        lemma_lev_prefix_step(s, t, i, j);
        if i == 0 {
            lemma_lev_prefix_step(s, t, i, j - 1);
        } else if j == 0 {
            lemma_lev_prefix_step(s, t, i - 1, j);
        }
    }
}

/// One step into `(i, j)` is a segment on its own.
proof fn lemma_single_step<T>(s: Seq<T>, t: Seq<T>, op: EditOperation<T>, i: int, j: int)
    requires
        step_into(s, t, op, i, j),
    ensures
        segment(s, t, seq![op], prev_row(op, i), prev_col(op, j), i, j),
        cost(seq![op]) == op_cost(op),
{
    let e = Seq::<EditOperation<T>>::empty();
    assert(seq![op].drop_last() =~= e);
    assert(seq![op].last() == op);
    assert(segment(s, t, e, prev_row(op, i), prev_col(op, j), prev_row(op, i), prev_col(op, j)));
    assert(cost(e) == 0);
}

/// `table` has one row per prefix of a source of length `m` and one column per
/// prefix of a target of length `n`.
fn dimensions_match(table: &DistanceMatrix, m: usize, n: usize) -> (r: bool)
    ensures
        r == (table.num_rows() == m + 1 && table.num_cols() == n + 1),
{
    let rows = table.rows();
    let cols = table.cols();
    rows > 0 && cols > 0 && rows - 1 == m && cols - 1 == n
}

/// The operation that the single-script backtrace takes into cell `(i, j)`,
/// and the cell it comes from. A match is taken where the elements agree and
/// the diagonal neighbour holds the same value; otherwise a substitution, a
/// deletion and an insertion are tried in that order.
fn backtrace_step<T: Eq + Copy>(
    source: &[T],
    target: &[T],
    table: &DistanceMatrix,
    i: usize,
    j: usize,
) -> (r: (EditOperation<T>, usize, usize))
    requires
        T::obeys_eq_spec(),
        forall|x: T, y: T| x.eq_spec(&y) <==> (x == y),
        table.well_formed(),
        table.num_rows() == source@.len() + 1,
        table.num_cols() == target@.len() + 1,
        i <= source@.len(),
        j <= target@.len(),
        i > 0 || j > 0,
    ensures
        step_into(source@, target@, r.0, i as int, j as int),
        r.1 == prev_row(r.0, i as int),
        r.2 == prev_col(r.0, j as int),
        is_distance_table(*table, source@, target@) ==> lev_prefix(
            source@,
            target@,
            i as int,
            j as int,
        ) == op_cost(r.0) + lev_prefix(source@, target@, r.1 as int, r.2 as int),
{
    proof {
        lemma_lev_prefix_step(source@, target@, i as int, j as int);
    }
    if i == 0 {
        proof {
            lemma_lev_prefix_step(source@, target@, 0, j - 1);
        }
        return (EditOperation::Insert(j - 1, target[j - 1]), i, j - 1);
    }
    if j == 0 {
        proof {
            lemma_lev_prefix_step(source@, target@, i - 1, 0);
        }
        return (EditOperation::Delete(i - 1), i - 1, j);
    }
    let cur = table.get(i, j);
    let diag = table.get(i - 1, j - 1);
    let up = table.get(i - 1, j);
    if source[i - 1] == target[j - 1] && cur == diag {
        (EditOperation::Match(i - 1, j - 1), i - 1, j - 1)
    } else if cur > 0 && cur - 1 == diag {
        (EditOperation::Substitute(i - 1, j - 1, target[j - 1]), i - 1, j - 1)
    } else if cur > 0 && cur - 1 == up {
        (EditOperation::Delete(i - 1), i - 1, j)
    } else {
        (EditOperation::Insert(j - 1, target[j - 1]), i, j - 1)
    }
}

/// Reconstructs one minimal edit script from a distance table by walking back
/// from the last cell to the first, preferring a match, then a substitution,
/// then a deletion, then an insertion.
///
/// The script is correct for any table of the right dimensions; it is minimal
/// when the table is the distance table of the two sequences.
pub fn generate_edits<T: Eq + Copy>(source: &[T], target: &[T], table: &DistanceMatrix) -> (r:
    Result<Vec<EditOperation<T>>, EditError>)
    requires
        obeys_concrete_eq::<T>(),
        table.well_formed(),
    ensures
        r is Err <==> !(table.num_rows() == source@.len() + 1 && table.num_cols() == target@.len()
            + 1),
        r is Err ==> r == Err::<Vec<EditOperation<T>>, EditError>(EditError::DimensionMismatch),
        r matches Ok(ops) ==> is_script(source@, target@, ops@),
        r matches Ok(ops) ==> (is_distance_table(*table, source@, target@) ==> cost(ops@) == lev(
            source@,
            target@,
        )),
{
    proof {
        reveal(obeys_concrete_eq);
    }
    let m = source.len();
    let n = target.len();
    if !dimensions_match(table, m, n) {
        return Err(EditError::DimensionMismatch);
    }
    let ghost s = source@;
    let ghost t = target@;
    let ghost consistent = is_distance_table(*table, s, t);
    let ghost mut suffix: Seq<EditOperation<T>> = Seq::empty();
    let mut reversed: Vec<EditOperation<T>> = Vec::new();
    let mut i: usize = m;
    let mut j: usize = n;
    while i > 0 || j > 0
        invariant
            T::obeys_eq_spec(),
            forall|x: T, y: T| x.eq_spec(&y) <==> (x == y),
            s == source@,
            t == target@,
            m == s.len(),
            n == t.len(),
            consistent == is_distance_table(*table, s, t),
            table.well_formed(),
            table.num_rows() == m + 1,
            table.num_cols() == n + 1,
            i <= m,
            j <= n,
            segment(s, t, suffix, i as int, j as int, m as int, n as int),
            consistent ==> cost(suffix) + lev_prefix(s, t, i as int, j as int) == lev_prefix(
                s,
                t,
                m as int,
                n as int,
            ),
            reversed@.len() == suffix.len(),
            forall|y: int|
                0 <= y < reversed@.len() ==> #[trigger] reversed@[y] == suffix[suffix.len() - 1
                    - y],
        decreases i + j,
    {
        let (op, ni, nj) = backtrace_step(source, target, table, i, j);
        proof {
            lemma_single_step(s, t, op, i as int, j as int);
            lemma_segment_concat(
                s,
                t,
                seq![op],
                suffix,
                ni as int,
                nj as int,
                i as int,
                j as int,
                m as int,
                n as int,
            );
            suffix = seq![op] + suffix;
        }
        reversed.push(op);
        i = ni;
        j = nj;
    }
    let mut script: Vec<EditOperation<T>> = Vec::new();
    while reversed.len() > 0
        invariant
            script@.len() + reversed@.len() == suffix.len(),
            forall|x: int| 0 <= x < script@.len() ==> #[trigger] script@[x] == suffix[x],
            forall|y: int|
                0 <= y < reversed@.len() ==> #[trigger] reversed@[y] == suffix[suffix.len() - 1
                    - y],
        decreases reversed@.len(),
    {
        let op = reversed.pop().unwrap();
        script.push(op);
    }
    proof {
        assert(script@ =~= suffix);
        assert(s.take(m as int) =~= s);
        assert(t.take(n as int) =~= t);
    }
    Ok(script)
}

/// Applies the operations of `script` in order to `source` and returns what
/// they write: matched source elements, substituted and inserted elements.
pub fn apply_edits<T: Copy>(source: &[T], script: &[EditOperation<T>]) -> (r: Vec<T>)
    requires
        matches_within(script@, source@.len() as int),
    ensures
        r@ == apply(source@, script@),
{
    let mut out: Vec<T> = Vec::new();
    let mut k: usize = 0;
    while k < script.len()
        invariant
            matches_within(script@, source@.len() as int),
            k <= script@.len(),
            out@ == apply(source@, script@.take(k as int)),
        decreases script@.len() - k,
    {
        proof {
            assert(script@.take(k + 1).drop_last() =~= script@.take(k as int));
            assert(script@.take(k + 1).last() == script@[k as int]);
        }
        match script[k] {
            EditOperation::Match(a, _) => {
                out.push(source[a]);
            },
            EditOperation::Substitute(_, _, x) => {
                out.push(x);
            },
            EditOperation::Insert(_, x) => {
                out.push(x);
            },
            EditOperation::Delete(_) => {},
        }
        proof {
            assert(out@ =~= apply(source@, script@.take(k + 1)));
        }
        k = k + 1;
    }
    proof {
        assert(script@.take(k as int) =~= script@);
    }
    out
}

/// Round trip: applying any edit script from `s` to `t` to `s` yields exactly `t`.
pub proof fn lemma_script_round_trip<T>(s: Seq<T>, t: Seq<T>, ops: Seq<EditOperation<T>>)
    requires
        is_script(s, t, ops),
    ensures
        matches_within(ops, s.len() as int),
        apply(s, ops) == t,
{
    lemma_segment_bounds(s, t, ops, s.len() as int, t.len() as int);
    lemma_segment_output(s, t, ops, s.len() as int, t.len() as int);
    assert(t.take(t.len() as int) =~= t);
}

/// Minimality: every edit script from `s` to `t` has at least as many
/// non-match operations as the distance between them.
pub proof fn lemma_script_cost_lower<T>(s: Seq<T>, t: Seq<T>, ops: Seq<EditOperation<T>>)
    requires
        is_script(s, t, ops),
    ensures
        cost(ops) >= lev(s, t),
{
    lemma_segment_cost_lower(s, t, ops, s.len() as int, t.len() as int);
    assert(s.take(s.len() as int) =~= s);
    assert(t.take(t.len() as int) =~= t);
}

/// A script from a sequence to itself that costs its distance consists of matches only.
pub proof fn lemma_identity_script<T>(s: Seq<T>, ops: Seq<EditOperation<T>>)
    requires
        is_script(s, s, ops),
        cost(ops) == lev(s, s),
    ensures
        lev(s, s) == 0,
        forall|k: int| 0 <= k < ops.len() ==> #[trigger] ops[k] is Match,
{
    lemma_lev_identity(s);
    lemma_zero_cost_all_match(ops);
}

/// A script without cost is made of matches.
proof fn lemma_zero_cost_all_match<T>(ops: Seq<EditOperation<T>>)
    requires
        cost(ops) == 0,
    ensures
        forall|k: int| 0 <= k < ops.len() ==> #[trigger] ops[k] is Match,
    decreases ops.len(),
{
    if ops.len() > 0 {
        lemma_zero_cost_all_match(ops.drop_last());
        assert forall|k: int| 0 <= k < ops.len() implies #[trigger] ops[k] is Match by {
            if k < ops.len() - 1 {
                assert(ops[k] == ops.drop_last()[k]);
            }
        }
    }
}

/// Every script in `scripts` leads from the origin to the cell `(i, j)`.
pub open spec fn all_reach<T>(
    s: Seq<T>,
    t: Seq<T>,
    scripts: Seq<Vec<EditOperation<T>>>,
    i: int,
    j: int,
) -> bool {
    forall|x: int| 0 <= x < scripts.len() ==> segment(s, t, #[trigger] scripts[x]@, 0, 0, i, j)
}

/// Every script in `scripts` has `c` non-match operations.
pub open spec fn all_cost<T>(scripts: Seq<Vec<EditOperation<T>>>, c: nat) -> bool {
    forall|x: int| 0 <= x < scripts.len() ==> cost(#[trigger] scripts[x]@) == c
}

/// `ops` is one of `scripts`.
pub open spec fn holds<T>(scripts: Seq<Vec<EditOperation<T>>>, ops: Seq<EditOperation<T>>) -> bool {
    exists|x: int| 0 <= x < scripts.len() && #[trigger] scripts[x]@ == ops
}

/// Every script of least cost from the origin to `(i, j)` is among `scripts`.
pub open spec fn complete<T>(
    s: Seq<T>,
    t: Seq<T>,
    scripts: Seq<Vec<EditOperation<T>>>,
    i: int,
    j: int,
) -> bool {
    forall|ops: Seq<EditOperation<T>>|
        #[trigger] segment(s, t, ops, 0, 0, i, j) && cost(ops) == lev_prefix(s, t, i, j) ==> holds(
            scripts,
            ops,
        )
}

/// Every script of least cost from the origin to `(i, j)` that ends with `op`
/// is among `scripts`.
pub open spec fn covers<T>(
    s: Seq<T>,
    t: Seq<T>,
    scripts: Seq<Vec<EditOperation<T>>>,
    op: EditOperation<T>,
    i: int,
    j: int,
) -> bool {
    forall|ops: Seq<EditOperation<T>>|
        #[trigger] segment(s, t, ops, 0, 0, i, j) && ops.len() > 0 && ops.last() == op && cost(ops)
            == lev_prefix(s, t, i, j) ==> holds(scripts, ops)
}

/// The last step of a least-cost segment is tight: what comes before it is of
/// least cost too, and the step adds exactly the difference of the distances.
proof fn lemma_last_step_tight<T>(s: Seq<T>, t: Seq<T>, ops: Seq<EditOperation<T>>, i: int, j: int)
    requires
        segment(s, t, ops, 0, 0, i, j),
        cost(ops) == lev_prefix(s, t, i, j),
        ops.len() > 0,
    ensures
        ({
            let o = ops.last();
            let pi = prev_row(o, i);
            let pj = prev_col(o, j);
            &&& segment(s, t, ops.drop_last(), 0, 0, pi, pj)
            &&& cost(ops.drop_last()) == lev_prefix(s, t, pi, pj)
            &&& lev_prefix(s, t, i, j) == op_cost(o) + lev_prefix(s, t, pi, pj)
        }),
{
    let o = ops.last();
    let pi = prev_row(o, i);
    let pj = prev_col(o, j);
    lemma_segment_bounds(s, t, ops, i, j);
    lemma_segment_cost_lower(s, t, ops.drop_last(), pi, pj);
    lemma_lev_prefix_step(s, t, i, j);
    if i == 0 {
        lemma_lev_prefix_step(s, t, i, j - 1);
    } else if j == 0 {
        lemma_lev_prefix_step(s, t, i - 1, j);
    }
}

/// Appends to `out`, for each script in `sub`, that script followed by `op`.
fn extend_each<T: Copy>(
    out: &mut Vec<Vec<EditOperation<T>>>,
    sub: Vec<Vec<EditOperation<T>>>,
    op: EditOperation<T>,
)
    ensures
        final(out)@.len() == old(out)@.len() + sub@.len(),
        forall|x: int| 0 <= x < old(out)@.len() ==> #[trigger] final(out)@[x] == old(out)@[x],
        forall|k: int|
            0 <= k < sub@.len() ==> final(out)@[old(out)@.len() + sub@.len() - 1 - k]@ == (
            #[trigger] sub@[k])@.push(op),
{
    let ghost before = out@;
    let ghost all = sub@;
    let mut rest = sub;
    while rest.len() > 0
        invariant
            rest@.len() <= all.len(),
            forall|k: int| 0 <= k < rest@.len() ==> #[trigger] rest@[k] == all[k],
            out@.len() == before.len() + all.len() - rest@.len(),
            forall|x: int| 0 <= x < before.len() ==> #[trigger] out@[x] == before[x],
            forall|k: int|
                rest@.len() <= k < all.len() ==> out@[before.len() + all.len() - 1 - k]@ == (
                #[trigger] all[k])@.push(op),
        decreases rest@.len(),
    {
        let mut script = rest.pop().unwrap();
        script.push(op);
        out.push(script);
    }
}

/// What appending `sub`, each followed by the step `op` into `(i, j)`, to
/// `before` gives: scripts into `(i, j)`, of least cost and covering every
/// least-cost script that ends with `op` when the table is the distance table.
proof fn lemma_branch<T>(
    s: Seq<T>,
    t: Seq<T>,
    before: Seq<Vec<EditOperation<T>>>,
    sub: Seq<Vec<EditOperation<T>>>,
    after: Seq<Vec<EditOperation<T>>>,
    op: EditOperation<T>,
    i: int,
    j: int,
    consistent: bool,
)
    requires
        after.len() == before.len() + sub.len(),
        forall|x: int| 0 <= x < before.len() ==> #[trigger] after[x] == before[x],
        forall|k: int|
            0 <= k < sub.len() ==> after[before.len() + sub.len() - 1 - k]@ == (#[trigger] sub[k])@.push(
                op,
            ),
        step_into(s, t, op, i, j),
        all_reach(s, t, before, i, j),
        all_reach(s, t, sub, prev_row(op, i), prev_col(op, j)),
        consistent ==> all_cost(before, lev_prefix(s, t, i, j)),
        consistent ==> all_cost(sub, lev_prefix(s, t, prev_row(op, i), prev_col(op, j))),
        consistent ==> complete(s, t, sub, prev_row(op, i), prev_col(op, j)),
        consistent ==> sub.len() > 0,
        consistent ==> lev_prefix(s, t, i, j) == op_cost(op) + lev_prefix(
            s,
            t,
            prev_row(op, i),
            prev_col(op, j),
        ),
    ensures
        after.len() >= before.len(),
        all_reach(s, t, after, i, j),
        consistent ==> all_cost(after, lev_prefix(s, t, i, j)),
        consistent ==> covers(s, t, after, op, i, j),
        consistent ==> after.len() > 0,
        forall|op2: EditOperation<T>|
            covers(s, t, before, op2, i, j) ==> #[trigger] covers(s, t, after, op2, i, j),
{
    let pi = prev_row(op, i);
    let pj = prev_col(op, j);
    assert forall|x: int| 0 <= x < after.len() implies segment(s, t, #[trigger] after[x]@, 0, 0, i, j)
        && (consistent ==> cost(after[x]@) == lev_prefix(s, t, i, j)) by {
        if x >= before.len() {
            let k = before.len() + sub.len() - 1 - x;
            assert(after[x]@ == sub[k]@.push(op));
            assert(segment(s, t, sub[k]@, 0, 0, pi, pj));
            assert(sub[k]@.push(op).drop_last() =~= sub[k]@);
        } else {
            assert(after[x] == before[x]);
        }
    }
    if consistent {
        assert forall|ops: Seq<EditOperation<T>>|
            #[trigger] segment(s, t, ops, 0, 0, i, j) && ops.len() > 0 && ops.last() == op && cost(ops)
                == lev_prefix(s, t, i, j) implies holds(after, ops) by {
            lemma_last_step_tight(s, t, ops, i, j);
            let p = ops.drop_last();
            assert(holds(sub, p));
            let k = choose|k: int| 0 <= k < sub.len() && #[trigger] sub[k]@ == p;
            assert(after[before.len() + sub.len() - 1 - k]@ =~= ops);
        }
        assert(after[before.len() + sub.len() - 1 - 0]@ == sub[0]@.push(op));
    }
    assert forall|op2: EditOperation<T>| covers(s, t, before, op2, i, j) implies #[trigger] covers(
        s,
        t,
        after,
        op2,
        i,
        j,
    ) by {
        assert forall|ops: Seq<EditOperation<T>>|
            #[trigger] segment(s, t, ops, 0, 0, i, j) && ops.len() > 0 && ops.last() == op2 && cost(
                ops,
            ) == lev_prefix(s, t, i, j) implies holds(after, ops) by {
            assert(holds(before, ops));
            let x = choose|x: int| 0 <= x < before.len() && #[trigger] before[x]@ == ops;
            assert(after[x] == before[x]);
        }
    }
}

/// Every script that the enumeration produces for the cell `(i, j)`: one per
/// path back to the origin through neighbours that account for the cell's value.
fn all_scripts_to<T: Eq + Copy>(
    source: &[T],
    target: &[T],
    table: &DistanceMatrix,
    i: usize,
    j: usize,
) -> (r: Vec<Vec<EditOperation<T>>>)
    requires
        T::obeys_eq_spec(),
        forall|x: T, y: T| x.eq_spec(&y) <==> (x == y),
        table.well_formed(),
        table.num_rows() == source@.len() + 1,
        table.num_cols() == target@.len() + 1,
        i <= source@.len(),
        j <= target@.len(),
    ensures
        all_reach(source@, target@, r@, i as int, j as int),
        is_distance_table(*table, source@, target@) ==> all_cost(
            r@,
            lev_prefix(source@, target@, i as int, j as int),
        ),
        is_distance_table(*table, source@, target@) ==> complete(
            source@,
            target@,
            r@,
            i as int,
            j as int,
        ),
        is_distance_table(*table, source@, target@) ==> r@.len() > 0,
    decreases i + j,
{
    let ghost s = source@;
    let ghost t = target@;
    let ghost consistent = is_distance_table(*table, s, t);
    let ghost ii = i as int;
    let ghost jj = j as int;
    proof {
        lemma_lev_prefix_step(s, t, ii, jj);
    }
    if i == 0 && j == 0 {
        let mut r: Vec<Vec<EditOperation<T>>> = Vec::new();
        r.push(Vec::new());
        proof {
            assert forall|ops: Seq<EditOperation<T>>|
                #[trigger] segment(s, t, ops, 0, 0, 0, 0) && cost(ops) == lev_prefix(
                    s,
                    t,
                    0,
                    0,
                ) implies holds(r@, ops) by {
                if ops.len() > 0 {
                    assert(step_into(s, t, ops.last(), 0, 0));
                }
                assert(r@[0]@ =~= ops);
            }
            assert(segment(s, t, r@[0]@, 0, 0, 0, 0));
        }
        return r;
    }
    let mut out: Vec<Vec<EditOperation<T>>> = Vec::new();
    let ghost m_op = EditOperation::<T>::Match((i - 1) as usize, (j - 1) as usize);
    let ghost s_op = EditOperation::<T>::Substitute(
        (i - 1) as usize,
        (j - 1) as usize,
        t[j - 1],
    );
    let ghost d_op = EditOperation::<T>::Delete((i - 1) as usize);
    let ghost i_op = EditOperation::<T>::Insert((j - 1) as usize, t[j - 1]);
    let ghost take_match = ii > 0 && jj > 0 && s[ii - 1] == t[jj - 1] && table.at(ii, jj)
        == table.at(ii - 1, jj - 1);
    let ghost take_subst = ii > 0 && jj > 0 && table.at(ii, jj) > 0 && table.at(ii, jj) - 1
        == table.at(ii - 1, jj - 1);
    let ghost take_delete = ii > 0 && (jj == 0 || table.at(ii, jj) > 0 && table.at(ii, jj) - 1
        == table.at(ii - 1, jj));
    let ghost take_insert = jj > 0 && (ii == 0 || table.at(ii, jj) > 0 && table.at(ii, jj) - 1
        == table.at(ii, jj - 1));
    if i > 0 && j > 0 {
        let cur = table.get(i, j);
        let diag = table.get(i - 1, j - 1);
        if source[i - 1] == target[j - 1] && cur == diag {
            let sub = all_scripts_to(source, target, table, i - 1, j - 1);
            let op = EditOperation::Match(i - 1, j - 1);
            let ghost before = out@;
            let ghost sub_view = sub@;
            extend_each(&mut out, sub, op);
            proof {
                lemma_lev_prefix_step(s, t, ii - 1, jj - 1);
                lemma_branch(s, t, before, sub_view, out@, op, ii, jj, consistent);
            }
        }
        if cur > 0 && cur - 1 == diag {
            let sub = all_scripts_to(source, target, table, i - 1, j - 1);
            let op = EditOperation::Substitute(i - 1, j - 1, target[j - 1]);
            let ghost before = out@;
            let ghost sub_view = sub@;
            extend_each(&mut out, sub, op);
            proof {
                lemma_branch(s, t, before, sub_view, out@, op, ii, jj, consistent);
            }
        }
    }
    assert(take_match ==> consistent ==> covers(s, t, out@, m_op, ii, jj) && out@.len() > 0);
    assert(take_subst ==> consistent ==> covers(s, t, out@, s_op, ii, jj) && out@.len() > 0);
    let delete_step = if i == 0 {
        false
    } else if j == 0 {
        true
    } else {
        let cur = table.get(i, j);
        let up = table.get(i - 1, j);
        cur > 0 && cur - 1 == up
    };
    if delete_step {
        let sub = all_scripts_to(source, target, table, i - 1, j);
        let op = EditOperation::Delete(i - 1);
        let ghost before = out@;
        let ghost sub_view = sub@;
        extend_each(&mut out, sub, op);
        proof {
            if j == 0 {
                lemma_lev_prefix_step(s, t, ii - 1, 0);
            }
            lemma_branch(s, t, before, sub_view, out@, op, ii, jj, consistent);
        }
    }
    assert(take_match ==> consistent ==> covers(s, t, out@, m_op, ii, jj) && out@.len() > 0);
    assert(take_subst ==> consistent ==> covers(s, t, out@, s_op, ii, jj) && out@.len() > 0);
    assert(take_delete ==> consistent ==> covers(s, t, out@, d_op, ii, jj) && out@.len() > 0);
    let insert_step = if j == 0 {
        false
    } else if i == 0 {
        true
    } else {
        let cur = table.get(i, j);
        let left = table.get(i, j - 1);
        cur > 0 && cur - 1 == left
    };
    if insert_step {
        let sub = all_scripts_to(source, target, table, i, j - 1);
        let op = EditOperation::Insert(j - 1, target[j - 1]);
        let ghost before = out@;
        let ghost sub_view = sub@;
        extend_each(&mut out, sub, op);
        proof {
            if i == 0 {
                lemma_lev_prefix_step(s, t, 0, jj - 1);
            }
            lemma_branch(s, t, before, sub_view, out@, op, ii, jj, consistent);
        }
    }
    proof {
        assert(take_match ==> consistent ==> covers(s, t, out@, m_op, ii, jj) && out@.len() > 0);
        assert(take_subst ==> consistent ==> covers(s, t, out@, s_op, ii, jj) && out@.len() > 0);
        assert(take_delete ==> consistent ==> covers(s, t, out@, d_op, ii, jj) && out@.len() > 0);
        assert(take_insert ==> consistent ==> covers(s, t, out@, i_op, ii, jj) && out@.len() > 0);
        if consistent {
            assert forall|ops: Seq<EditOperation<T>>|
                #[trigger] segment(s, t, ops, 0, 0, ii, jj) && cost(ops) == lev_prefix(
                    s,
                    t,
                    ii,
                    jj,
                ) implies holds(out@, ops) by {
                assert(ops.len() > 0);
                lemma_last_step_tight(s, t, ops, ii, jj);
                let o = ops.last();
                match o {
                    EditOperation::Match(_, _) => {
                        assert(o == m_op);
                    },
                    EditOperation::Substitute(_, _, _) => {
                        assert(o == s_op);
                    },
                    EditOperation::Delete(_) => {
                        assert(o == d_op);
                    },
                    EditOperation::Insert(_, _) => {
                        assert(o == i_op);
                    },
                }
            }
            if ii > 0 && jj > 0 {
                lemma_lev_prefix_step(s, t, ii - 1, jj - 1);
            }
        }
    }
    out
}

/// Reconstructs every minimal edit script from a distance table: the walk back
/// from the last cell branches on each neighbour that accounts for the cell's
/// value. The number of scripts can grow exponentially with the lengths.
///
/// Every script is correct for any table of the right dimensions; when the
/// table is the distance table of the two sequences, the scripts are exactly
/// the edit scripts of least cost.
pub fn all_edit_scripts<T: Eq + Copy>(source: &[T], target: &[T], table: &DistanceMatrix) -> (r:
    Result<Vec<Vec<EditOperation<T>>>, EditError>)
    requires
        obeys_concrete_eq::<T>(),
        table.well_formed(),
    ensures
        r is Err <==> !(table.num_rows() == source@.len() + 1 && table.num_cols() == target@.len()
            + 1),
        r is Err ==> r == Err::<Vec<Vec<EditOperation<T>>>, EditError>(
            EditError::DimensionMismatch,
        ),
        r matches Ok(scripts) ==> forall|x: int|
            0 <= x < scripts@.len() ==> is_script(source@, target@, #[trigger] scripts@[x]@),
        r matches Ok(scripts) ==> (is_distance_table(*table, source@, target@) ==> {
            &&& scripts@.len() > 0
            &&& all_cost(scripts@, lev(source@, target@))
            &&& forall|ops: Seq<EditOperation<T>>|
                #[trigger] is_script(source@, target@, ops) && cost(ops) == lev(source@, target@)
                    ==> holds(scripts@, ops)
        }),
{
    proof {
        reveal(obeys_concrete_eq);
    }
    let m = source.len();
    let n = target.len();
    if !dimensions_match(table, m, n) {
        return Err(EditError::DimensionMismatch);
    }
    let scripts = all_scripts_to(source, target, table, m, n);
    proof {
        assert(source@.take(m as int) =~= source@);
        assert(target@.take(n as int) =~= target@);
    }
    Ok(scripts)
}

/// Reconstructs edit scripts from a distance table: one chosen by the fixed
/// tie-break order in `Single` mode, every minimal one in `All` mode.
pub fn reconstruct_edit_script<T: Eq + Copy>(
    source: &[T],
    target: &[T],
    table: &DistanceMatrix,
    mode: ReconstructionMode,
) -> (r: Result<Vec<Vec<EditOperation<T>>>, EditError>)
    requires
        obeys_concrete_eq::<T>(),
        table.well_formed(),
    ensures
        r is Err <==> !(table.num_rows() == source@.len() + 1 && table.num_cols() == target@.len()
            + 1),
        r is Err ==> r == Err::<Vec<Vec<EditOperation<T>>>, EditError>(
            EditError::DimensionMismatch,
        ),
        r matches Ok(scripts) ==> forall|x: int|
            0 <= x < scripts@.len() ==> is_script(source@, target@, #[trigger] scripts@[x]@),
        r matches Ok(scripts) ==> (mode == ReconstructionMode::Single ==> scripts@.len() == 1),
        r matches Ok(scripts) ==> (is_distance_table(*table, source@, target@) ==> {
            &&& scripts@.len() > 0
            &&& all_cost(scripts@, lev(source@, target@))
        }),
        r matches Ok(scripts) ==> (mode == ReconstructionMode::All && is_distance_table(
            *table,
            source@,
            target@,
        ) ==> forall|ops: Seq<EditOperation<T>>|
            #[trigger] is_script(source@, target@, ops) && cost(ops) == lev(source@, target@)
                ==> holds(scripts@, ops)),
{
    match mode {
        ReconstructionMode::Single => {
            match generate_edits(source, target, table) {
                Ok(script) => {
                    let mut scripts: Vec<Vec<EditOperation<T>>> = Vec::new();
                    scripts.push(script);
                    Ok(scripts)
                },
                Err(e) => Err(e),
            }
        },
        ReconstructionMode::All => all_edit_scripts(source, target, table),
    }
}

} // verus!
