use vstd::prelude::*;

verus! {

/// The smallest of three naturals.
pub open spec fn min3(x: nat, y: nat, z: nat) -> nat {
    if x <= y && x <= z {
        x
    } else if y <= z {
        y
    } else {
        z
    }
}

/// Cost of aligning element `x` of the source with element `y` of the target:
/// nothing when they are equal, one substitution otherwise.
pub open spec fn subst_cost<T>(x: T, y: T) -> nat {
    if x == y {
        0
    } else {
        1
    }
}

/// The Levenshtein distance: the fewest single-element insertions, deletions
/// and substitutions that turn `a` into `b`.
pub open spec fn lev<T>(a: Seq<T>, b: Seq<T>) -> nat
    decreases a.len() + b.len(),
{
    if a.len() == 0 {
        b.len()
    } else if b.len() == 0 {
        a.len()
    } else {
        min3(
            lev(a.drop_last(), b) + 1,
            lev(a, b.drop_last()) + 1,
            lev(a.drop_last(), b.drop_last()) + subst_cost(a.last(), b.last()),
        )
    }
}

/// The distance between the first `i` elements of `a` and the first `j` elements of `b`.
pub open spec fn lev_prefix<T>(a: Seq<T>, b: Seq<T>, i: int, j: int) -> nat {
    lev(a.take(i), b.take(j))
}

/// The distance between prefixes follows the recurrence on their last elements,
/// and is the prefix length on the empty border.
pub proof fn lemma_lev_prefix_step<T>(a: Seq<T>, b: Seq<T>, i: int, j: int)
    requires
        0 <= i <= a.len(),
        0 <= j <= b.len(),
    ensures
        i == 0 ==> lev_prefix(a, b, i, j) == j,
        i > 0 && j == 0 ==> lev_prefix(a, b, i, j) == i,
        i > 0 && j > 0 ==> lev_prefix(a, b, i, j) == min3(
            lev_prefix(a, b, i - 1, j) + 1,
            lev_prefix(a, b, i, j - 1) + 1,
            lev_prefix(a, b, i - 1, j - 1) + subst_cost(a[i - 1], b[j - 1]),
        ),
{
    if i > 0 && j > 0 {
        assert(a.take(i).drop_last() =~= a.take(i - 1));
        assert(b.take(j).drop_last() =~= b.take(j - 1));
    }
}

/// The distance never exceeds the two lengths together.
pub proof fn lemma_lev_upper<T>(a: Seq<T>, b: Seq<T>)
    ensures
        lev(a, b) <= a.len() + b.len(),
    decreases a.len() + b.len(),
{
    if a.len() > 0 && b.len() > 0 {
        lemma_lev_upper(a.drop_last(), b);
    }
}

/// The distance is at least the difference of the two lengths.
pub proof fn lemma_lev_lower<T>(a: Seq<T>, b: Seq<T>)
    ensures
        lev(a, b) + b.len() >= a.len(),
        lev(a, b) + a.len() >= b.len(),
    decreases a.len() + b.len(),
{
    if a.len() > 0 && b.len() > 0 {
        lemma_lev_lower(a.drop_last(), b);
        lemma_lev_lower(a, b.drop_last());
        lemma_lev_lower(a.drop_last(), b.drop_last());
    }
}

/// Distance is symmetric: turning `a` into `b` costs as much as turning `b` into `a`.
pub proof fn lemma_lev_symmetric<T>(a: Seq<T>, b: Seq<T>)
    ensures
        lev(a, b) == lev(b, a),
    decreases a.len() + b.len(),
{
    if a.len() > 0 && b.len() > 0 {
        lemma_lev_symmetric(a.drop_last(), b);
        lemma_lev_symmetric(a, b.drop_last());
        lemma_lev_symmetric(a.drop_last(), b.drop_last());
    }
}

/// A sequence is at distance zero from itself.
pub proof fn lemma_lev_identity<T>(a: Seq<T>)
    ensures
        lev(a, a) == 0,
    decreases a.len(),
{
    if a.len() > 0 {
        lemma_lev_identity(a.drop_last());
    }
}

/// The distance between the empty sequence and `s`, either way round, is the length of `s`.
pub proof fn lemma_lev_empty<T>(s: Seq<T>)
    ensures
        lev(Seq::<T>::empty(), s) == s.len(),
        lev(s, Seq::<T>::empty()) == s.len(),
{
}

/// Triangle inequality: going from `a` to `c` never costs more than going through `b`.
pub proof fn lemma_lev_triangle<T>(a: Seq<T>, b: Seq<T>, c: Seq<T>)
    ensures
        lev(a, c) <= lev(a, b) + lev(b, c),
    decreases a.len() + b.len() + c.len(),
{
    if b.len() == 0 {
        lemma_lev_upper(a, c);
    } else if a.len() == 0 {
        lemma_lev_lower(b, c);
    } else if c.len() == 0 {
        lemma_lev_lower(a, b);
    } else {
        let a1 = a.drop_last();
        let b1 = b.drop_last();
        let c1 = c.drop_last();
        if lev(a, b) == lev(a1, b) + 1 {
            lemma_lev_triangle(a1, b, c);
        } else if lev(b, c) == lev(b, c1) + 1 {
            lemma_lev_triangle(a, b, c1);
        } else if lev(a, b) == lev(a, b1) + 1 {
            if lev(b, c) == lev(b1, c) + 1 {
                lemma_lev_triangle(a, b1, c);
            } else {
                lemma_lev_triangle(a, b1, c1);
            }
        } else {
            if lev(b, c) == lev(b1, c) + 1 {
                lemma_lev_triangle(a1, b1, c);
            } else {
                lemma_lev_triangle(a1, b1, c1);
            }
        }
    }
}

} // verus!
