//! The fixed total orders used throughout: a lexicographic order on
//! cell coordinates, and the induced lexicographic order on shapes
//! (sequences of cells, shorter prefixes first). Canonical forms are
//! minima under these orders.

use vstd::prelude::*;
use vstd::relations::total_ordering;

use crate::coord::Coord;

verus! {

/// Lexicographic order on coordinate pairs: first component first.
pub open spec fn coord_le(a: (int, int), b: (int, int)) -> bool {
    a.0 < b.0 || (a.0 == b.0 && a.1 <= b.1)
}

/// `coord_le` as a function value, for use with sequence sorting.
pub open spec fn coord_leq_fn() -> spec_fn((int, int), (int, int)) -> bool {
    |a: (int, int), b: (int, int)| coord_le(a, b)
}

pub proof fn lemma_coord_le_total_ordering()
    ensures
        total_ordering(coord_leq_fn()),
{
}

/// Lexicographic order on shapes: the first differing cell decides,
/// and a strict prefix comes first. This matches ordering a shape by
/// its cell list.
pub open spec fn shape_le(a: Seq<(int, int)>, b: Seq<(int, int)>) -> bool
    decreases a.len(),
{
    if a.len() == 0 {
        true
    } else if b.len() == 0 {
        false
    } else if a[0] == b[0] {
        shape_le(a.drop_first(), b.drop_first())
    } else {
        coord_le(a[0], b[0])
    }
}

pub proof fn lemma_shape_le_refl(a: Seq<(int, int)>)
    ensures
        shape_le(a, a),
    decreases a.len(),
{
    if a.len() > 0 {
        lemma_shape_le_refl(a.drop_first());
    }
}

pub proof fn lemma_shape_le_total(a: Seq<(int, int)>, b: Seq<(int, int)>)
    ensures
        shape_le(a, b) || shape_le(b, a),
    decreases a.len(),
{
    if a.len() > 0 && b.len() > 0 && a[0] == b[0] {
        lemma_shape_le_total(a.drop_first(), b.drop_first());
    }
}

pub proof fn lemma_shape_le_antisymmetric(a: Seq<(int, int)>, b: Seq<(int, int)>)
    requires
        shape_le(a, b),
        shape_le(b, a),
    ensures
        a == b,
    decreases a.len(),
{
    if a.len() == 0 {
        assert(b.len() == 0);
        assert(a =~= b);
    } else {
        assert(b.len() > 0);
        assert(a[0] == b[0]);
        lemma_shape_le_antisymmetric(a.drop_first(), b.drop_first());
        assert(a =~= seq![a[0]] + a.drop_first());
        assert(b =~= seq![b[0]] + b.drop_first());
    }
}

pub proof fn lemma_shape_le_transitive(
    a: Seq<(int, int)>,
    b: Seq<(int, int)>,
    c: Seq<(int, int)>,
)
    requires
        shape_le(a, b),
        shape_le(b, c),
    ensures
        shape_le(a, c),
    decreases a.len(),
{
    if a.len() > 0 && b.len() > 0 && c.len() > 0 {
        if a[0] == b[0] && b[0] == c[0] {
            lemma_shape_le_transitive(a.drop_first(), b.drop_first(), c.drop_first());
        }
    }
}

/// Executable comparison matching `coord_le`.
pub fn coord_le_exec(a: &Coord, b: &Coord) -> (r: bool)
    ensures
        r == coord_le(a@, b@),
{
    a.0 < b.0 || (a.0 == b.0 && a.1 <= b.1)
}

/// Executable equality of coordinates.
pub fn coord_eq_exec(a: &Coord, b: &Coord) -> (r: bool)
    ensures
        r == (a@ == b@),
{
    a.0 == b.0 && a.1 == b.1
}

} // verus!
