//! A single lattice cell address in axial (skewed 60-degree basis)
//! coordinates, and the two primitive symmetry transforms on it:
//! one 60-degree rotation step and one reflection.

use vstd::prelude::*;

verus! {

/// One cell of the hexagonal lattice, addressed by a pair of signed
/// axial coordinates.
#[derive(Clone, Copy, PartialEq, Eq, PartialOrd, Ord, Structural, Debug)]
pub struct Coord(pub i32, pub i32);

impl View for Coord {
    type V = (int, int);

    open spec fn view(&self) -> (int, int) {
        (self.0 as int, self.1 as int)
    }
}

/// One 60-degree rotation step about the origin, in axial coordinates.
pub open spec fn rot_c(p: (int, int)) -> (int, int) {
    (p.0 - p.1, p.0)
}

/// Reflection across a fixed lattice axis, defined relative to the
/// cell's row coordinate.
pub open spec fn flip_c(p: (int, int)) -> (int, int) {
    (p.1 - 1 - p.0, p.1)
}

/// The six rotations form a cyclic group of order 6: six rotation
/// steps return every coordinate to itself.
pub proof fn lemma_rotation_order_six(p: (int, int))
    ensures
        rot_c(rot_c(rot_c(rot_c(rot_c(rot_c(p)))))) == p,
{
}

/// The reflection is an involution: two applications return every
/// coordinate to itself.
pub proof fn lemma_reflection_involution(p: (int, int))
    ensures
        flip_c(flip_c(p)) == p,
{
}

impl Coord {
    /// One 60-degree rotation step of this cell.
    pub fn rotate(self) -> (r: Coord)
        requires
            i32::MIN <= self@.0 - self@.1 <= i32::MAX,
        ensures
            r@ == rot_c(self@),
    {
        let Coord(x, y) = self;
        Coord(x - y, x)
    }

    /// The reflected image of this cell.
    pub fn flip_x(self) -> (r: Coord)
        requires
            i32::MIN <= self@.1 - 1,
            i32::MIN <= self@.1 - 1 - self@.0 <= i32::MAX,
        ensures
            r@ == flip_c(self@),
    {
        let Coord(x, y) = self;
        let x0_mul_2 = y - 1;
        Coord(x0_mul_2 - x, y)
    }
}

} // verus!
