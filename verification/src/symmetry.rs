//! The 12-element dihedral symmetry group of the hexagonal lattice:
//! the twelve images of a shape (0-5 rotation steps, with or without a
//! reflection), the free canonical form (the least image), and the
//! classification of a shape by the symmetry subgroup that fixes it.

use vstd::prelude::*;

use crate::coord::rot_c;
use crate::coord::flip_c;
use crate::order::shape_le;
use crate::order::lemma_shape_le_refl;
use crate::order::lemma_shape_le_total;
use crate::order::lemma_shape_le_transitive;
use crate::order::lemma_shape_le_antisymmetric;
use crate::shape::Polyhex;
use crate::shape::canon_fixed;
use crate::shape::map_rot;
use crate::shape::map_flip;
use crate::shape::coords_within;
use crate::shape::lemma_canon_fixed_within;
use crate::shape::lemma_canon_absorb_rot;
use crate::shape::lemma_canon_absorb_flip;
use crate::shape::lemma_canon_translate;
use crate::shape::lemma_canonize_fixed_idempotent;
use crate::shape::lemma_canon_fixed_no_dup;
use crate::shape::lemma_canon_multiset;
use crate::shape::lemma_map_pointwise_multiset;
use crate::shape::translate;
use crate::shape::norm;
use crate::shape::xs_min;
use crate::shape::ys_min;
use crate::order::coord_leq_fn;
use crate::order::lemma_coord_le_total_ordering;
use crate::shape::shape_eq_exec;
use crate::shape::shape_le_exec;

verus! {

/// Which subgroup of the 12 lattice symmetries fixes a shape.
#[derive(Clone, Copy, PartialEq, Eq, Structural, Debug)]
pub enum PolyhexSymmetryGroup {
    Asymmetric,
    Mirror0,
    Mirror30,
    Rotation2Fold,
    Rotation2FoldMirrorAll,
    Rotation3Fold,
    Rotation3FoldMirror0,
    Rotation3FoldMirror30,
    Rotation6Fold,
    All,
}

/// `k` rotation steps applied to one cell.
pub open spec fn rot_iter(k: nat, p: (int, int)) -> (int, int)
    decreases k,
{
    if k == 0 {
        p
    } else {
        rot_c(rot_iter((k - 1) as nat, p))
    }
}

/// One of the twelve symmetry operations applied to one cell:
/// operations 0-5 are pure rotations by `e` steps; operations 6-11
/// reflect first and then rotate by `e - 6` steps.
pub open spec fn apply_op(e: int, p: (int, int)) -> (int, int) {
    if e < 6 {
        rot_iter(e as nat, p)
    } else {
        rot_iter((e - 6) as nat, flip_c(p))
    }
}

/// A symmetry operation index.
pub open spec fn op_in_range(e: int) -> bool {
    0 <= e < 12
}

/// A symmetry operation applied to every cell of a shape.
pub open spec fn map_op(e: int, s: Seq<(int, int)>) -> Seq<(int, int)> {
    Seq::new(s.len(), |i: int| apply_op(e, s[i]))
}

/// The canonical-fixed form of one symmetry image of a shape.
pub open spec fn image(e: int, s: Seq<(int, int)>) -> Seq<(int, int)> {
    canon_fixed(map_op(e, s))
}

/// The least among the images of operations `0..n`.
pub open spec fn min_image_upto(s: Seq<(int, int)>, n: int) -> Seq<(int, int)>
    decreases n,
{
    if n <= 1 {
        image(0, s)
    } else if shape_le(image(n - 1, s), min_image_upto(s, n - 1)) {
        image(n - 1, s)
    } else {
        min_image_upto(s, n - 1)
    }
}

/// The free canonical form: the least of the twelve symmetry images.
pub open spec fn free_canon(s: Seq<(int, int)>) -> Seq<(int, int)> {
    min_image_upto(s, 12)
}

/// The symmetry operation `e` fixes the shape: its image coincides
/// with the unrotated, unreflected canonical form.
pub open spec fn fixes(e: int, s: Seq<(int, int)>) -> bool {
    image(e, s) == image(0, s)
}

/// Some reflection composed with an even number of rotation steps
/// fixes the shape.
pub open spec fn mirror_even(s: Seq<(int, int)>) -> bool {
    fixes(6, s) || fixes(8, s) || fixes(10, s)
}

/// Some reflection composed with an odd number of rotation steps
/// fixes the shape.
pub open spec fn mirror_odd(s: Seq<(int, int)>) -> bool {
    fixes(9, s) || fixes(11, s) || fixes(7, s)
}

/// The classification decision tree, in its fixed priority order:
/// 6-fold rotation first, then 2-fold, then the mirror-first 3-fold
/// variants, then plain 3-fold, then a lone mirror, then none. Several
/// conditions can hold at once for highly symmetric shapes; ties are
/// resolved by exactly this precedence.
pub open spec fn classify(s: Seq<(int, int)>) -> PolyhexSymmetryGroup {
    if fixes(1, s) {
        if mirror_even(s) {
            PolyhexSymmetryGroup::All
        } else {
            PolyhexSymmetryGroup::Rotation6Fold
        }
    } else if fixes(3, s) {
        if mirror_even(s) {
            PolyhexSymmetryGroup::Rotation2FoldMirrorAll
        } else {
            PolyhexSymmetryGroup::Rotation2Fold
        }
    } else if mirror_even(s) {
        if fixes(2, s) {
            PolyhexSymmetryGroup::Rotation3FoldMirror30
        } else {
            PolyhexSymmetryGroup::Mirror30
        }
    } else if fixes(2, s) {
        if fixes(3, s) {
            PolyhexSymmetryGroup::Rotation3FoldMirror0
        } else {
            PolyhexSymmetryGroup::Rotation3Fold
        }
    } else if mirror_odd(s) {
        PolyhexSymmetryGroup::Mirror0
    } else {
        PolyhexSymmetryGroup::Asymmetric
    }
}

/// How many of the twelve symmetry operations with index below `n`
/// fix the shape.
pub open spec fn stab_count_upto(s: Seq<(int, int)>, n: int) -> int
    decreases n,
{
    if n <= 0 {
        0
    } else {
        stab_count_upto(s, n - 1) + if fixes(n - 1, s) {
            1int
        } else {
            0int
        }
    }
}

/// The order of the shape's stabilizer: how many of the twelve
/// symmetry operations fix it.
pub open spec fn stab_order(s: Seq<(int, int)>) -> int {
    stab_count_upto(s, 12)
}

/// The free canonical form is one of the twelve images and is least
/// among them in the fixed shape order.
pub proof fn lemma_free_canon_min(s: Seq<(int, int)>)
    ensures
        exists|e: int| op_in_range(e) && free_canon(s) == image(e, s),
        forall|e: int| op_in_range(e) ==> shape_le(free_canon(s), #[trigger] image(e, s)),
{
    lemma_min_image_upto_props(s, 12);
    let e = choose|e: int| 0 <= e < 12 && min_image_upto(s, 12) == image(e, s);
    assert(op_in_range(e) && free_canon(s) == image(e, s));
}

proof fn lemma_min_image_upto_props(s: Seq<(int, int)>, n: int)
    requires
        1 <= n <= 12,
    ensures
        exists|e: int| 0 <= e < n && min_image_upto(s, n) == image(e, s),
        forall|e: int| 0 <= e < n ==> shape_le(min_image_upto(s, n), #[trigger] image(e, s)),
    decreases n,
{
    if n == 1 {
        lemma_shape_le_refl(image(0, s));
        assert(min_image_upto(s, 1) == image(0, s));
    } else {
        lemma_min_image_upto_props(s, n - 1);
        let prev = min_image_upto(s, n - 1);
        if shape_le(image(n - 1, s), prev) {
            assert forall|e: int| 0 <= e < n implies shape_le(
                min_image_upto(s, n),
                #[trigger] image(e, s),
            ) by {
                if e < n - 1 {
                    lemma_shape_le_transitive(image(n - 1, s), prev, image(e, s));
                } else {
                    lemma_shape_le_refl(image(n - 1, s));
                }
            }
        } else {
            lemma_shape_le_total(image(n - 1, s), prev);
            assert(shape_le(prev, image(n - 1, s)));
        }
    }
}

/// All coordinates lie in `[0, m]` on both axes.
pub open spec fn coords_nonneg_within(s: Seq<(int, int)>, m: int) -> bool {
    forall|i: int| 0 <= i < s.len() ==> 0 <= (#[trigger] s[i]).0 <= m && 0 <= s[i].1 <= m
}

/// Rotating a shape whose coordinates lie in `[0, m]` and then
/// canonicalizing keeps them in `[0, 2m]`.
proof fn lemma_rot_canon_bound(s: Seq<(int, int)>, m: int)
    requires
        coords_nonneg_within(s, m),
        m >= 0,
    ensures
        coords_nonneg_within(canon_fixed(map_rot(s)), 2 * m),
{
    assert forall|i: int| 0 <= i < map_rot(s).len() implies -m <= (#[trigger] map_rot(s)[i]).0
        <= m && -m <= map_rot(s)[i].1 <= m by {
        assert(map_rot(s)[i] == rot_c(s[i]));
        assert(0 <= s[i].0 <= m);
    }
    lemma_canon_fixed_within(map_rot(s), m);
}

/// Reflecting a shape whose coordinates lie in `[0, m]` and then
/// canonicalizing keeps them in `[0, 2m + 2]`.
proof fn lemma_flip_canon_bound(s: Seq<(int, int)>, m: int)
    requires
        coords_nonneg_within(s, m),
        m >= 0,
    ensures
        coords_nonneg_within(canon_fixed(map_flip(s)), 2 * m + 2),
{
    assert forall|i: int| 0 <= i < map_flip(s).len() implies -(m + 1) <= (#[trigger] map_flip(
        s,
    )[i]).0 <= m + 1 && -(m + 1) <= map_flip(s)[i].1 <= m + 1 by {
        assert(map_flip(s)[i] == flip_c(s[i]));
        assert(0 <= s[i].0 <= m);
    }
    lemma_canon_fixed_within(map_flip(s), m + 1);
}

/// Rotating a canonical image and canonicalizing advances the
/// operation index by one rotation step.
proof fn lemma_image_step_rot(s: Seq<(int, int)>, e: int)
    requires
        0 <= e < 12,
        e != 5,
        e != 11,
    ensures
        canon_fixed(map_rot(image(e, s))) == image(e + 1, s),
{
    lemma_canon_absorb_rot(map_op(e, s));
    assert(map_rot(map_op(e, s)) =~= map_op(e + 1, s)) by {
        assert forall|i: int| 0 <= i < s.len() implies map_rot(map_op(e, s))[i] == map_op(
            e + 1,
            s,
        )[i] by {
            assert(map_op(e, s)[i] == apply_op(e, s[i]));
            if e < 6 {
                assert(rot_iter((e + 1) as nat, s[i]) == rot_c(rot_iter(e as nat, s[i])));
            } else {
                assert(rot_iter((e + 1 - 6) as nat, flip_c(s[i])) == rot_c(
                    rot_iter((e - 6) as nat, flip_c(s[i])),
                ));
            }
        }
    }
}

/// Reflecting the unreflected canonical form and canonicalizing gives
/// the first reflected image.
proof fn lemma_image_step_flip(s: Seq<(int, int)>)
    ensures
        canon_fixed(map_flip(image(0, s))) == image(6, s),
{
    lemma_canon_absorb_flip(map_op(0, s));
    assert(map_op(0, s) =~= s);
    assert(map_flip(map_op(0, s)) =~= map_op(6, s)) by {
        assert forall|i: int| 0 <= i < s.len() implies map_flip(map_op(0, s))[i] == map_op(
            6,
            s,
        )[i] by {
            assert(map_op(0, s)[i] == apply_op(0, s[i]));
            assert(apply_op(0, s[i]) == s[i]);
            assert(apply_op(6, s[i]) == flip_c(s[i]));
        }
    }
}

impl Polyhex {
    /// The free canonical form of this shape — the least of its twelve
    /// symmetry images — together with its symmetry classification.
    pub fn canonize_free(&self) -> (r: (Polyhex, PolyhexSymmetryGroup))
        requires
            coords_within(self@, 0x0010_0000),
        ensures
            r.0@ == free_canon(self@),
            r.1 == classify(self@),
    {
        let ghost s = self@;
        let c0 = self.canonize_fixed();
        proof {
            assert(map_op(0, s) =~= s);
            assert(c0@ == image(0, s));
            lemma_canon_fixed_within(s, 0x0010_0000);
            assert(coords_nonneg_within(c0@, 0x0020_0000));
            lemma_rot_canon_bound(image(0, s), 0x0020_0000);
            lemma_image_step_rot(s, 0);
        }
        let c60 = c0.rotate();
        proof {
            assert(c60@ == image(1, s));
            lemma_rot_canon_bound(image(1, s), 0x0040_0000);
            lemma_image_step_rot(s, 1);
        }
        let c120 = c60.rotate();
        proof {
            assert(c120@ == image(2, s));
            lemma_rot_canon_bound(image(2, s), 0x0080_0000);
            lemma_image_step_rot(s, 2);
        }
        let c180 = c120.rotate();
        proof {
            assert(c180@ == image(3, s));
            lemma_rot_canon_bound(image(3, s), 0x0100_0000);
            lemma_image_step_rot(s, 3);
        }
        let c240 = c180.rotate();
        proof {
            assert(c240@ == image(4, s));
            lemma_rot_canon_bound(image(4, s), 0x0200_0000);
            lemma_image_step_rot(s, 4);
        }
        let c300 = c240.rotate();
        proof {
            assert(c300@ == image(5, s));
            lemma_flip_canon_bound(image(0, s), 0x0020_0000);
            lemma_image_step_flip(s);
        }
        let f0 = c0.flip_x();
        proof {
            assert(f0@ == image(6, s));
            lemma_rot_canon_bound(image(6, s), 0x0040_0002);
            lemma_image_step_rot(s, 6);
        }
        let f60 = f0.rotate();
        proof {
            assert(f60@ == image(7, s));
            lemma_rot_canon_bound(image(7, s), 0x0080_0004);
            lemma_image_step_rot(s, 7);
        }
        let f120 = f60.rotate();
        proof {
            assert(f120@ == image(8, s));
            lemma_rot_canon_bound(image(8, s), 0x0100_0008);
            lemma_image_step_rot(s, 8);
        }
        let f180 = f120.rotate();
        proof {
            assert(f180@ == image(9, s));
            lemma_rot_canon_bound(image(9, s), 0x0200_0010);
            lemma_image_step_rot(s, 9);
        }
        let f240 = f180.rotate();
        proof {
            assert(f240@ == image(10, s));
            lemma_rot_canon_bound(image(10, s), 0x0400_0020);
            lemma_image_step_rot(s, 10);
        }
        let f300 = f240.rotate();
        proof {
            assert(f300@ == image(11, s));
        }
        let symmetry_group = if shape_eq_exec(&c0, &c60) {
            if shape_eq_exec(&c0, &f0) || shape_eq_exec(&c0, &f120) || shape_eq_exec(&c0, &f240) {
                PolyhexSymmetryGroup::All
            } else {
                PolyhexSymmetryGroup::Rotation6Fold
            }
        } else if shape_eq_exec(&c0, &c180) {
            if shape_eq_exec(&c0, &f0) || shape_eq_exec(&c0, &f120) || shape_eq_exec(&c0, &f240) {
                PolyhexSymmetryGroup::Rotation2FoldMirrorAll
            } else {
                PolyhexSymmetryGroup::Rotation2Fold
            }
        } else if shape_eq_exec(&c0, &f0) || shape_eq_exec(&c0, &f120) || shape_eq_exec(
            &c0,
            &f240,
        ) {
            if shape_eq_exec(&c0, &c120) {
                PolyhexSymmetryGroup::Rotation3FoldMirror30
            } else {
                PolyhexSymmetryGroup::Mirror30
            }
        } else if shape_eq_exec(&c0, &c120) {
            if shape_eq_exec(&c0, &c180) {
                PolyhexSymmetryGroup::Rotation3FoldMirror0
            } else {
                PolyhexSymmetryGroup::Rotation3Fold
            }
        } else if shape_eq_exec(&c0, &f180) || shape_eq_exec(&c0, &f300) || shape_eq_exec(
            &c0,
            &f60,
        ) {
            PolyhexSymmetryGroup::Mirror0
        } else {
            PolyhexSymmetryGroup::Asymmetric
        };
        proof {
            assert(symmetry_group == classify(s));
        }
        let mut best = c0;
        proof {
            assert(best@ == min_image_upto(s, 1));
        }
        if shape_le_exec(&c60, &best) {
            best = c60;
        }
        proof {
            assert(best@ == min_image_upto(s, 2));
        }
        if shape_le_exec(&c120, &best) {
            best = c120;
        }
        proof {
            assert(best@ == min_image_upto(s, 3));
        }
        if shape_le_exec(&c180, &best) {
            best = c180;
        }
        proof {
            assert(best@ == min_image_upto(s, 4));
        }
        if shape_le_exec(&c240, &best) {
            best = c240;
        }
        proof {
            assert(best@ == min_image_upto(s, 5));
        }
        if shape_le_exec(&c300, &best) {
            best = c300;
        }
        proof {
            assert(best@ == min_image_upto(s, 6));
        }
        if shape_le_exec(&f0, &best) {
            best = f0;
        }
        proof {
            assert(best@ == min_image_upto(s, 7));
        }
        if shape_le_exec(&f60, &best) {
            best = f60;
        }
        proof {
            assert(best@ == min_image_upto(s, 8));
        }
        if shape_le_exec(&f120, &best) {
            best = f120;
        }
        proof {
            assert(best@ == min_image_upto(s, 9));
        }
        if shape_le_exec(&f180, &best) {
            best = f180;
        }
        proof {
            assert(best@ == min_image_upto(s, 10));
        }
        if shape_le_exec(&f240, &best) {
            best = f240;
        }
        proof {
            assert(best@ == min_image_upto(s, 11));
        }
        if shape_le_exec(&f300, &best) {
            best = f300;
        }
        proof {
            assert(best@ == min_image_upto(s, 12));
        }
        (best, symmetry_group)
    }

    /// The order of this shape's stabilizer: how many of its twelve
    /// symmetry images coincide with its unrotated canonical form.
    /// By the subgroup structure of the symmetry group this count
    /// divides 12, a cross-check on the classification.
    pub fn stabilizer_order(&self) -> (n: usize)
        requires
            coords_within(self@, 0x0010_0000),
        ensures
            n as int == stab_order(self@),
            1 <= n <= 12,
    {
        let ghost s = self@;
        let c0 = self.canonize_fixed();
        proof {
            assert(map_op(0, s) =~= s);
            assert(c0@ == image(0, s));
            lemma_canon_fixed_within(s, 0x0010_0000);
            lemma_rot_canon_bound(image(0, s), 0x0020_0000);
            lemma_image_step_rot(s, 0);
        }
        let c60 = c0.rotate();
        proof {
            assert(c60@ == image(1, s));
            lemma_rot_canon_bound(image(1, s), 0x0040_0000);
            lemma_image_step_rot(s, 1);
        }
        let c120 = c60.rotate();
        proof {
            assert(c120@ == image(2, s));
            lemma_rot_canon_bound(image(2, s), 0x0080_0000);
            lemma_image_step_rot(s, 2);
        }
        let c180 = c120.rotate();
        proof {
            assert(c180@ == image(3, s));
            lemma_rot_canon_bound(image(3, s), 0x0100_0000);
            lemma_image_step_rot(s, 3);
        }
        let c240 = c180.rotate();
        proof {
            assert(c240@ == image(4, s));
            lemma_rot_canon_bound(image(4, s), 0x0200_0000);
            lemma_image_step_rot(s, 4);
        }
        let c300 = c240.rotate();
        proof {
            assert(c300@ == image(5, s));
            lemma_flip_canon_bound(image(0, s), 0x0020_0000);
            lemma_image_step_flip(s);
        }
        let f0 = c0.flip_x();
        proof {
            assert(f0@ == image(6, s));
            lemma_rot_canon_bound(image(6, s), 0x0040_0002);
            lemma_image_step_rot(s, 6);
        }
        let f60 = f0.rotate();
        proof {
            assert(f60@ == image(7, s));
            lemma_rot_canon_bound(image(7, s), 0x0080_0004);
            lemma_image_step_rot(s, 7);
        }
        let f120 = f60.rotate();
        proof {
            assert(f120@ == image(8, s));
            lemma_rot_canon_bound(image(8, s), 0x0100_0008);
            lemma_image_step_rot(s, 8);
        }
        let f180 = f120.rotate();
        proof {
            assert(f180@ == image(9, s));
            lemma_rot_canon_bound(image(9, s), 0x0200_0010);
            lemma_image_step_rot(s, 9);
        }
        let f240 = f180.rotate();
        proof {
            assert(f240@ == image(10, s));
            lemma_rot_canon_bound(image(10, s), 0x0400_0020);
            lemma_image_step_rot(s, 10);
        }
        let f300 = f240.rotate();
        proof {
            assert(f300@ == image(11, s));
        }
        let mut n: usize = 1;
        proof {
            assert(fixes(0, s));
            assert(stab_count_upto(s, 0) == 0);
            assert(n as int == stab_count_upto(s, 1));
        }
        if shape_eq_exec(&c0, &c60) {
            n += 1;
        }
        proof {
            assert(n as int == stab_count_upto(s, 2));
        }
        if shape_eq_exec(&c0, &c120) {
            n += 1;
        }
        proof {
            assert(n as int == stab_count_upto(s, 3));
        }
        if shape_eq_exec(&c0, &c180) {
            n += 1;
        }
        proof {
            assert(n as int == stab_count_upto(s, 4));
        }
        if shape_eq_exec(&c0, &c240) {
            n += 1;
        }
        proof {
            assert(n as int == stab_count_upto(s, 5));
        }
        if shape_eq_exec(&c0, &c300) {
            n += 1;
        }
        proof {
            assert(n as int == stab_count_upto(s, 6));
        }
        if shape_eq_exec(&c0, &f0) {
            n += 1;
        }
        proof {
            assert(n as int == stab_count_upto(s, 7));
        }
        if shape_eq_exec(&c0, &f60) {
            n += 1;
        }
        proof {
            assert(n as int == stab_count_upto(s, 8));
        }
        if shape_eq_exec(&c0, &f120) {
            n += 1;
        }
        proof {
            assert(n as int == stab_count_upto(s, 9));
        }
        if shape_eq_exec(&c0, &f180) {
            n += 1;
        }
        proof {
            assert(n as int == stab_count_upto(s, 10));
        }
        if shape_eq_exec(&c0, &f240) {
            n += 1;
        }
        proof {
            assert(n as int == stab_count_upto(s, 11));
        }
        if shape_eq_exec(&c0, &f300) {
            n += 1;
        }
        proof {
            assert(n as int == stab_count_upto(s, 12));
        }
        n
    }
}


/// The linear part of the reflection: the reflection without its
/// fixed lattice offset.
pub open spec fn lin_flip(p: (int, int)) -> (int, int) {
    (p.1 - p.0, p.1)
}

/// The linear part of a symmetry operation.
pub open spec fn lin_apply(e: int, p: (int, int)) -> (int, int) {
    if e < 6 {
        rot_iter(e as nat, p)
    } else {
        rot_iter((e - 6) as nat, lin_flip(p))
    }
}

/// Rotation steps are additive over coordinate sums.
proof fn lemma_rot_iter_additive(k: nat, p: (int, int), d: (int, int))
    ensures
        rot_iter(k, (p.0 + d.0, p.1 + d.1)) == (
            rot_iter(k, p).0 + rot_iter(k, d).0,
            rot_iter(k, p).1 + rot_iter(k, d).1,
        ),
    decreases k,
{
    if k > 0 {
        lemma_rot_iter_additive((k - 1) as nat, p, d);
    }
}

/// Iterated rotations compose by adding step counts.
proof fn lemma_rot_iter_add(k1: nat, k2: nat, p: (int, int))
    ensures
        rot_iter(k1 + k2, p) == rot_iter(k1, rot_iter(k2, p)),
    decreases k1,
{
    if k1 > 0 {
        lemma_rot_iter_add((k1 - 1) as nat, k2, p);
        assert(rot_iter(k1 + k2, p) == rot_c(rot_iter((k1 - 1) as nat + k2, p)));
    }
}

/// Six rotation steps are the identity.
proof fn lemma_rot_iter_six(p: (int, int))
    ensures
        rot_iter(6, p) == p,
{
    reveal_with_fuel(rot_iter, 8);
}

/// Reduction of a rotation count into `[0, 6)`.
pub open spec fn m6(a: int) -> int {
    if a >= 6 {
        a - 6
    } else if a < 0 {
        a + 6
    } else {
        a
    }
}

/// A rotation count in `[0, 12)` may be reduced modulo six.
proof fn lemma_rot_iter_m6(a: int, p: (int, int))
    requires
        0 <= a < 12,
    ensures
        rot_iter(m6(a) as nat, p) == rot_iter(a as nat, p),
{
    if a >= 6 {
        lemma_rot_iter_add((a - 6) as nat, 6, p);
        lemma_rot_iter_six(p);
    }
}

/// The reflection after one rotation step equals five rotation steps
/// after the reflection.
proof fn lemma_flip_rot(p: (int, int))
    ensures
        lin_flip(rot_c(p)) == rot_iter(5, lin_flip(p)),
{
    reveal_with_fuel(rot_iter, 7);
}

/// The reflection after `k` rotation steps equals `m6(6 - k)`
/// rotation steps after the reflection.
proof fn lemma_flip_rot_iter(k: nat, p: (int, int))
    requires
        k <= 5,
    ensures
        lin_flip(rot_iter(k, p)) == rot_iter(m6(6 - k) as nat, lin_flip(p)),
    decreases k,
{
    if k == 0 {
        lemma_rot_iter_six(lin_flip(p));
        assert(m6(6) == 0);
    } else {
        lemma_flip_rot_iter((k - 1) as nat, p);
        lemma_flip_rot(rot_iter((k - 1) as nat, p));
        // five more steps on top of m6(6 - (k - 1)) steps
        lemma_rot_iter_add(5, m6(7 - k) as nat, lin_flip(p));
        assert(lin_flip(rot_iter(k, p)) == rot_iter((5 + m6(7 - k)) as nat, lin_flip(p)));
        lemma_rot_iter_m6(5 + m6(7 - k), lin_flip(p));
        assert(m6(5 + m6(7 - k)) == m6(6 - k));
    }
}

/// The composition of two symmetry operations: the index of the
/// single operation with the same linear part.
pub open spec fn compose(e1: int, e2: int) -> int {
    let k1 = if e1 < 6 {
        e1
    } else {
        e1 - 6
    };
    let m1 = e1 >= 6;
    let k2 = if e2 < 6 {
        e2
    } else {
        e2 - 6
    };
    let m2 = e2 >= 6;
    let k = if !m1 {
        m6(k1 + k2)
    } else {
        m6(k1 - k2)
    };
    if m1 != m2 {
        k + 6
    } else {
        k
    }
}

/// The inverse of a symmetry operation.
pub open spec fn op_inverse(e: int) -> int {
    if e == 0 {
        0
    } else if e < 6 {
        6 - e
    } else {
        e
    }
}

/// Composition stays in range, has the identity as unit, and
/// `op_inverse` as two-sided inverse.
pub proof fn lemma_compose_basics(e1: int, e2: int)
    requires
        op_in_range(e1),
        op_in_range(e2),
    ensures
        op_in_range(compose(e1, e2)),
        op_in_range(op_inverse(e1)),
        compose(0, e1) == e1,
        compose(e1, 0) == e1,
        compose(e1, op_inverse(e1)) == 0,
        compose(op_inverse(e1), e1) == 0,
{
}

/// Composition of symmetry operations is associative.
pub proof fn lemma_compose_assoc(a: int, b: int, c: int)
    requires
        op_in_range(a),
        op_in_range(b),
        op_in_range(c),
    ensures
        compose(compose(a, b), c) == compose(a, compose(b, c)),
{
}

/// The linear parts compose: applying `e2` and then `e1` is the
/// linear part of their composition.
proof fn lemma_lin_compose(e1: int, e2: int, p: (int, int))
    requires
        op_in_range(e1),
        op_in_range(e2),
    ensures
        lin_apply(e1, lin_apply(e2, p)) == lin_apply(compose(e1, e2), p),
{
    let k1 = if e1 < 6 { e1 } else { e1 - 6 };
    let k2 = if e2 < 6 { e2 } else { e2 - 6 };
    if e1 < 6 {
        if e2 < 6 {
            lemma_rot_iter_add(k1 as nat, k2 as nat, p);
            lemma_rot_iter_m6(k1 + k2, p);
        } else {
            lemma_rot_iter_add(k1 as nat, k2 as nat, lin_flip(p));
            lemma_rot_iter_m6(k1 + k2, lin_flip(p));
        }
    } else {
        if e2 < 6 {
            // rot^{k1} flip rot^{k2} = rot^{k1} rot^{m6(6-k2)} flip
            lemma_flip_rot_iter(k2 as nat, p);
            lemma_rot_iter_add(k1 as nat, m6(6 - k2) as nat, lin_flip(p));
            lemma_rot_iter_m6(k1 + m6(6 - k2), lin_flip(p));
            if k1 + m6(6 - k2) >= 12 {
                lemma_rot_iter_add((k1 + m6(6 - k2) - 6) as nat, 6, lin_flip(p));
                lemma_rot_iter_six(lin_flip(p));
                lemma_rot_iter_m6(k1 + m6(6 - k2) - 6, lin_flip(p));
            }
            assert(m6(k1 - k2) == m6(m6(k1 + m6(6 - k2))));
        } else {
            // rot^{k1} flip rot^{k2} flip = rot^{k1} rot^{m6(6-k2)} flip flip
            lemma_flip_rot_iter(k2 as nat, lin_flip(p));
            assert(lin_flip(lin_flip(p)) == p);
            lemma_rot_iter_add(k1 as nat, m6(6 - k2) as nat, p);
            lemma_rot_iter_m6(k1 + m6(6 - k2), p);
            if k1 + m6(6 - k2) >= 12 {
                lemma_rot_iter_add((k1 + m6(6 - k2) - 6) as nat, 6, p);
                lemma_rot_iter_six(p);
                lemma_rot_iter_m6(k1 + m6(6 - k2) - 6, p);
            }
            assert(m6(k1 - k2) == m6(m6(k1 + m6(6 - k2))));
        }
    }
}


/// The linear part is additive.
proof fn lemma_lin_additive(e: int, p: (int, int), d: (int, int))
    requires
        op_in_range(e),
    ensures
        lin_apply(e, (p.0 + d.0, p.1 + d.1)) == (
            lin_apply(e, p).0 + lin_apply(e, d).0,
            lin_apply(e, p).1 + lin_apply(e, d).1,
        ),
{
    if e < 6 {
        lemma_rot_iter_additive(e as nat, p, d);
    } else {
        assert(lin_flip((p.0 + d.0, p.1 + d.1)) == (
            lin_flip(p).0 + lin_flip(d).0,
            lin_flip(p).1 + lin_flip(d).1,
        ));
        lemma_rot_iter_additive((e - 6) as nat, lin_flip(p), lin_flip(d));
    }
}

/// A symmetry operation is its linear part plus a fixed offset.
proof fn lemma_apply_affine(e: int, p: (int, int), d: (int, int))
    requires
        op_in_range(e),
    ensures
        apply_op(e, (p.0 + d.0, p.1 + d.1)) == (
            apply_op(e, p).0 + lin_apply(e, d).0,
            apply_op(e, p).1 + lin_apply(e, d).1,
        ),
{
    if e < 6 {
        lemma_rot_iter_additive(e as nat, p, d);
    } else {
        assert(flip_c((p.0 + d.0, p.1 + d.1)) == (
            flip_c(p).0 + lin_flip(d).0,
            flip_c(p).1 + lin_flip(d).1,
        ));
        lemma_rot_iter_additive((e - 6) as nat, flip_c(p), lin_flip(d));
    }
}

/// The fixed offset of a symmetry operation.
pub open spec fn trans_of(e: int) -> (int, int) {
    apply_op(e, (0int, 0int))
}

/// A symmetry operation splits into its linear part and its offset.
proof fn lemma_apply_split(e: int, p: (int, int))
    requires
        op_in_range(e),
    ensures
        apply_op(e, p) == (lin_apply(e, p).0 + trans_of(e).0, lin_apply(e, p).1 + trans_of(e).1),
{
    lemma_apply_affine(e, (0int, 0int), p);
    assert((0 + p.0, 0 + p.1) == p);
}

/// The constant offset by which applying `e1` after `e2` differs from
/// applying their composition once.
pub open spec fn comp_shift(e1: int, e2: int) -> (int, int) {
    (
        lin_apply(e1, trans_of(e2)).0 + trans_of(e1).0 - trans_of(compose(e1, e2)).0,
        lin_apply(e1, trans_of(e2)).1 + trans_of(e1).1 - trans_of(compose(e1, e2)).1,
    )
}

/// Applying `e2` and then `e1` to a cell equals applying their
/// composition and then a fixed translation.
proof fn lemma_apply_compose_point(e1: int, e2: int, p: (int, int))
    requires
        op_in_range(e1),
        op_in_range(e2),
    ensures
        apply_op(e1, apply_op(e2, p)) == (
            apply_op(compose(e1, e2), p).0 + comp_shift(e1, e2).0,
            apply_op(compose(e1, e2), p).1 + comp_shift(e1, e2).1,
        ),
{
    lemma_compose_basics(e1, e2);
    lemma_apply_split(e2, p);
    lemma_apply_split(e1, apply_op(e2, p));
    lemma_lin_additive(e1, lin_apply(e2, p), trans_of(e2));
    lemma_lin_compose(e1, e2, p);
    lemma_apply_split(compose(e1, e2), p);
}

/// Composing images: the image under `e1` of the shape transformed by
/// `e2` is the image under their composition.
pub proof fn lemma_image_compose(e1: int, e2: int, s: Seq<(int, int)>)
    requires
        op_in_range(e1),
        op_in_range(e2),
    ensures
        image(e1, map_op(e2, s)) == image(compose(e1, e2), s),
{
    lemma_compose_basics(e1, e2);
    let sh = comp_shift(e1, e2);
    let ec = compose(e1, e2);
    assert(map_op(e1, map_op(e2, s)) =~= translate(map_op(ec, s), sh.0, sh.1)) by {
        assert forall|i: int| 0 <= i < s.len() implies map_op(e1, map_op(e2, s))[i] == translate(
            map_op(ec, s),
            sh.0,
            sh.1,
        )[i] by {
            lemma_apply_compose_point(e1, e2, s[i]);
        }
    }
    lemma_canon_translate(map_op(ec, s), sh.0, sh.1);
}

/// A translated shape has the same images.
pub proof fn lemma_image_translate(e: int, s: Seq<(int, int)>, dx: int, dy: int)
    requires
        op_in_range(e),
    ensures
        image(e, translate(s, dx, dy)) == image(e, s),
{
    let le = lin_apply(e, (dx, dy));
    assert(map_op(e, translate(s, dx, dy)) =~= translate(map_op(e, s), le.0, le.1)) by {
        assert forall|i: int| 0 <= i < s.len() implies map_op(e, translate(s, dx, dy))[i]
            == translate(map_op(e, s), le.0, le.1)[i] by {
            lemma_apply_affine(e, s[i], (dx, dy));
        }
    }
    lemma_canon_translate(map_op(e, s), le.0, le.1);
}

/// Shapes with the same canonical form have the same images.
pub proof fn lemma_image_congruent(e: int, t1: Seq<(int, int)>, t2: Seq<(int, int)>)
    requires
        op_in_range(e),
        canon_fixed(t1) == canon_fixed(t2),
    ensures
        image(e, t1) == image(e, t2),
{
    lemma_coord_le_total_ordering();
    norm(t1).lemma_sort_by_ensures(coord_leq_fn());
    norm(t2).lemma_sort_by_ensures(coord_leq_fn());
    assert(norm(t1).to_multiset() == norm(t2).to_multiset());
    let f = |p: (int, int)| apply_op(e, p);
    lemma_map_pointwise_multiset(norm(t1), norm(t2), map_op(e, norm(t1)), map_op(e, norm(t2)), f);
    lemma_canon_multiset(map_op(e, norm(t1)), map_op(e, norm(t2)));
    lemma_image_translate(e, t1, -xs_min(t1), -ys_min(t1));
    lemma_image_translate(e, t2, -xs_min(t2), -ys_min(t2));
    assert(image(e, norm(t1)) == image(e, t1));
    assert(image(e, norm(t2)) == image(e, t2));
}


/// Images of a shape and of a transformed copy of it correspond
/// through composition with the transforming operation.
proof fn lemma_image_orbit_transfer(h: int, e: int, s: Seq<(int, int)>)
    requires
        op_in_range(h),
        op_in_range(e),
    ensures
        image(e, map_op(h, s)) == image(compose(e, h), s),
        image(e, s) == image(compose(e, op_inverse(h)), map_op(h, s)),
{
    lemma_image_compose(e, h, s);
    let hi = op_inverse(h);
    lemma_compose_basics(h, h);
    lemma_compose_basics(e, hi);
    lemma_image_compose(compose(e, hi), h, s);
    lemma_compose_assoc(e, hi, h);
    lemma_compose_basics(hi, h);
    lemma_compose_basics(e, h);
    assert(compose(compose(e, hi), h) == compose(e, compose(hi, h)));
    assert(compose(e, compose(hi, h)) == compose(e, 0));
    assert(compose(e, 0) == e);
}

/// Orbit invariance of the free canonical form: every symmetry image
/// of a shape has the same free canonical form as the shape itself.
pub proof fn lemma_free_canon_orbit(s: Seq<(int, int)>, h: int)
    requires
        op_in_range(h),
    ensures
        free_canon(map_op(h, s)) == free_canon(s),
{
    let s2 = map_op(h, s);
    lemma_free_canon_min(s);
    lemma_free_canon_min(s2);
    let a = free_canon(s);
    let b = free_canon(s2);
    let e0 = choose|e: int| op_in_range(e) && free_canon(s) == image(e, s);
    let eb = choose|e: int| op_in_range(e) && free_canon(s2) == image(e, s2);
    lemma_compose_basics(h, h);
    lemma_compose_basics(e0, op_inverse(h));
    lemma_image_orbit_transfer(h, e0, s);
    assert(a == image(compose(e0, op_inverse(h)), s2));
    assert(shape_le(b, a));
    lemma_compose_basics(eb, h);
    lemma_image_orbit_transfer(h, eb, s);
    assert(b == image(compose(eb, h), s));
    assert(shape_le(a, b));
    lemma_shape_le_antisymmetric(a, b);
}

/// Equal images stay equal under composition with a further
/// operation.
proof fn lemma_image_eq_transfer(c: int, g1: int, g2: int, s: Seq<(int, int)>)
    requires
        op_in_range(c),
        op_in_range(g1),
        op_in_range(g2),
        image(g1, s) == image(g2, s),
    ensures
        image(compose(c, g1), s) == image(compose(c, g2), s),
{
    lemma_image_compose(c, g1, s);
    lemma_image_compose(c, g2, s);
    lemma_image_congruent(c, map_op(g1, s), map_op(g2, s));
}

/// The conjugate of an operation by another.
pub open spec fn conj(h: int, e: int) -> int {
    compose(op_inverse(h), compose(e, h))
}

/// An operation fixes a transformed shape exactly when its conjugate
/// fixes the original.
proof fn lemma_fixes_transfer(h: int, e: int, s: Seq<(int, int)>)
    requires
        op_in_range(h),
        op_in_range(e),
    ensures
        fixes(e, map_op(h, s)) == fixes(conj(h, e), s),
{
    let s2 = map_op(h, s);
    let hi = op_inverse(h);
    lemma_compose_basics(h, h);
    lemma_compose_basics(e, h);
    lemma_compose_basics(hi, compose(e, h));
    lemma_image_compose(e, h, s);
    lemma_image_compose(0, h, s);
    lemma_compose_basics(0, h);
    if fixes(e, s2) {
        lemma_image_eq_transfer(hi, compose(e, h), h, s);
        lemma_compose_basics(hi, h);
        assert(image(conj(h, e), s) == image(0, s));
    }
    if fixes(conj(h, e), s) {
        lemma_image_eq_transfer(h, conj(h, e), 0, s);
        lemma_compose_basics(h, conj(h, e));
        lemma_compose_assoc(h, hi, compose(e, h));
        lemma_compose_basics(hi, h);
        lemma_compose_basics(0, compose(e, h));
        assert(compose(h, conj(h, e)) == compose(e, h));
        assert(image(compose(e, h), s) == image(h, s));
        assert(fixes(e, s2));
    }
}

/// The operations fixing a shape are closed under inversion.
proof fn lemma_fixes_inverse(e: int, s: Seq<(int, int)>)
    requires
        op_in_range(e),
        fixes(e, s),
    ensures
        fixes(op_inverse(e), s),
{
    let ei = op_inverse(e);
    lemma_compose_basics(e, e);
    lemma_image_eq_transfer(ei, e, 0, s);
    lemma_compose_basics(ei, e);
    lemma_compose_basics(ei, 0);
}

/// Conjugating by an operation and then by its inverse returns the
/// original operation.
proof fn lemma_conj_conj(h: int, w: int)
    requires
        op_in_range(h),
        op_in_range(w),
    ensures
        op_in_range(conj(op_inverse(h), w)),
        conj(h, conj(op_inverse(h), w)) == w,
{
    let hi = op_inverse(h);
    lemma_compose_basics(h, h);
    lemma_compose_basics(w, hi);
    assert(op_inverse(hi) == h);
    let x = compose(w, hi);
    lemma_compose_basics(h, x);
    let y = compose(h, x);
    assert(conj(hi, w) == y);
    lemma_compose_basics(y, h);
    lemma_compose_assoc(h, x, h);
    lemma_compose_assoc(w, hi, h);
    lemma_compose_basics(hi, h);
    lemma_compose_basics(w, 0);
    assert(compose(x, h) == w);
    assert(compose(y, h) == compose(h, w));
    lemma_compose_basics(h, w);
    lemma_compose_assoc(hi, h, w);
    lemma_compose_basics(0, w);
    assert(compose(hi, compose(h, w)) == w);
    assert(conj(h, y) == w);
}

/// Whether some even-indexed reflection fixes the shape is invariant
/// under transforming the shape.
proof fn lemma_mirror_even_orbit(h: int, s: Seq<(int, int)>)
    requires
        op_in_range(h),
    ensures
        mirror_even(map_op(h, s)) == mirror_even(s),
{
    let s2 = map_op(h, s);
    let hi = op_inverse(h);
    lemma_compose_basics(h, h);
    lemma_fixes_transfer(h, 6, s);
    lemma_fixes_transfer(h, 8, s);
    lemma_fixes_transfer(h, 10, s);
    assert(conj(h, 6) == 6 || conj(h, 6) == 8 || conj(h, 6) == 10);
    assert(conj(h, 8) == 6 || conj(h, 8) == 8 || conj(h, 8) == 10);
    assert(conj(h, 10) == 6 || conj(h, 10) == 8 || conj(h, 10) == 10);
    if mirror_even(s) {
        if fixes(6, s) {
            lemma_conj_conj(h, 6);
            let e = conj(hi, 6);
            lemma_fixes_transfer(h, e, s);
            assert(e == 6 || e == 8 || e == 10);
            assert(fixes(e, s2));
        } else if fixes(8, s) {
            lemma_conj_conj(h, 8);
            let e = conj(hi, 8);
            lemma_fixes_transfer(h, e, s);
            assert(e == 6 || e == 8 || e == 10);
            assert(fixes(e, s2));
        } else {
            lemma_conj_conj(h, 10);
            let e = conj(hi, 10);
            lemma_fixes_transfer(h, e, s);
            assert(e == 6 || e == 8 || e == 10);
            assert(fixes(e, s2));
        }
        assert(mirror_even(s2));
    }
}

/// Whether some odd-indexed reflection fixes the shape is invariant
/// under transforming the shape.
proof fn lemma_mirror_odd_orbit(h: int, s: Seq<(int, int)>)
    requires
        op_in_range(h),
    ensures
        mirror_odd(map_op(h, s)) == mirror_odd(s),
{
    let s2 = map_op(h, s);
    let hi = op_inverse(h);
    lemma_compose_basics(h, h);
    lemma_fixes_transfer(h, 7, s);
    lemma_fixes_transfer(h, 9, s);
    lemma_fixes_transfer(h, 11, s);
    assert(conj(h, 7) == 7 || conj(h, 7) == 9 || conj(h, 7) == 11);
    assert(conj(h, 9) == 7 || conj(h, 9) == 9 || conj(h, 9) == 11);
    assert(conj(h, 11) == 7 || conj(h, 11) == 9 || conj(h, 11) == 11);
    if mirror_odd(s) {
        if fixes(7, s) {
            lemma_conj_conj(h, 7);
            let e = conj(hi, 7);
            lemma_fixes_transfer(h, e, s);
            assert(e == 7 || e == 9 || e == 11);
            assert(fixes(e, s2));
        } else if fixes(9, s) {
            lemma_conj_conj(h, 9);
            let e = conj(hi, 9);
            lemma_fixes_transfer(h, e, s);
            assert(e == 7 || e == 9 || e == 11);
            assert(fixes(e, s2));
        } else {
            lemma_conj_conj(h, 11);
            let e = conj(hi, 11);
            lemma_fixes_transfer(h, e, s);
            assert(e == 7 || e == 9 || e == 11);
            assert(fixes(e, s2));
        }
        assert(mirror_odd(s2));
    }
}

/// Orbit invariance of the classification: every symmetry image of a
/// shape is classified with the same label as the shape itself.
pub proof fn lemma_classify_orbit(s: Seq<(int, int)>, h: int)
    requires
        op_in_range(h),
    ensures
        classify(map_op(h, s)) == classify(s),
{
    let s2 = map_op(h, s);
    lemma_compose_basics(h, h);
    lemma_fixes_transfer(h, 1, s);
    lemma_fixes_transfer(h, 2, s);
    lemma_fixes_transfer(h, 3, s);
    assert(conj(h, 1) == 1 || conj(h, 1) == 5);
    assert(conj(h, 2) == 2 || conj(h, 2) == 4);
    assert(conj(h, 3) == 3);
    if fixes(5, s) {
        lemma_fixes_inverse(5, s);
    }
    if fixes(1, s) {
        lemma_fixes_inverse(1, s);
    }
    if fixes(4, s) {
        lemma_fixes_inverse(4, s);
    }
    if fixes(2, s) {
        lemma_fixes_inverse(2, s);
    }
    assert(fixes(1, s2) == fixes(1, s));
    assert(fixes(2, s2) == fixes(2, s));
    assert(fixes(3, s2) == fixes(3, s));
    lemma_mirror_even_orbit(h, s);
    lemma_mirror_odd_orbit(h, s);
}

/// Orbit invariance: for any shape and any of its twelve symmetry
/// images, the free canonicalization returns the same canonical shape
/// and the same symmetry label.
pub proof fn lemma_canonize_free_orbit(s: Seq<(int, int)>, h: int)
    requires
        op_in_range(h),
    ensures
        free_canon(map_op(h, s)) == free_canon(s),
        classify(map_op(h, s)) == classify(s),
{
    lemma_free_canon_orbit(s, h);
    lemma_classify_orbit(s, h);
}


/// Shapes with pointwise-equal images have the same least image.
proof fn lemma_min_image_congruent(s1: Seq<(int, int)>, s2: Seq<(int, int)>, n: int)
    requires
        1 <= n <= 12,
        forall|e: int| 0 <= e < 12 ==> #[trigger] image(e, s1) == image(e, s2),
    ensures
        min_image_upto(s1, n) == min_image_upto(s2, n),
    decreases n,
{
    if n > 1 {
        lemma_min_image_congruent(s1, s2, n - 1);
    }
}

/// Canonicalizing first does not change the free canonical form.
pub proof fn lemma_free_canon_of_canon(s: Seq<(int, int)>)
    ensures
        free_canon(canon_fixed(s)) == free_canon(s),
{
    lemma_canonize_fixed_idempotent(s);
    assert forall|e: int| 0 <= e < 12 implies #[trigger] image(e, canon_fixed(s)) == image(
        e,
        s,
    ) by {
        lemma_image_congruent(e, canon_fixed(s), s);
    }
    lemma_min_image_congruent(canon_fixed(s), s, 12);
}

/// The free canonical form is a fixed point: canonicalizing a free
/// canonical form returns it unchanged.
pub proof fn lemma_free_canon_fixed_point(s: Seq<(int, int)>)
    ensures
        free_canon(free_canon(s)) == free_canon(s),
{
    lemma_free_canon_min(s);
    let e0 = choose|e: int| op_in_range(e) && free_canon(s) == image(e, s);
    lemma_free_canon_of_canon(map_op(e0, s));
    lemma_free_canon_orbit(s, e0);
}

/// Two shapes are symmetry-equivalent when some symmetry image of one
/// has the canonical form of the other.
pub open spec fn symmetry_equivalent(a: Seq<(int, int)>, b: Seq<(int, int)>) -> bool {
    exists|e: int| op_in_range(e) && #[trigger] image(e, a) == image(0, b)
}

/// Uniqueness: two distinct free-canonical forms are never symmetry
/// equivalent to each other.
pub proof fn lemma_free_canon_unique(a: Seq<(int, int)>, b: Seq<(int, int)>)
    requires
        free_canon(a) == a,
        free_canon(b) == b,
        a != b,
    ensures
        !symmetry_equivalent(a, b),
{
    if symmetry_equivalent(a, b) {
        let e = choose|e: int| op_in_range(e) && #[trigger] image(e, a) == image(0, b);
        lemma_free_canon_of_canon(map_op(e, a));
        lemma_free_canon_orbit(a, e);
        assert(free_canon(image(e, a)) == a);
        assert(map_op(0, b) =~= b);
        assert(image(0, b) == canon_fixed(b));
        lemma_free_canon_of_canon(b);
        assert(free_canon(image(0, b)) == b);
        assert(false);
    }
}


/// The operations fixing a shape are closed under composition.
proof fn lemma_fixes_compose(a: int, b: int, s: Seq<(int, int)>)
    requires
        op_in_range(a),
        op_in_range(b),
        fixes(a, s),
        fixes(b, s),
    ensures
        fixes(compose(a, b), s),
{
    lemma_image_eq_transfer(a, b, 0, s);
    lemma_compose_basics(a, b);
    lemma_compose_basics(a, 0);
}

/// The stabilizer-order cross-check holds of every shape: the number
/// of symmetry operations fixing a shape divides 12 exactly, because
/// those operations form a subgroup of the 12-element symmetry group.
pub proof fn lemma_stab_order_divides(s: Seq<(int, int)>)
    ensures
        1 <= stab_order(s) <= 12,
        12int % stab_order(s) == 0,
{
    reveal_with_fuel(stab_count_upto, 13);
    assert(fixes(0, s));
    // rotation subgroup closure
    if fixes(5, s) {
        lemma_fixes_inverse(5, s);
    }
    if fixes(4, s) {
        lemma_fixes_inverse(4, s);
    }
    if fixes(1, s) {
        lemma_fixes_compose(1, 1, s);
        lemma_fixes_compose(2, 1, s);
        lemma_fixes_compose(3, 1, s);
        lemma_fixes_compose(4, 1, s);
    }
    if fixes(2, s) {
        lemma_fixes_compose(2, 2, s);
    }
    if fixes(2, s) && fixes(3, s) {
        lemma_fixes_compose(2, 3, s);
        lemma_fixes_inverse(5, s);
    }
    if fixes(1, s) {
        // all six rotations fix the shape
        if fixes(6, s) || fixes(7, s) || fixes(8, s) || fixes(9, s) || fixes(10, s) || fixes(
            11,
            s,
        ) {
            if fixes(6, s) {
                lemma_fixes_compose(6, 1, s);
                lemma_fixes_compose(6, 2, s);
                lemma_fixes_compose(6, 3, s);
                lemma_fixes_compose(6, 4, s);
                lemma_fixes_compose(6, 5, s);
            } else if fixes(7, s) {
                lemma_fixes_compose(7, 1, s);
                lemma_fixes_compose(7, 2, s);
                lemma_fixes_compose(7, 3, s);
                lemma_fixes_compose(7, 4, s);
                lemma_fixes_compose(7, 5, s);
            } else if fixes(8, s) {
                lemma_fixes_compose(8, 1, s);
                lemma_fixes_compose(8, 2, s);
                lemma_fixes_compose(8, 3, s);
                lemma_fixes_compose(8, 4, s);
                lemma_fixes_compose(8, 5, s);
            } else if fixes(9, s) {
                lemma_fixes_compose(9, 1, s);
                lemma_fixes_compose(9, 2, s);
                lemma_fixes_compose(9, 3, s);
                lemma_fixes_compose(9, 4, s);
                lemma_fixes_compose(9, 5, s);
            } else if fixes(10, s) {
                lemma_fixes_compose(10, 1, s);
                lemma_fixes_compose(10, 2, s);
                lemma_fixes_compose(10, 3, s);
                lemma_fixes_compose(10, 4, s);
                lemma_fixes_compose(10, 5, s);
            } else {
                lemma_fixes_compose(11, 1, s);
                lemma_fixes_compose(11, 2, s);
                lemma_fixes_compose(11, 3, s);
                lemma_fixes_compose(11, 4, s);
                lemma_fixes_compose(11, 5, s);
            }
            assert(stab_order(s) == 12);
        } else {
            assert(stab_order(s) == 6);
        }
    } else if fixes(2, s) {
        // exactly the rotations 0, 2, 4 fix the shape
        if fixes(6, s) || fixes(8, s) || fixes(10, s) {
            if fixes(8, s) {
                lemma_fixes_compose(8, 2, s);
            }
            if fixes(10, s) {
                lemma_fixes_compose(10, 4, s);
            }
            lemma_fixes_compose(6, 2, s);
            lemma_fixes_compose(6, 4, s);
        }
        if fixes(7, s) || fixes(9, s) || fixes(11, s) {
            if fixes(9, s) {
                lemma_fixes_compose(9, 2, s);
            }
            if fixes(11, s) {
                lemma_fixes_compose(11, 4, s);
            }
            lemma_fixes_compose(7, 2, s);
            lemma_fixes_compose(7, 4, s);
        }
        if fixes(6, s) && fixes(7, s) {
            lemma_fixes_compose(6, 7, s);
            lemma_fixes_inverse(5, s);
        }
        if fixes(6, s) {
            assert(stab_order(s) == 6);
        } else if fixes(7, s) {
            assert(stab_order(s) == 6);
        } else {
            assert(stab_order(s) == 3);
        }
    } else if fixes(3, s) {
        // exactly the rotations 0 and 3 fix the shape
        if fixes(9, s) {
            lemma_fixes_compose(9, 3, s);
        }
        if fixes(10, s) {
            lemma_fixes_compose(10, 3, s);
        }
        if fixes(11, s) {
            lemma_fixes_compose(11, 3, s);
        }
        if fixes(6, s) {
            lemma_fixes_compose(6, 3, s);
        }
        if fixes(7, s) {
            lemma_fixes_compose(7, 3, s);
        }
        if fixes(8, s) {
            lemma_fixes_compose(8, 3, s);
        }
        if fixes(6, s) && fixes(7, s) {
            lemma_fixes_compose(6, 7, s);
            lemma_fixes_inverse(5, s);
        }
        if fixes(6, s) && fixes(8, s) {
            lemma_fixes_compose(6, 8, s);
            lemma_fixes_inverse(4, s);
        }
        if fixes(7, s) && fixes(8, s) {
            lemma_fixes_compose(7, 8, s);
            lemma_fixes_inverse(5, s);
        }
        if fixes(6, s) {
            assert(stab_order(s) == 4);
        } else if fixes(7, s) {
            assert(stab_order(s) == 4);
        } else if fixes(8, s) {
            assert(stab_order(s) == 4);
        } else {
            assert(stab_order(s) == 2);
        }
    } else {
        // only the identity rotation fixes the shape; at most one
        // reflection can, since two would compose to a rotation
        if fixes(6, s) && fixes(7, s) {
            lemma_fixes_compose(6, 7, s);
            lemma_fixes_inverse(5, s);
        }
        if fixes(6, s) && fixes(8, s) {
            lemma_fixes_compose(6, 8, s);
            lemma_fixes_inverse(4, s);
        }
        if fixes(6, s) && fixes(9, s) {
            lemma_fixes_compose(6, 9, s);
        }
        if fixes(6, s) && fixes(10, s) {
            lemma_fixes_compose(6, 10, s);
        }
        if fixes(6, s) && fixes(11, s) {
            lemma_fixes_compose(6, 11, s);
        }
        if fixes(7, s) && fixes(8, s) {
            lemma_fixes_compose(7, 8, s);
            lemma_fixes_inverse(5, s);
        }
        if fixes(7, s) && fixes(9, s) {
            lemma_fixes_compose(7, 9, s);
            lemma_fixes_inverse(4, s);
        }
        if fixes(7, s) && fixes(10, s) {
            lemma_fixes_compose(7, 10, s);
        }
        if fixes(7, s) && fixes(11, s) {
            lemma_fixes_compose(7, 11, s);
        }
        if fixes(8, s) && fixes(9, s) {
            lemma_fixes_compose(8, 9, s);
            lemma_fixes_inverse(5, s);
        }
        if fixes(8, s) && fixes(10, s) {
            lemma_fixes_compose(8, 10, s);
            lemma_fixes_inverse(4, s);
        }
        if fixes(8, s) && fixes(11, s) {
            lemma_fixes_compose(8, 11, s);
        }
        if fixes(9, s) && fixes(10, s) {
            lemma_fixes_compose(9, 10, s);
            lemma_fixes_inverse(5, s);
        }
        if fixes(9, s) && fixes(11, s) {
            lemma_fixes_compose(9, 11, s);
            lemma_fixes_inverse(4, s);
        }
        if fixes(10, s) && fixes(11, s) {
            lemma_fixes_compose(10, 11, s);
            lemma_fixes_inverse(5, s);
        }
        if fixes(6, s) || fixes(7, s) || fixes(8, s) || fixes(9, s) || fixes(10, s) || fixes(
            11,
            s,
        ) {
            assert(stab_order(s) == 2);
        } else {
            assert(stab_order(s) == 1);
        }
    }
}

/// Classification agrees on a shape and its canonical form.
proof fn lemma_classify_of_canon(t: Seq<(int, int)>)
    ensures
        classify(canon_fixed(t)) == classify(t),
{
    lemma_canonize_fixed_idempotent(t);
    assert forall|e: int| 0 <= e < 12 implies #[trigger] image(e, canon_fixed(t)) == image(
        e,
        t,
    ) by {
        lemma_image_congruent(e, canon_fixed(t), t);
    }
    assert(fixes(1, canon_fixed(t)) == fixes(1, t));
    assert(fixes(2, canon_fixed(t)) == fixes(2, t));
    assert(fixes(3, canon_fixed(t)) == fixes(3, t));
    assert(mirror_even(canon_fixed(t)) == mirror_even(t));
    assert(mirror_odd(canon_fixed(t)) == mirror_odd(t));
}

/// Orbit invariance at the level of the executable transforms: the
/// rotated or reflected copy of a shape, as `rotate` and `flip_x`
/// return it, has the same free canonical form and the same label as
/// the shape itself.
pub proof fn lemma_canonize_free_transform_orbit(s: Seq<(int, int)>)
    ensures
        free_canon(canon_fixed(map_rot(s))) == free_canon(s),
        classify(canon_fixed(map_rot(s))) == classify(s),
        free_canon(canon_fixed(map_flip(s))) == free_canon(s),
        classify(canon_fixed(map_flip(s))) == classify(s),
{
    assert(map_rot(s) =~= map_op(1, s)) by {
        assert forall|i: int| 0 <= i < s.len() implies map_rot(s)[i] == map_op(1, s)[i] by {
            assert(apply_op(1, s[i]) == rot_c(rot_iter(0, s[i])));
        }
    }
    assert(map_flip(s) =~= map_op(6, s)) by {
        assert forall|i: int| 0 <= i < s.len() implies map_flip(s)[i] == map_op(6, s)[i] by {
            assert(apply_op(6, s[i]) == flip_c(s[i]));
        }
    }
    lemma_canonize_free_orbit(s, 1);
    lemma_canonize_free_orbit(s, 6);
    lemma_free_canon_of_canon(map_rot(s));
    lemma_free_canon_of_canon(map_flip(s));
    lemma_classify_of_canon(map_rot(s));
    lemma_classify_of_canon(map_flip(s));
}

/// A shape and its free canonical form are classified alike.
pub proof fn lemma_classify_free_canon(c: Seq<(int, int)>)
    ensures
        classify(free_canon(c)) == classify(c),
{
    lemma_free_canon_min(c);
    let e = choose|e: int| op_in_range(e) && free_canon(c) == image(e, c);
    lemma_classify_of_canon(map_op(e, c));
    lemma_classify_orbit(c, e);
}

/// Candidates that share a free canonical form always carry the same
/// classification: repeated insertions for one key agree on the
/// label, so deduplication needs no tie resolution.
pub proof fn lemma_label_agreement(c1: Seq<(int, int)>, c2: Seq<(int, int)>)
    requires
        free_canon(c1) == free_canon(c2),
    ensures
        classify(c1) == classify(c2),
{
    lemma_classify_free_canon(c1);
    lemma_classify_free_canon(c2);
}

/// Symmetry operations keep distinct cells distinct.
proof fn lemma_apply_op_injective(e: int, p1: (int, int), p2: (int, int))
    requires
        op_in_range(e),
        apply_op(e, p1) == apply_op(e, p2),
    ensures
        p1 == p2,
{
    let ei = op_inverse(e);
    lemma_compose_basics(e, e);
    lemma_apply_compose_point(ei, e, p1);
    lemma_apply_compose_point(ei, e, p2);
    lemma_compose_basics(ei, e);
    assert(apply_op(0, p1) == p1);
    assert(apply_op(0, p2) == p2);
}

/// Every symmetry image of a shape with distinct cells has distinct
/// cells.
pub proof fn lemma_image_no_dup(e: int, s: Seq<(int, int)>)
    requires
        op_in_range(e),
        s.no_duplicates(),
    ensures
        image(e, s).no_duplicates(),
{
    let m = map_op(e, s);
    assert forall|i: int, j: int|
        0 <= i < m.len() && 0 <= j < m.len() && i != j implies m[i] != m[j] by {
        assert(s[i] != s[j]);
        if m[i] == m[j] {
            lemma_apply_op_injective(e, s[i], s[j]);
        }
    }
    assert(m.no_duplicates());
    lemma_canon_fixed_no_dup(m);
}

/// The free canonical form of a shape with distinct cells has
/// distinct cells.
pub proof fn lemma_free_canon_no_dup(s: Seq<(int, int)>)
    requires
        s.no_duplicates(),
    ensures
        free_canon(s).no_duplicates(),
{
    lemma_free_canon_min(s);
    let e = choose|e: int| op_in_range(e) && free_canon(s) == image(e, s);
    lemma_image_no_dup(e, s);
}

} // verus!
