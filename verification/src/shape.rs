//! Shapes (polyhexes) as ordered sequences of cells, and the
//! position-independent canonical form: translate so that the minimum
//! on each axis becomes 0, then sort the cells into the fixed total
//! order.

use vstd::prelude::*;
use vstd::relations::sorted_by;
use vstd::seq_lib::group_to_multiset_ensures;
use vstd::seq_lib::lemma_sorted_unique;

use crate::coord::Coord;
use crate::coord::rot_c;
use crate::coord::flip_c;
use crate::order::coord_le;
use crate::order::shape_le;
use crate::order::coord_eq_exec;
use crate::order::coord_le_exec;
use crate::order::coord_leq_fn;
use crate::order::lemma_coord_le_total_ordering;

verus! {

/// A shape on the hexagonal lattice: a sequence of distinct cells.
/// Its mathematical model is the sequence of coordinate pairs.
#[derive(Clone, PartialEq, Eq, Debug)]
pub struct Polyhex(pub Vec<Coord>);

/// The model of a sequence of cells: its coordinate pairs.
pub open spec fn cells_view(v: Seq<Coord>) -> Seq<(int, int)> {
    Seq::new(v.len(), |i: int| v[i]@)
}

impl View for Polyhex {
    type V = Seq<(int, int)>;

    open spec fn view(&self) -> Seq<(int, int)> {
        cells_view(self.0@)
    }
}

/// All coordinates of the shape lie within `[-b, b]` on both axes.
pub open spec fn coords_within(s: Seq<(int, int)>, b: int) -> bool {
    forall|i: int|
        0 <= i < s.len() ==> -b <= (#[trigger] s[i]).0 <= b && -b <= s[i].1 <= b
}

/// The least first coordinate over the shape; 0 for the empty shape.
pub open spec fn xs_min(s: Seq<(int, int)>) -> int
    decreases s.len(),
{
    if s.len() == 0 {
        0
    } else if s.len() == 1 {
        s[0].0
    } else {
        let m = xs_min(s.drop_last());
        if s.last().0 <= m {
            s.last().0
        } else {
            m
        }
    }
}

/// The least second coordinate over the shape; 0 for the empty shape.
pub open spec fn ys_min(s: Seq<(int, int)>) -> int
    decreases s.len(),
{
    if s.len() == 0 {
        0
    } else if s.len() == 1 {
        s[0].1
    } else {
        let m = ys_min(s.drop_last());
        if s.last().1 <= m {
            s.last().1
        } else {
            m
        }
    }
}

/// Every cell shifted by the same offset.
pub open spec fn translate(s: Seq<(int, int)>, dx: int, dy: int) -> Seq<(int, int)> {
    Seq::new(s.len(), |i: int| (s[i].0 + dx, s[i].1 + dy))
}

/// Every cell rotated by one 60-degree step.
pub open spec fn map_rot(s: Seq<(int, int)>) -> Seq<(int, int)> {
    Seq::new(s.len(), |i: int| rot_c(s[i]))
}

/// Every cell reflected.
pub open spec fn map_flip(s: Seq<(int, int)>) -> Seq<(int, int)> {
    Seq::new(s.len(), |i: int| flip_c(s[i]))
}

/// The shape translated so the least value on each axis becomes 0.
pub open spec fn norm(s: Seq<(int, int)>) -> Seq<(int, int)> {
    translate(s, -xs_min(s), -ys_min(s))
}

/// The position-independent canonical form: normalized, then sorted
/// into the fixed total order.
pub open spec fn canon_fixed(s: Seq<(int, int)>) -> Seq<(int, int)> {
    norm(s).sort_by(coord_leq_fn())
}

/// The least first coordinate is attained by some cell and is a lower
/// bound for all cells.
pub proof fn lemma_xs_min_props(s: Seq<(int, int)>)
    requires
        s.len() > 0,
    ensures
        exists|i: int| 0 <= i < s.len() && #[trigger] s[i].0 == xs_min(s),
        forall|i: int| 0 <= i < s.len() ==> #[trigger] s[i].0 >= xs_min(s),
    decreases s.len(),
{
    if s.len() == 1 {
        assert(s[0].0 == xs_min(s));
    } else {
        lemma_xs_min_props(s.drop_last());
        let t = s.drop_last();
        if s.last().0 <= xs_min(t) {
            assert(s[s.len() - 1].0 == xs_min(s));
        } else {
            let j = choose|j: int| 0 <= j < t.len() && #[trigger] t[j].0 == xs_min(t);
            assert(s[j].0 == xs_min(s));
        }
        assert forall|i: int| 0 <= i < s.len() implies #[trigger] s[i].0 >= xs_min(s) by {
            if i < s.len() - 1 {
                assert(t[i].0 >= xs_min(t));
            }
        }
    }
}

/// The least second coordinate is attained by some cell and is a
/// lower bound for all cells.
pub proof fn lemma_ys_min_props(s: Seq<(int, int)>)
    requires
        s.len() > 0,
    ensures
        exists|i: int| 0 <= i < s.len() && #[trigger] s[i].1 == ys_min(s),
        forall|i: int| 0 <= i < s.len() ==> #[trigger] s[i].1 >= ys_min(s),
    decreases s.len(),
{
    if s.len() == 1 {
        assert(s[0].1 == ys_min(s));
    } else {
        lemma_ys_min_props(s.drop_last());
        let t = s.drop_last();
        if s.last().1 <= ys_min(t) {
            assert(s[s.len() - 1].1 == ys_min(s));
        } else {
            let j = choose|j: int| 0 <= j < t.len() && #[trigger] t[j].1 == ys_min(t);
            assert(s[j].1 == ys_min(s));
        }
        assert forall|i: int| 0 <= i < s.len() implies #[trigger] s[i].1 >= ys_min(s) by {
            if i < s.len() - 1 {
                assert(t[i].1 >= ys_min(t));
            }
        }
    }
}

/// Sort the cells into the fixed total order.
fn sort_cells(v: Vec<Coord>) -> (r: Vec<Coord>)
    ensures
        sorted_by(cells_view(r@), coord_leq_fn()),
        cells_view(r@).to_multiset() == cells_view(v@).to_multiset(),
{
    broadcast use group_to_multiset_ensures;

    let mut out: Vec<Coord> = Vec::new();
    let mut i: usize = 0;
    proof {
        assert(cells_view(out@) =~= Seq::<(int, int)>::empty());
        assert(cells_view(v@.take(0int)) =~= Seq::<(int, int)>::empty());
    }
    while i < v.len()
        invariant
            i <= v.len(),
            sorted_by(cells_view(out@), coord_leq_fn()),
            cells_view(out@).to_multiset() == cells_view(v@.take(i as int)).to_multiset(),
        decreases v.len() - i,
    {
        let c = v[i];
        let mut j: usize = 0;
        while j < out.len() && coord_le_exec(&out[j], &c)
            invariant
                j <= out.len(),
                forall|k: int| 0 <= k < j ==> coord_le(#[trigger] cells_view(out@)[k], c@),
            decreases out.len() - j,
        {
            j += 1;
        }
        let ghost old_out = cells_view(out@);
        let ghost leq = coord_leq_fn();
        out.insert(j, c);
        proof {
            let new_out = cells_view(out@);
            assert(new_out =~= old_out.insert(j as int, c@));
            vstd::seq_lib::to_multiset_insert(old_out, j as int, c@);
            assert(cells_view(v@.take(i + 1int)) =~= cells_view(v@.take(i as int)).push(c@));
            vstd::seq_lib::to_multiset_build(cells_view(v@.take(i as int)), c@);
            assert forall|p: int, q: int| 0 <= p < q < new_out.len() implies
                #[trigger] leq(new_out[p], new_out[q]) by {
                if q < j {
                    assert(leq(old_out[p], old_out[q]));
                } else if p > j {
                    assert(leq(old_out[p - 1], old_out[q - 1]));
                } else if p == j && q > j {
                    // c goes before every cell from position j on
                    assert(!coord_le(old_out[j as int], c@));
                    assert(coord_le(c@, old_out[j as int]));
                    if q - 1 > j {
                        assert(leq(old_out[j as int], old_out[q - 1]));
                    }
                } else if p < j && q == j {
                    assert(coord_le(old_out[p], c@));
                } else {
                    assert(coord_le(old_out[p], c@));
                    assert(coord_le(c@, old_out[j as int]));
                    assert(leq(old_out[j as int], old_out[q - 1]));
                }
            }
            assert(sorted_by(new_out, coord_leq_fn()));
        }
        i += 1;
    }
    proof {
        assert(v@.take(v@.len() as int) =~= v@);
    }
    out
}

impl Polyhex {
    /// Translate the shape so the least value on each axis becomes 0,
    /// then sort the cells into the fixed total order.
    pub fn canonize_fixed(&self) -> (r: Polyhex)
        requires
            coords_within(self@, 0x3FFF_FFFF),
        ensures
            r@ == canon_fixed(self@),
    {
        broadcast use group_to_multiset_ensures;

        let n = self.0.len();
        if n == 0 {
            let r = Polyhex(Vec::new());
            proof {
                assert(self@.len() == 0);
                assert(norm(self@) =~= Seq::<(int, int)>::empty());
                lemma_coord_le_total_ordering();
                norm(self@).lemma_sort_by_ensures(coord_leq_fn());
                assert(r@ =~= Seq::<(int, int)>::empty());
                lemma_sorted_unique(canon_fixed(self@), r@, coord_leq_fn());
            }
            return r;
        }
        proof {
            lemma_xs_min_props(self@);
            lemma_ys_min_props(self@);
        }
        let mut min_x: i32 = self.0[0].0;
        let mut min_y: i32 = self.0[0].1;
        let mut i: usize = 1;
        proof {
            assert(self@.take(1int) =~= seq![self@[0]]);
        }
        while i < n
            invariant
                1 <= i <= n,
                n == self.0.len(),
                coords_within(self@, 0x3FFF_FFFF),
                min_x as int == xs_min(self@.take(i as int)),
                min_y as int == ys_min(self@.take(i as int)),
            decreases n - i,
        {
            let c = self.0[i];
            proof {
                assert(self@.take(i + 1int).drop_last() =~= self@.take(i as int));
                assert(self@.take(i + 1int).last() == self@[i as int]);
            }
            if c.0 < min_x {
                min_x = c.0;
            }
            if c.1 < min_y {
                min_y = c.1;
            }
            i += 1;
        }
        proof {
            assert(self@.take(n as int) =~= self@);
        }
        let mut shifted: Vec<Coord> = Vec::new();
        let mut i: usize = 0;
        proof {
            assert(cells_view(shifted@) =~= norm(self@).take(0int));
        }
        while i < n
            invariant
                i <= n,
                n == self.0.len(),
                coords_within(self@, 0x3FFF_FFFF),
                min_x as int == xs_min(self@),
                min_y as int == ys_min(self@),
                exists|k: int| 0 <= k < self@.len() && #[trigger] self@[k].0 == xs_min(self@),
                exists|k: int| 0 <= k < self@.len() && #[trigger] self@[k].1 == ys_min(self@),
                forall|k: int| 0 <= k < self@.len() ==> #[trigger] self@[k].0 >= xs_min(self@),
                forall|k: int| 0 <= k < self@.len() ==> #[trigger] self@[k].1 >= ys_min(self@),
                cells_view(shifted@) =~= norm(self@).take(i as int),
            decreases n - i,
        {
            let c = self.0[i];
            proof {
                assert(self@[i as int] == (c.0 as int, c.1 as int));
                assert(self@[i as int].0 >= xs_min(self@));
                assert(self@[i as int].1 >= ys_min(self@));
                let kx = choose|k: int|
                    0 <= k < self@.len() && #[trigger] self@[k].0 == xs_min(self@);
                assert(-0x3FFF_FFFF <= self@[kx].0 <= 0x3FFF_FFFF);
                let ky = choose|k: int|
                    0 <= k < self@.len() && #[trigger] self@[k].1 == ys_min(self@);
                assert(-0x3FFF_FFFF <= self@[ky].0 <= 0x3FFF_FFFF);
                assert(-0x3FFF_FFFF <= self@[ky].1 <= 0x3FFF_FFFF);
            }
            let nc = Coord(c.0 - min_x, c.1 - min_y);
            let ghost pre = cells_view(shifted@);
            shifted.push(nc);
            proof {
                assert(nc@ == (self@[i as int].0 - xs_min(self@), self@[i as int].1 - ys_min(
                    self@,
                )));
                assert(norm(self@)[i as int] == nc@);
                assert(cells_view(shifted@) =~= pre.push(nc@));
                assert(norm(self@).take(i + 1int) =~= norm(self@).take(i as int).push(
                    norm(self@)[i as int],
                ));
                assert(cells_view(shifted@) =~= norm(self@).take(i + 1int));
            }
            i += 1;
        }
        proof {
            assert(norm(self@).take(n as int) =~= norm(self@));
        }
        let sorted = sort_cells(shifted);
        let r = Polyhex(sorted);
        proof {
            lemma_coord_le_total_ordering();
            norm(self@).lemma_sort_by_ensures(coord_leq_fn());
            lemma_sorted_unique(r@, canon_fixed(self@), coord_leq_fn());
        }
        r
    }
}


/// Sequences with the same multiset of cells have the same length.
pub proof fn lemma_len_multiset(a: Seq<(int, int)>, b: Seq<(int, int)>)
    requires
        a.to_multiset() == b.to_multiset(),
    ensures
        a.len() == b.len(),
{
    vstd::seq_lib::to_multiset_len(a);
    vstd::seq_lib::to_multiset_len(b);
}

/// Two sequences with the same cells have pointwise images with the
/// same cells, for any transform applied cell by cell.
pub proof fn lemma_map_pointwise_multiset(
    s1: Seq<(int, int)>,
    s2: Seq<(int, int)>,
    t1: Seq<(int, int)>,
    t2: Seq<(int, int)>,
    f: spec_fn((int, int)) -> (int, int),
)
    requires
        s1.to_multiset() == s2.to_multiset(),
        t1.len() == s1.len(),
        t2.len() == s2.len(),
        forall|i: int| 0 <= i < s1.len() ==> t1[i] == f(#[trigger] s1[i]),
        forall|i: int| 0 <= i < s2.len() ==> t2[i] == f(#[trigger] s2[i]),
    ensures
        t1.to_multiset() == t2.to_multiset(),
    decreases s1.len(),
{
    broadcast use group_to_multiset_ensures;
    broadcast use vstd::multiset::group_multiset_axioms;

    lemma_len_multiset(s1, s2);
    if s1.len() == 0 {
        assert(t1 =~= t2);
    } else {
        let a = s1[0];
        assert(s1.contains(a));
        assert(s1.to_multiset().count(a) > 0);
        assert(s2.to_multiset().count(a) > 0);
        assert(s2.contains(a));
        let j = choose|j: int| 0 <= j < s2.len() && s2[j] == a;
        let s1r = s1.remove(0);
        let s2r = s2.remove(j);
        assert(s1r.to_multiset() =~= s1.to_multiset().remove(a));
        assert(s2r.to_multiset() =~= s2.to_multiset().remove(a));
        let t1r = t1.remove(0);
        let t2r = t2.remove(j);
        assert forall|i: int| 0 <= i < s1r.len() implies t1r[i] == f(#[trigger] s1r[i]) by {
            assert(s1r[i] == s1[i + 1]);
            assert(t1r[i] == t1[i + 1]);
        }
        assert forall|i: int| 0 <= i < s2r.len() implies t2r[i] == f(#[trigger] s2r[i]) by {
            if i < j {
                assert(s2r[i] == s2[i]);
                assert(t2r[i] == t2[i]);
            } else {
                assert(s2r[i] == s2[i + 1]);
                assert(t2r[i] == t2[i + 1]);
            }
        }
        lemma_map_pointwise_multiset(s1r, s2r, t1r, t2r, f);
        assert(t1r.to_multiset() =~= t1.to_multiset().remove(t1[0]));
        assert(t1[0] == f(a));
        assert(t1.contains(t1[0]));
        assert(t1.to_multiset().count(f(a)) > 0);
        assert(t1r.to_multiset().insert(f(a)) =~= t1.to_multiset());
        assert(t2r.to_multiset() =~= t2.to_multiset().remove(t2[j]));
        assert(t2[j] == f(a));
        assert(t2.contains(t2[j]));
        assert(t2.to_multiset().count(f(a)) > 0);
        assert(t2r.to_multiset().insert(f(a)) =~= t2.to_multiset());
        assert(t1.to_multiset() =~= t2.to_multiset());
    }
}

/// Sequences with the same cells have the same least coordinates.
pub proof fn lemma_mins_multiset(s1: Seq<(int, int)>, s2: Seq<(int, int)>)
    requires
        s1.to_multiset() == s2.to_multiset(),
    ensures
        xs_min(s1) == xs_min(s2),
        ys_min(s1) == ys_min(s2),
{
    broadcast use group_to_multiset_ensures;

    lemma_len_multiset(s1, s2);
    if s1.len() > 0 {
        lemma_xs_min_props(s1);
        lemma_xs_min_props(s2);
        lemma_ys_min_props(s1);
        lemma_ys_min_props(s2);
        let i1 = choose|i: int| 0 <= i < s1.len() && #[trigger] s1[i].0 == xs_min(s1);
        assert(s1.contains(s1[i1]));
        assert(s1.to_multiset().count(s1[i1]) > 0);
        assert(s2.to_multiset().count(s1[i1]) > 0);
        assert(s2.contains(s1[i1]));
        let k1 = choose|k: int| 0 <= k < s2.len() && s2[k] == s1[i1];
        assert(s2[k1].0 >= xs_min(s2));
        let i2 = choose|i: int| 0 <= i < s2.len() && #[trigger] s2[i].0 == xs_min(s2);
        assert(s2.contains(s2[i2]));
        assert(s2.to_multiset().count(s2[i2]) > 0);
        assert(s1.to_multiset().count(s2[i2]) > 0);
        assert(s1.contains(s2[i2]));
        let k2 = choose|k: int| 0 <= k < s1.len() && s1[k] == s2[i2];
        assert(s1[k2].0 >= xs_min(s1));
        let j1 = choose|i: int| 0 <= i < s1.len() && #[trigger] s1[i].1 == ys_min(s1);
        assert(s1.contains(s1[j1]));
        assert(s1.to_multiset().count(s1[j1]) > 0);
        assert(s2.to_multiset().count(s1[j1]) > 0);
        assert(s2.contains(s1[j1]));
        let l1 = choose|k: int| 0 <= k < s2.len() && s2[k] == s1[j1];
        assert(s2[l1].1 >= ys_min(s2));
        let j2 = choose|i: int| 0 <= i < s2.len() && #[trigger] s2[i].1 == ys_min(s2);
        assert(s2.contains(s2[j2]));
        assert(s2.to_multiset().count(s2[j2]) > 0);
        assert(s1.to_multiset().count(s2[j2]) > 0);
        assert(s1.contains(s2[j2]));
        let l2 = choose|k: int| 0 <= k < s1.len() && s1[k] == s2[j2];
        assert(s1[l2].1 >= ys_min(s1));
    }
}

/// Sequences with the same cells have the same canonical form: the
/// canonical form depends only on which cells the shape has.
pub proof fn lemma_canon_multiset(s1: Seq<(int, int)>, s2: Seq<(int, int)>)
    requires
        s1.to_multiset() == s2.to_multiset(),
    ensures
        canon_fixed(s1) == canon_fixed(s2),
{
    lemma_mins_multiset(s1, s2);
    let f = |p: (int, int)| (p.0 - xs_min(s1), p.1 - ys_min(s1));
    lemma_map_pointwise_multiset(s1, s2, norm(s1), norm(s2), f);
    lemma_coord_le_total_ordering();
    norm(s1).lemma_sort_by_ensures(coord_leq_fn());
    norm(s2).lemma_sort_by_ensures(coord_leq_fn());
    lemma_sorted_unique(canon_fixed(s1), canon_fixed(s2), coord_leq_fn());
}

/// Translating a nonempty shape shifts its least coordinates.
pub proof fn lemma_mins_translate(s: Seq<(int, int)>, dx: int, dy: int)
    requires
        s.len() > 0,
    ensures
        xs_min(translate(s, dx, dy)) == xs_min(s) + dx,
        ys_min(translate(s, dx, dy)) == ys_min(s) + dy,
    decreases s.len(),
{
    let t = translate(s, dx, dy);
    if s.len() > 1 {
        lemma_mins_translate(s.drop_last(), dx, dy);
        assert(t.drop_last() =~= translate(s.drop_last(), dx, dy));
        assert(t.last() == (s.last().0 + dx, s.last().1 + dy));
    }
}

/// The canonical form ignores position: a translated shape has the
/// same canonical form.
pub proof fn lemma_canon_translate(s: Seq<(int, int)>, dx: int, dy: int)
    ensures
        canon_fixed(translate(s, dx, dy)) == canon_fixed(s),
{
    if s.len() == 0 {
        assert(translate(s, dx, dy) =~= s);
    } else {
        lemma_mins_translate(s, dx, dy);
        assert(norm(translate(s, dx, dy)) =~= norm(s));
    }
}

/// Rotating after canonicalizing gives the same canonical result as
/// rotating the shape itself.
pub proof fn lemma_canon_absorb_rot(t: Seq<(int, int)>)
    ensures
        canon_fixed(map_rot(canon_fixed(t))) == canon_fixed(map_rot(t)),
{
    let c = canon_fixed(t);
    lemma_coord_le_total_ordering();
    norm(t).lemma_sort_by_ensures(coord_leq_fn());
    let f = |p: (int, int)| rot_c(p);
    lemma_map_pointwise_multiset(c, norm(t), map_rot(c), map_rot(norm(t)), f);
    let dx = -xs_min(t);
    let dy = -ys_min(t);
    assert(map_rot(norm(t)) =~= translate(map_rot(t), dx - dy, dx));
    lemma_canon_multiset(map_rot(c), translate(map_rot(t), dx - dy, dx));
    lemma_canon_translate(map_rot(t), dx - dy, dx);
}

/// Reflecting after canonicalizing gives the same canonical result as
/// reflecting the shape itself.
pub proof fn lemma_canon_absorb_flip(t: Seq<(int, int)>)
    ensures
        canon_fixed(map_flip(canon_fixed(t))) == canon_fixed(map_flip(t)),
{
    let c = canon_fixed(t);
    lemma_coord_le_total_ordering();
    norm(t).lemma_sort_by_ensures(coord_leq_fn());
    let f = |p: (int, int)| flip_c(p);
    lemma_map_pointwise_multiset(c, norm(t), map_flip(c), map_flip(norm(t)), f);
    let dx = -xs_min(t);
    let dy = -ys_min(t);
    assert(map_flip(norm(t)) =~= translate(map_flip(t), dy - dx, dy));
    lemma_canon_multiset(map_flip(c), translate(map_flip(t), dy - dx, dy));
    lemma_canon_translate(map_flip(t), dy - dx, dy);
}

/// The position-independent canonical form is idempotent: applying it
/// twice equals applying it once, for all shapes.
pub proof fn lemma_canonize_fixed_idempotent(s: Seq<(int, int)>)
    ensures
        canon_fixed(canon_fixed(s)) == canon_fixed(s),
{
    broadcast use group_to_multiset_ensures;

    let c = canon_fixed(s);
    lemma_coord_le_total_ordering();
    norm(s).lemma_sort_by_ensures(coord_leq_fn());
    if s.len() == 0 {
        assert(norm(s) =~= s);
        lemma_len_multiset(c, norm(s));
        assert(norm(c) =~= c);
        c.lemma_sort_by_ensures(coord_leq_fn());
        lemma_sorted_unique(canon_fixed(c), c, coord_leq_fn());
    } else {
        lemma_xs_min_props(s);
        lemma_ys_min_props(s);
        let n = norm(s);
        lemma_xs_min_props(n);
        lemma_ys_min_props(n);
        let ix = choose|i: int| 0 <= i < s.len() && #[trigger] s[i].0 == xs_min(s);
        assert(n[ix].0 == 0);
        let iy = choose|i: int| 0 <= i < s.len() && #[trigger] s[i].1 == ys_min(s);
        assert(n[iy].1 == 0);
        assert(xs_min(n) == 0);
        assert(ys_min(n) == 0);
        lemma_mins_multiset(c, n);
        assert(norm(c) =~= c);
        c.lemma_sort_by_ensures(coord_leq_fn());
        lemma_sorted_unique(canon_fixed(c), c, coord_leq_fn());
    }
}

/// The canonical form keeps the cell count, puts every coordinate at
/// or above 0, and stays within twice the input bound.
pub proof fn lemma_canon_fixed_within(s: Seq<(int, int)>, b: int)
    requires
        coords_within(s, b),
        b >= 0,
    ensures
        canon_fixed(s).len() == s.len(),
        coords_within(canon_fixed(s), 2 * b),
        forall|i: int|
            0 <= i < canon_fixed(s).len() ==> #[trigger] canon_fixed(s)[i].0 >= 0
                && canon_fixed(s)[i].1 >= 0,
{
    broadcast use group_to_multiset_ensures;

    lemma_coord_le_total_ordering();
    norm(s).lemma_sort_by_ensures(coord_leq_fn());
    let c = canon_fixed(s);
    lemma_len_multiset(c, norm(s));
    if s.len() == 0 {
        assert(norm(s) =~= s);
    } else {
        lemma_xs_min_props(s);
        lemma_ys_min_props(s);
        let ix = choose|i: int| 0 <= i < s.len() && #[trigger] s[i].0 == xs_min(s);
        let iy = choose|i: int| 0 <= i < s.len() && #[trigger] s[i].1 == ys_min(s);
        assert(-b <= s[ix].0 <= b);
        assert(-b <= s[iy].1 <= b);
        assert(-b <= xs_min(s) <= b);
        assert(-b <= ys_min(s) <= b);
        let n = norm(s);
        assert forall|i: int| 0 <= i < c.len() implies 0 <= #[trigger] c[i].0 <= 2 * b && 0 <= c[
            i
        ].1 <= 2 * b by {
            assert(c.contains(c[i]));
            assert(c.to_multiset().count(c[i]) > 0);
            assert(n.contains(c[i]));
            let j = choose|j: int| 0 <= j < n.len() && n[j] == c[i];
            assert(n[j] == (s[j].0 - xs_min(s), s[j].1 - ys_min(s)));
            assert(-b <= s[j].0 <= b);
        }
    }
}


/// The canonical form keeps the shape's cells distinct.
pub proof fn lemma_canon_fixed_no_dup(s: Seq<(int, int)>)
    requires
        s.no_duplicates(),
    ensures
        canon_fixed(s).no_duplicates(),
{
    broadcast use group_to_multiset_ensures;

    let n = norm(s);
    assert forall|i: int, j: int|
        0 <= i < n.len() && 0 <= j < n.len() && i != j implies n[i] != n[j] by {
        assert(s[i] != s[j]);
        if n[i] == n[j] {
            assert(s[i].0 == s[j].0 && s[i].1 == s[j].1);
            assert(s[i] == (s[i].0, s[i].1));
            assert(s[j] == (s[j].0, s[j].1));
        }
    }
    assert(n.no_duplicates());
    n.lemma_multiset_has_no_duplicates();
    lemma_coord_le_total_ordering();
    n.lemma_sort_by_ensures(coord_leq_fn());
    canon_fixed(s).lemma_multiset_has_no_duplicates_conv();
}

impl Polyhex {
    /// Every cell rotated by one 60-degree step, then canonicalized.
    pub fn rotate(&self) -> (r: Polyhex)
        requires
            coords_within(self@, 0x1FFF_FFFF),
        ensures
            r@ == canon_fixed(map_rot(self@)),
    {
        let n = self.0.len();
        let mut rotated: Vec<Coord> = Vec::new();
        let mut i: usize = 0;
        proof {
            assert(cells_view(rotated@) =~= map_rot(self@).take(0int));
        }
        while i < n
            invariant
                i <= n,
                n == self.0.len(),
                coords_within(self@, 0x1FFF_FFFF),
                cells_view(rotated@) =~= map_rot(self@).take(i as int),
            decreases n - i,
        {
            let c = self.0[i];
            proof {
                assert(self@[i as int] == (c.0 as int, c.1 as int));
            }
            let rc = c.rotate();
            let ghost pre = cells_view(rotated@);
            rotated.push(rc);
            proof {
                assert(rc@ == rot_c(self@[i as int]));
                assert(map_rot(self@)[i as int] == rc@);
                assert(cells_view(rotated@) =~= pre.push(rc@));
                assert(map_rot(self@).take(i + 1int) =~= map_rot(self@).take(i as int).push(
                    map_rot(self@)[i as int],
                ));
            }
            i += 1;
        }
        proof {
            assert(map_rot(self@).take(n as int) =~= map_rot(self@));
        }
        let tmp = Polyhex(rotated);
        proof {
            assert forall|k: int| 0 <= k < tmp@.len() implies -0x3FFF_FFFF <= #[trigger] tmp@[
                k
            ].0 <= 0x3FFF_FFFF && -0x3FFF_FFFF <= tmp@[k].1 <= 0x3FFF_FFFF by {
                assert(tmp@[k] == rot_c(self@[k]));
                assert(-0x1FFF_FFFF <= self@[k].0 <= 0x1FFF_FFFF);
            }
        }
        tmp.canonize_fixed()
    }

    /// Every cell reflected, then canonicalized.
    pub fn flip_x(&self) -> (r: Polyhex)
        requires
            coords_within(self@, 0x1FFF_FFFF),
        ensures
            r@ == canon_fixed(map_flip(self@)),
    {
        let n = self.0.len();
        let mut flipped: Vec<Coord> = Vec::new();
        let mut i: usize = 0;
        proof {
            assert(cells_view(flipped@) =~= map_flip(self@).take(0int));
        }
        while i < n
            invariant
                i <= n,
                n == self.0.len(),
                coords_within(self@, 0x1FFF_FFFF),
                cells_view(flipped@) =~= map_flip(self@).take(i as int),
            decreases n - i,
        {
            let c = self.0[i];
            proof {
                assert(self@[i as int] == (c.0 as int, c.1 as int));
            }
            let fc = c.flip_x();
            let ghost pre = cells_view(flipped@);
            flipped.push(fc);
            proof {
                assert(fc@ == flip_c(self@[i as int]));
                assert(map_flip(self@)[i as int] == fc@);
                assert(cells_view(flipped@) =~= pre.push(fc@));
                assert(map_flip(self@).take(i + 1int) =~= map_flip(self@).take(i as int).push(
                    map_flip(self@)[i as int],
                ));
            }
            i += 1;
        }
        proof {
            assert(map_flip(self@).take(n as int) =~= map_flip(self@));
        }
        let tmp = Polyhex(flipped);
        proof {
            assert forall|k: int| 0 <= k < tmp@.len() implies -0x3FFF_FFFF <= #[trigger] tmp@[
                k
            ].0 <= 0x3FFF_FFFF && -0x3FFF_FFFF <= tmp@[k].1 <= 0x3FFF_FFFF by {
                assert(tmp@[k] == flip_c(self@[k]));
                assert(-0x1FFF_FFFF <= self@[k].0 <= 0x1FFF_FFFF);
            }
        }
        tmp.canonize_fixed()
    }

    /// An independent copy of this shape with the same cells in the
    /// same order.
    pub fn duplicate(&self) -> (r: Polyhex)
        ensures
            r@ == self@,
            r.0@ == self.0@,
    {
        let n = self.0.len();
        let mut cells: Vec<Coord> = Vec::new();
        let mut i: usize = 0;
        while i < n
            invariant
                i <= n,
                n == self.0.len(),
                cells@ =~= self.0@.take(i as int),
            decreases n - i,
        {
            cells.push(self.0[i]);
            proof {
                assert(cells@ =~= self.0@.take(i + 1int));
            }
            i += 1;
        }
        proof {
            assert(self.0@.take(n as int) =~= self.0@);
        }
        let r = Polyhex(cells);
        proof {
            assert(r@ =~= self@);
        }
        r
    }
}


/// Executable equality of shapes as cell sequences.
pub fn shape_eq_exec(a: &Polyhex, b: &Polyhex) -> (r: bool)
    ensures
        r == (a@ == b@),
{
    let n = a.0.len();
    if n != b.0.len() {
        proof {
            assert(a@.len() != b@.len());
        }
        return false;
    }
    let mut i: usize = 0;
    while i < n
        invariant
            i <= n,
            n == a.0.len(),
            n == b.0.len(),
            forall|k: int| 0 <= k < i ==> a@[k] == b@[k],
        decreases n - i,
    {
        let ca = a.0[i];
        let cb = b.0[i];
        proof {
            assert(a@[i as int] == (ca.0 as int, ca.1 as int));
            assert(b@[i as int] == (cb.0 as int, cb.1 as int));
        }
        if !coord_eq_exec(&ca, &cb) {
            return false;
        }
        i += 1;
    }
    proof {
        assert(a@ =~= b@);
    }
    true
}

/// Executable comparison of shapes in the fixed lexicographic order.
pub fn shape_le_exec(a: &Polyhex, b: &Polyhex) -> (r: bool)
    ensures
        r == shape_le(a@, b@),
{
    let n = a.0.len();
    let m = b.0.len();
    let mut i: usize = 0;
    proof {
        assert(a@.skip(0int) =~= a@);
        assert(b@.skip(0int) =~= b@);
    }
    while i < n && i < m
        invariant
            i <= n,
            i <= m,
            n == a.0.len(),
            m == b.0.len(),
            shape_le(a@, b@) == shape_le(a@.skip(i as int), b@.skip(i as int)),
        decreases n - i,
    {
        let ca = a.0[i];
        let cb = b.0[i];
        proof {
            assert(a@[i as int] == (ca.0 as int, ca.1 as int));
            assert(b@[i as int] == (cb.0 as int, cb.1 as int));
            assert(a@.skip(i as int)[0] == a@[i as int]);
            assert(b@.skip(i as int)[0] == b@[i as int]);
        }
        if coord_eq_exec(&ca, &cb) {
            proof {
                assert(a@.skip(i as int).drop_first() =~= a@.skip(i + 1int));
                assert(b@.skip(i as int).drop_first() =~= b@.skip(i + 1int));
            }
            i += 1;
        } else {
            let r = crate::order::coord_le_exec(&ca, &cb);
            proof {
                assert(shape_le(a@.skip(i as int), b@.skip(i as int)) == coord_le(
                    a@[i as int],
                    b@[i as int],
                ));
            }
            return r;
        }
    }
    if i == n {
        proof {
            assert(a@.skip(n as int).len() == 0);
        }
        true
    } else {
        proof {
            assert(b@.skip(i as int).len() == 0);
            assert(a@.skip(i as int).len() > 0);
        }
        false
    }
}

} // verus!
