//! The growth engine: expand the full set of free-canonical shapes of
//! size n-1 into the full deduplicated set of free-canonical shapes of
//! size n, each classified by its symmetry, keyed in sorted order.

use vstd::prelude::*;

use crate::coord::Coord;
use crate::order::shape_le;
use crate::order::lemma_shape_le_total;
use crate::order::lemma_shape_le_antisymmetric;
use crate::order::lemma_shape_le_transitive;
use crate::shape::Polyhex;
use crate::shape::coords_within;
use crate::shape::shape_eq_exec;
use crate::shape::shape_le_exec;
use crate::symmetry::PolyhexSymmetryGroup;
use crate::symmetry::free_canon;
use crate::symmetry::classify;
use crate::symmetry::symmetry_equivalent;
use crate::symmetry::lemma_free_canon_fixed_point;
use crate::symmetry::lemma_free_canon_unique;
use crate::symmetry::lemma_free_canon_no_dup;

verus! {

/// The largest coordinate magnitude the growth engine accepts in an
/// input shape; candidates then stay within the canonicalizer's range.
pub open spec fn growth_limit() -> int {
    0x000F_FFFF
}

/// One generation: every free polyhex of one size exactly once, each
/// mapped to its symmetry label, in sorted key order.
pub struct Generation(pub Vec<(Polyhex, PolyhexSymmetryGroup)>);

/// The model of a generation's entries.
pub open spec fn gen_view(v: Seq<(Polyhex, PolyhexSymmetryGroup)>) -> Seq<
    (Seq<(int, int)>, PolyhexSymmetryGroup),
> {
    Seq::new(v.len(), |i: int| (v[i].0@, v[i].1))
}

impl View for Generation {
    type V = Seq<(Seq<(int, int)>, PolyhexSymmetryGroup)>;

    open spec fn view(&self) -> Seq<(Seq<(int, int)>, PolyhexSymmetryGroup)> {
        gen_view(self.0@)
    }
}

/// The model of a list of shapes.
pub open spec fn shapes_view(v: Seq<Polyhex>) -> Seq<Seq<(int, int)>> {
    Seq::new(v.len(), |i: int| v[i]@)
}

/// The keys of a generation, in order, without their labels.
pub open spec fn gen_keys(g: Seq<(Seq<(int, int)>, PolyhexSymmetryGroup)>) -> Seq<
    Seq<(int, int)>,
> {
    Seq::new(g.len(), |i: int| g[i].0)
}

/// The `d`-th of the six lattice neighbours of a cell.
pub open spec fn neighbor(p: (int, int), d: int) -> (int, int) {
    if d == 0 {
        (p.0 + 1, p.1)
    } else if d == 1 {
        (p.0, p.1 + 1)
    } else if d == 2 {
        (p.0 + 1, p.1 + 1)
    } else if d == 3 {
        (p.0 - 1, p.1 - 1)
    } else if d == 4 {
        (p.0, p.1 - 1)
    } else {
        (p.0 - 1, p.1)
    }
}

/// The candidate shape formed from parent `jj` by adding the `dd`-th
/// neighbour of its `ii`-th cell.
pub open spec fn cand_at(prev: Seq<Seq<(int, int)>>, jj: int, ii: int, dd: int) -> Seq<
    (int, int),
> {
    prev[jj].push(neighbor(prev[jj][ii], dd))
}

/// The candidate indices `(jj, ii, dd)` that produce a candidate: the
/// chosen neighbour cell must not already be occupied.
pub open spec fn valid_cand(prev: Seq<Seq<(int, int)>>, jj: int, ii: int, dd: int) -> bool {
    &&& 0 <= jj < prev.len()
    &&& 0 <= ii < prev[jj].len()
    &&& 0 <= dd < 6
    &&& !prev[jj].contains(neighbor(prev[jj][ii], dd))
}

/// A shape is a candidate of the previous generation: some parent
/// shape extended by one unoccupied neighbour cell.
pub open spec fn is_candidate(prev: Seq<Seq<(int, int)>>, c: Seq<(int, int)>) -> bool {
    exists|jj: int, ii: int, dd: int|
        valid_cand(prev, jj, ii, dd) && c == #[trigger] cand_at(prev, jj, ii, dd)
}

/// The generation's keys are strictly sorted: every key appears once,
/// in the fixed shape order.
pub open spec fn entries_sorted(g: Seq<(Seq<(int, int)>, PolyhexSymmetryGroup)>) -> bool {
    forall|i: int, j: int|
        0 <= i < j < g.len() ==> shape_le(#[trigger] g[i].0, #[trigger] g[j].0) && g[i].0 != g[
            j
        ].0
}

/// Some entry of the generation carries this key.
pub open spec fn has_key(
    g: Seq<(Seq<(int, int)>, PolyhexSymmetryGroup)>,
    k: Seq<(int, int)>,
) -> bool {
    exists|t: int| 0 <= t < g.len() && (#[trigger] g[t].0) == k
}

/// Some entry of the generation equals this key-label pair.
pub open spec fn has_entry(
    g: Seq<(Seq<(int, int)>, PolyhexSymmetryGroup)>,
    p: (Seq<(int, int)>, PolyhexSymmetryGroup),
) -> bool {
    exists|t: int| 0 <= t < g.len() && (#[trigger] g[t]) == p
}

/// Every entry of the generation is the free canonical form of some
/// candidate, labelled with that candidate's classification.
pub open spec fn entries_valid(
    g: Seq<(Seq<(int, int)>, PolyhexSymmetryGroup)>,
    prev: Seq<Seq<(int, int)>>,
) -> bool {
    forall|t: int|
        0 <= t < g.len() ==> exists|c: Seq<(int, int)>|
            is_candidate(prev, c) && (#[trigger] g[t]).0 == free_canon(c) && g[t].1 == classify(c)
}

/// Every candidate whose index `(jj, ii, dd)` lies before `(j, i, d)`
/// in scan order already has its free canonical form among the keys.
pub open spec fn grown_upto(
    g: Seq<(Seq<(int, int)>, PolyhexSymmetryGroup)>,
    prev: Seq<Seq<(int, int)>>,
    j: int,
    i: int,
    d: int,
) -> bool {
    forall|jj: int, ii: int, dd: int|
        valid_cand(prev, jj, ii, dd) && (jj < j || (jj == j && (ii < i || (ii == i && dd < d))))
            ==> has_key(g, free_canon(#[trigger] cand_at(prev, jj, ii, dd)))
}

/// `g` is exactly the generation grown from the shapes `prev`: its
/// keys are strictly sorted; every entry is the free canonical form of
/// some candidate with that candidate's classification; and every
/// candidate's free canonical form appears.
pub open spec fn is_generation_of(
    g: Seq<(Seq<(int, int)>, PolyhexSymmetryGroup)>,
    prev: Seq<Seq<(int, int)>>,
) -> bool {
    &&& entries_sorted(g)
    &&& entries_valid(g, prev)
    &&& grown_upto(g, prev, prev.len() as int, 0, 0)
}

/// Every shape of the list lies within the growth engine's
/// coordinate range.
pub open spec fn shapes_within_limit(v: Seq<Seq<(int, int)>>) -> bool {
    forall|j: int| 0 <= j < v.len() ==> coords_within(#[trigger] v[j], growth_limit())
}

/// The `d`-th lattice neighbour of a cell.
fn neighbor_exec(c: Coord, d: usize) -> (r: Coord)
    requires
        d < 6,
        -0x0100_0000 <= c@.0 <= 0x0100_0000,
        -0x0100_0000 <= c@.1 <= 0x0100_0000,
    ensures
        r@ == neighbor(c@, d as int),
{
    let Coord(x, y) = c;
    if d == 0 {
        Coord(x + 1, y)
    } else if d == 1 {
        Coord(x, y + 1)
    } else if d == 2 {
        Coord(x + 1, y + 1)
    } else if d == 3 {
        Coord(x - 1, y - 1)
    } else if d == 4 {
        Coord(x, y - 1)
    } else {
        Coord(x - 1, y)
    }
}

/// Whether the shape already occupies the given cell.
fn contains_cell(p: &Polyhex, c: Coord) -> (r: bool)
    ensures
        r == p@.contains(c@),
{
    let n = p.0.len();
    let mut i: usize = 0;
    while i < n
        invariant
            i <= n,
            n == p.0.len(),
            forall|k: int| 0 <= k < i ==> p@[k] != c@,
        decreases n - i,
    {
        let pc = p.0[i];
        proof {
            assert(p@[i as int] == (pc.0 as int, pc.1 as int));
        }
        if crate::order::coord_eq_exec(&pc, &c) {
            proof {
                assert(p@.contains(c@));
            }
            return true;
        }
        i += 1;
    }
    proof {
        assert(!p@.contains(c@));
    }
    false
}

/// Insert an entry into the sorted generation, keeping keys strictly
/// sorted; a key already present is left as it stands.
fn insert_entry(
    out: &mut Vec<(Polyhex, PolyhexSymmetryGroup)>,
    key: Polyhex,
    label: PolyhexSymmetryGroup,
)
    requires
        entries_sorted(gen_view(old(out)@)),
    ensures
        entries_sorted(gen_view(final(out)@)),
        has_key(gen_view(final(out)@), key@),
        forall|k: Seq<(int, int)>|
            #[trigger] has_key(gen_view(old(out)@), k) ==> has_key(gen_view(final(out)@), k),
        forall|t: int|
            0 <= t < gen_view(final(out)@).len() ==> has_entry(
                gen_view(old(out)@),
                #[trigger] gen_view(final(out)@)[t],
            ) || gen_view(final(out)@)[t] == (key@, label),
{
    let ghost old_view = gen_view(out@);
    let n = out.len();
    let mut j: usize = 0;
    let mut found = false;
    let mut past = false;
    while j < n && !found && !past
        invariant_except_break
            j <= n,
            n == out.len(),
            gen_view(out@) == old_view,
            entries_sorted(old_view),
            forall|k: int| 0 <= k < j ==> shape_le(#[trigger] old_view[k].0, key@),
            forall|k: int| 0 <= k < j ==> (#[trigger] old_view[k].0) != key@,
            found ==> j < n && old_view[j as int].0 == key@,
            past ==> j < n && !shape_le(old_view[j as int].0, key@) && old_view[j as int].0
                != key@,
        ensures
            j <= n,
            gen_view(out@) == old_view,
            forall|k: int| 0 <= k < j ==> shape_le(#[trigger] old_view[k].0, key@),
            forall|k: int| 0 <= k < j ==> (#[trigger] old_view[k].0) != key@,
            found ==> j < n && old_view[j as int].0 == key@,
            past ==> j < n && !shape_le(old_view[j as int].0, key@) && old_view[j as int].0
                != key@,
            found || past || j == n,
        decreases n - j,
    {
        proof {
            assert(old_view[j as int].0 == out@[j as int].0@);
        }
        if shape_eq_exec(&out[j].0, &key) {
            found = true;
            break ;
        } else if !shape_le_exec(&out[j].0, &key) {
            past = true;
            break ;
        } else {
            j += 1;
        }
    }
    if found {
        proof {
            assert(has_key(gen_view(out@), key@));
            assert forall|t: int| 0 <= t < gen_view(out@).len() implies has_entry(
                old_view,
                #[trigger] gen_view(out@)[t],
            ) || gen_view(out@)[t] == (key@, label) by {
                assert(old_view[t] == gen_view(out@)[t]);
            }
            assert forall|k: Seq<(int, int)>|
                #[trigger] has_key(old_view, k) implies has_key(gen_view(out@), k) by {}
        }
        return ;
    }
    proof {
        if past {
            lemma_shape_le_total(old_view[j as int].0, key@);
            assert(shape_le(key@, old_view[j as int].0));
        }
    }
    out.insert(j, (key, label));
    proof {
        let new_view = gen_view(out@);
        let jj = j as int;
        assert(new_view =~= old_view.insert(jj, (key@, label)));
        assert(new_view[jj] == (key@, label));
        assert(new_view[jj].0 == key@);
        assert(has_key(new_view, key@));
        assert forall|p: int, q: int| 0 <= p < q < new_view.len() implies shape_le(
            #[trigger] new_view[p].0,
            #[trigger] new_view[q].0,
        ) && new_view[p].0 != new_view[q].0 by {
            if q < jj {
                assert(new_view[p] == old_view[p]);
                assert(new_view[q] == old_view[q]);
            } else if p > jj {
                assert(new_view[p] == old_view[p - 1]);
                assert(new_view[q] == old_view[q - 1]);
            } else if p == jj {
                // new_view[p] is the inserted key; everything at or
                // after position j is strictly above it
                assert(new_view[q] == old_view[q - 1]);
                assert(q - 1 >= jj);
                assert(jj < old_view.len());
                assert(shape_le(key@, old_view[jj].0));
                assert(old_view[jj].0 != key@);
                if q - 1 > jj {
                    assert(shape_le(old_view[jj].0, old_view[q - 1].0));
                    assert(old_view[jj].0 != old_view[q - 1].0);
                    lemma_shape_le_transitive(key@, old_view[jj].0, old_view[q - 1].0);
                    if key@ == old_view[q - 1].0 {
                        lemma_shape_le_antisymmetric(old_view[jj].0, old_view[q - 1].0);
                        assert(false);
                    }
                }
            } else if q == jj {
                assert(new_view[p] == old_view[p]);
                assert(shape_le(old_view[p].0, key@));
                assert(old_view[p].0 != key@);
            } else {
                assert(new_view[p] == old_view[p]);
                assert(new_view[q] == old_view[q - 1]);
                assert(p < q - 1);
                assert(shape_le(old_view[p].0, old_view[q - 1].0));
                assert(old_view[p].0 != old_view[q - 1].0);
            }
        }
        assert forall|k: Seq<(int, int)>| #[trigger] has_key(old_view, k) implies has_key(
            new_view,
            k,
        ) by {
            let t = choose|t: int| 0 <= t < old_view.len() && (#[trigger] old_view[t].0) == k;
            if t < jj {
                assert(new_view[t].0 == k);
            } else {
                assert(new_view[t + 1].0 == k);
            }
        }
        assert forall|t: int| 0 <= t < new_view.len() implies has_entry(
            old_view,
            #[trigger] new_view[t],
        ) || new_view[t] == (key@, label) by {
            if t < jj {
                assert(old_view[t] == new_view[t]);
                assert(has_entry(old_view, new_view[t]));
            } else if t > jj {
                assert(old_view[t - 1] == new_view[t]);
                assert(has_entry(old_view, new_view[t]));
            }
        }
    }
}

/// Grow the set of free-canonical shapes of one size into the full
/// deduplicated generation of the next size: every parent shape is
/// extended by every unoccupied neighbour of every cell, every
/// candidate is canonicalized and classified, and each canonical key
/// is kept exactly once, in sorted order.
pub fn next_generation(prev: &Vec<Polyhex>) -> (g: Generation)
    requires
        shapes_within_limit(shapes_view(prev@)),
    ensures
        is_generation_of(g@, shapes_view(prev@)),
{
    let ghost pv = shapes_view(prev@);
    let mut out: Vec<(Polyhex, PolyhexSymmetryGroup)> = Vec::new();
    proof {
        assert(gen_view(out@) =~= Seq::<(Seq<(int, int)>, PolyhexSymmetryGroup)>::empty());
        assert(entries_valid(gen_view(out@), pv));
        assert(grown_upto(gen_view(out@), pv, 0, 0, 0));
    }
    let mut j: usize = 0;
    while j < prev.len()
        invariant
            j <= prev.len(),
            pv == shapes_view(prev@),
            shapes_within_limit(pv),
            entries_sorted(gen_view(out@)),
            entries_valid(gen_view(out@), pv),
            grown_upto(gen_view(out@), pv, j as int, 0, 0),
        decreases prev.len() - j,
    {
        let m = prev[j].0.len();
        proof {
            assert(pv[j as int] == prev@[j as int]@);
            assert(coords_within(pv[j as int], growth_limit()));
        }
        let mut i: usize = 0;
        while i < m
            invariant
                i <= m,
                j < prev.len(),
                m == prev@[j as int].0.len(),
                pv == shapes_view(prev@),
                shapes_within_limit(pv),
                entries_sorted(gen_view(out@)),
                entries_valid(gen_view(out@), pv),
                grown_upto(gen_view(out@), pv, j as int, i as int, 0),
            decreases m - i,
        {
            let cell = prev[j].0[i];
            proof {
                assert(pv[j as int][i as int] == (cell.0 as int, cell.1 as int));
                assert(coords_within(pv[j as int], growth_limit()));
            }
            let mut d: usize = 0;
            while d < 6
                invariant
                    d <= 6,
                    j < prev.len(),
                    i < prev@[j as int].0.len(),
                    cell == prev@[j as int].0@[i as int],
                    cell@ == pv[j as int][i as int],
                    -growth_limit() <= cell@.0 <= growth_limit(),
                    -growth_limit() <= cell@.1 <= growth_limit(),
                    pv == shapes_view(prev@),
                    shapes_within_limit(pv),
                    entries_sorted(gen_view(out@)),
                    entries_valid(gen_view(out@), pv),
                    grown_upto(gen_view(out@), pv, j as int, i as int, d as int),
                decreases 6 - d,
            {
                let nb = neighbor_exec(cell, d);
                let occupied = contains_cell(&prev[j], nb);
                if !occupied {
                    let mut cand = prev[j].duplicate();
                    cand.0.push(nb);
                    proof {
                        assert(cand@ =~= pv[j as int].push(nb@));
                        assert(cand@ == cand_at(pv, j as int, i as int, d as int));
                        assert(valid_cand(pv, j as int, i as int, d as int));
                        assert(is_candidate(pv, cand@));
                        assert forall|k: int| 0 <= k < cand@.len() implies -0x0010_0000 <= (
                        #[trigger] cand@[k]).0 <= 0x0010_0000 && -0x0010_0000 <= cand@[k].1
                            <= 0x0010_0000 by {
                            if k < pv[j as int].len() {
                                assert(cand@[k] == pv[j as int][k]);
                            } else {
                                assert(cand@[k] == nb@);
                            }
                        }
                    }
                    let (key, label) = cand.canonize_free();
                    let ghost pre_view = gen_view(out@);
                    insert_entry(&mut out, key, label);
                    proof {
                        let cur = gen_view(out@);
                        assert forall|t: int| 0 <= t < cur.len() implies exists|
                            c: Seq<(int, int)>,
                        |
                            is_candidate(pv, c) && (#[trigger] cur[t]).0 == free_canon(c)
                                && cur[t].1 == classify(c) by {
                            if has_entry(pre_view, cur[t]) {
                                let u = choose|u: int|
                                    0 <= u < pre_view.len() && (#[trigger] pre_view[u]) == cur[t];
                                assert(0 <= u < pre_view.len());
                            } else {
                                assert(cur[t] == (key@, label));
                                assert(is_candidate(pv, cand@) && cur[t].0 == free_canon(cand@)
                                    && cur[t].1 == classify(cand@));
                            }
                        }
                        assert(entries_valid(cur, pv));
                        assert forall|jj: int, ii: int, dd: int|
                            valid_cand(pv, jj, ii, dd) && (jj < j || (jj == j as int && (ii
                                < i as int || (ii == i as int && dd < d + 1)))) implies has_key(
                            cur,
                            free_canon(#[trigger] cand_at(pv, jj, ii, dd)),
                        ) by {
                            if jj == j as int && ii == i as int && dd == d as int {
                                assert(cand_at(pv, jj, ii, dd) == cand@);
                                assert(has_key(cur, free_canon(cand@)));
                            } else {
                                assert(has_key(pre_view, free_canon(cand_at(pv, jj, ii, dd))));
                            }
                        }
                        assert(grown_upto(cur, pv, j as int, i as int, d + 1int));
                    }
                } else {
                    proof {
                        assert(pv[j as int].contains(nb@));
                        assert(!valid_cand(pv, j as int, i as int, d as int));
                        assert forall|jj: int, ii: int, dd: int|
                            valid_cand(pv, jj, ii, dd) && (jj < j || (jj == j as int && (ii
                                < i as int || (ii == i as int && dd < d + 1)))) implies has_key(
                            gen_view(out@),
                            free_canon(#[trigger] cand_at(pv, jj, ii, dd)),
                        ) by {
                            assert(!(jj == j as int && ii == i as int && dd == d as int));
                        }
                        assert(grown_upto(gen_view(out@), pv, j as int, i as int, d + 1int));
                    }
                }
                d += 1;
            }
            proof {
                assert forall|jj: int, ii: int, dd: int|
                    valid_cand(pv, jj, ii, dd) && (jj < j || (jj == j as int && ii < i
                        + 1)) implies has_key(
                    gen_view(out@),
                    free_canon(#[trigger] cand_at(pv, jj, ii, dd)),
                ) by {
                    assert(dd < 6);
                }
                assert(grown_upto(gen_view(out@), pv, j as int, i + 1int, 0));
            }
            i += 1;
        }
        proof {
            assert forall|jj: int, ii: int, dd: int|
                valid_cand(pv, jj, ii, dd) && jj < j + 1 implies has_key(
                gen_view(out@),
                free_canon(#[trigger] cand_at(pv, jj, ii, dd)),
            ) by {
                if jj == j as int {
                    assert(ii < pv[jj].len());
                }
            }
            assert(grown_upto(gen_view(out@), pv, j + 1int, 0, 0));
        }
        j += 1;
    }
    let g = Generation(out);
    proof {
        assert(is_generation_of(g@, pv));
    }
    g
}

impl Generation {
    /// How many shapes this generation holds.
    pub fn len(&self) -> (n: usize)
        ensures
            n == self@.len(),
    {
        self.0.len()
    }

    /// The generation's keys, in order, stripped of their labels: the
    /// seed list for growing the next size.
    pub fn keys(&self) -> (r: Vec<Polyhex>)
        ensures
            shapes_view(r@) == gen_keys(self@),
    {
        let n = self.0.len();
        let mut r: Vec<Polyhex> = Vec::new();
        let mut i: usize = 0;
        proof {
            assert(shapes_view(r@) =~= gen_keys(self@).take(0int));
        }
        while i < n
            invariant
                i <= n,
                n == self.0.len(),
                shapes_view(r@) =~= gen_keys(self@).take(i as int),
            decreases n - i,
        {
            let s = self.0[i].0.duplicate();
            proof {
                assert(s@ == gen_keys(self@)[i as int]);
            }
            let ghost pre = shapes_view(r@);
            r.push(s);
            proof {
                assert(shapes_view(r@) =~= pre.push(s@));
                assert(gen_keys(self@).take(i + 1int) =~= gen_keys(self@).take(i as int).push(
                    gen_keys(self@)[i as int],
                ));
                assert(shapes_view(r@) =~= gen_keys(self@).take(i + 1int));
            }
            i += 1;
        }
        proof {
            assert(gen_keys(self@).take(n as int) =~= gen_keys(self@));
        }
        r
    }
}

/// Whether every shape of the list lies within the growth engine's
/// coordinate range.
pub fn shapes_within_limit_exec(v: &Vec<Polyhex>) -> (r: bool)
    ensures
        r == shapes_within_limit(shapes_view(v@)),
{
    let n = v.len();
    let mut j: usize = 0;
    while j < n
        invariant
            j <= n,
            n == v.len(),
            forall|k: int|
                0 <= k < j ==> coords_within(#[trigger] shapes_view(v@)[k], growth_limit()),
        decreases n - j,
    {
        let m = v[j].0.len();
        let mut i: usize = 0;
        while i < m
            invariant
                i <= m,
                j < n,
                n == v.len(),
                m == v@[j as int].0.len(),
                forall|k: int|
                    0 <= k < i ==> -growth_limit() <= (#[trigger] shapes_view(v@)[j as int][k]).0
                        <= growth_limit() && -growth_limit() <= shapes_view(v@)[j as int][k].1
                        <= growth_limit(),
            decreases m - i,
        {
            let c = v[j].0[i];
            proof {
                assert(shapes_view(v@)[j as int][i as int] == (c.0 as int, c.1 as int));
            }
            if c.0 < -0x000F_FFFF || c.0 > 0x000F_FFFF || c.1 < -0x000F_FFFF || c.1
                > 0x000F_FFFF {
                proof {
                    assert(!coords_within(shapes_view(v@)[j as int], growth_limit()));
                }
                return false;
            }
            i += 1;
        }
        proof {
            assert(coords_within(shapes_view(v@)[j as int], growth_limit()));
        }
        j += 1;
    }
    true
}

/// The cells of the size-1 seed shape.
pub open spec fn seed_cells() -> Seq<(int, int)> {
    seq![(0int, 0int)]
}

/// The seed list: the one shape of size 1.
pub open spec fn seed_list() -> Seq<Seq<(int, int)>> {
    seq![seed_cells()]
}

/// The single shape of size 1: one cell at the origin. It is the seed
/// from which every larger generation is grown.
pub fn seed_shape() -> (r: Polyhex)
    ensures
        r@ == seed_cells(),
{
    let mut cells: Vec<Coord> = Vec::new();
    cells.push(Coord(0, 0));
    let r = Polyhex(cells);
    proof {
        assert(r@ =~= seed_cells());
    }
    r
}

/// The whole chain condition: the first generation is grown from the
/// size-1 seed, and each later one from the keys of the one before it.
pub open spec fn chain_ok(r: Seq<Generation>) -> bool {
    forall|i: int|
        0 <= i < r.len() ==> is_generation_of(
            (#[trigger] r[i])@,
            if i == 0 {
                seed_list()
            } else {
                gen_keys(r[i - 1]@)
            },
        )
}

/// Grow every generation from size 2 up to the requested size, from
/// the single size-1 seed shape. The result holds one generation per
/// size, in order. Growth stops early only if a shape's coordinates
/// would leave the engine's range, which cannot happen at any size
/// small enough to enumerate in practice.
pub fn generations_up_to(up_to: usize) -> (r: Vec<Generation>)
    ensures
        chain_ok(r@),
        up_to < 2 ==> r@.len() == 0,
        up_to >= 2 ==> 1 <= r@.len() <= up_to - 1,
        up_to >= 2 && r@.len() < up_to - 1 ==> !shapes_within_limit(
            gen_keys(r@[r@.len() - 1]@),
        ),
{
    let mut r: Vec<Generation> = Vec::new();
    if up_to < 2 {
        return r;
    }
    let mut prev: Vec<Polyhex> = Vec::new();
    prev.push(seed_shape());
    proof {
        assert(shapes_view(prev@) =~~= seed_list());
        assert(coords_within(seed_cells(), growth_limit()));
        assert(shapes_within_limit(seed_list()));
    }
    let mut produced: usize = 0;
    while produced < up_to - 1
        invariant
            up_to >= 2,
            produced <= up_to - 1,
            r@.len() == produced,
            shapes_view(prev@) == if r@.len() == 0 {
                seed_list()
            } else {
                gen_keys(r@[r@.len() - 1]@)
            },
            shapes_within_limit(shapes_view(prev@)),
            chain_ok(r@),
        decreases up_to - 1 - produced,
    {
        let ghost old_r = r@;
        let g = next_generation(&prev);
        let next = g.keys();
        r.push(g);
        proof {
            assert(r@ == old_r.push(g));
            assert(r@[r@.len() - 1] == g);
            assert(shapes_view(next@) == gen_keys(r@[r@.len() - 1]@));
            assert forall|i: int| 0 <= i < r@.len() implies is_generation_of(
                (#[trigger] r@[i])@,
                if i == 0 {
                    seed_list()
                } else {
                    gen_keys(r@[i - 1]@)
                },
            ) by {
                if i < old_r.len() {
                    assert(r@[i] == old_r[i]);
                    if i > 0 {
                        assert(r@[i - 1] == old_r[i - 1]);
                    }
                } else {
                    assert(r@[i] == g);
                    if i > 0 {
                        assert(r@[i - 1] == old_r[i - 1]);
                        assert(shapes_view(prev@) == gen_keys(old_r[i - 1]@));
                    } else {
                        assert(shapes_view(prev@) == seed_list());
                    }
                    assert(is_generation_of(g@, shapes_view(prev@)));
                }
            }
            assert(chain_ok(r@));
        }
        if !shapes_within_limit_exec(&next) {
            proof {
                assert(!shapes_within_limit(gen_keys(r@[r@.len() - 1]@)));
            }
            return r;
        }
        prev = next;
        produced += 1;
    }
    r
}


/// Uniqueness of a generation's keys: no generation holds two
/// distinct keys that are symmetry-equivalent to each other.
pub proof fn lemma_generation_keys_inequivalent(
    g: Seq<(Seq<(int, int)>, PolyhexSymmetryGroup)>,
    prev: Seq<Seq<(int, int)>>,
    t1: int,
    t2: int,
)
    requires
        is_generation_of(g, prev),
        0 <= t1 < g.len(),
        0 <= t2 < g.len(),
        t1 != t2,
    ensures
        g[t1].0 != g[t2].0,
        !symmetry_equivalent(g[t1].0, g[t2].0),
{
    assert(entries_sorted(g));
    if t1 < t2 {
        assert(shape_le(g[t1].0, g[t2].0) && g[t1].0 != g[t2].0);
    } else {
        assert(shape_le(g[t2].0, g[t1].0) && g[t2].0 != g[t1].0);
    }
    assert(entries_valid(g, prev));
    assert(0 <= t1 < g.len());
    let c1 = choose|c: Seq<(int, int)>|
        is_candidate(prev, c) && (#[trigger] g[t1]).0 == free_canon(c) && g[t1].1 == classify(c);
    let c2 = choose|c: Seq<(int, int)>|
        is_candidate(prev, c) && (#[trigger] g[t2]).0 == free_canon(c) && g[t2].1 == classify(c);
    lemma_free_canon_fixed_point(c1);
    lemma_free_canon_fixed_point(c2);
    assert(free_canon(g[t1].0) == g[t1].0);
    assert(free_canon(g[t2].0) == g[t2].0);
    lemma_free_canon_unique(g[t1].0, g[t2].0);
}


/// Every key of a generation grown from shapes with distinct cells
/// has distinct cells itself: the shape invariant is preserved from
/// one generation to the next.
pub proof fn lemma_generation_keys_no_dup(
    g: Seq<(Seq<(int, int)>, PolyhexSymmetryGroup)>,
    prev: Seq<Seq<(int, int)>>,
    t: int,
)
    requires
        is_generation_of(g, prev),
        forall|j: int| 0 <= j < prev.len() ==> (#[trigger] prev[j]).no_duplicates(),
        0 <= t < g.len(),
    ensures
        g[t].0.no_duplicates(),
{
    assert(entries_valid(g, prev));
    let c = choose|c: Seq<(int, int)>|
        is_candidate(prev, c) && (#[trigger] g[t]).0 == free_canon(c) && g[t].1 == classify(c);
    let (jj, ii, dd) = choose|jj: int, ii: int, dd: int|
        valid_cand(prev, jj, ii, dd) && c == #[trigger] cand_at(prev, jj, ii, dd);
    let parent = prev[jj];
    let nb = neighbor(prev[jj][ii], dd);
    assert(parent.no_duplicates());
    assert(!parent.contains(nb));
    assert forall|a: int, b: int|
        0 <= a < c.len() && 0 <= b < c.len() && a != b implies c[a] != c[b] by {
        if a < parent.len() && b < parent.len() {
            assert(parent[a] != parent[b]);
        } else if a < parent.len() {
            assert(c[b] == nb);
            assert(parent[a] != nb);
        } else {
            assert(c[a] == nb);
            assert(parent[b] != nb);
        }
    }
    assert(c.no_duplicates());
    lemma_free_canon_no_dup(c);
}
} // verus!
