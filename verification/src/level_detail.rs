use vstd::prelude::*;

use crate::level::Layer;
use crate::weights::WeightTable;

verus! {

use vstd::arithmetic::div_mod::lemma_fundamental_div_mod_converse_div;
use vstd::arithmetic::div_mod::lemma_fundamental_div_mod_converse_mod;

/// A neighbor offset `(dx, dy)`: `dx` moves along a row (columns), `dy` moves
/// across rows. Both components are in `{-1, 0, 1}` and not both zero for a
/// meaningful direction.
#[derive(Clone, Copy, PartialEq, Eq, Structural, Debug)]
pub struct Dir(pub i8, pub i8);

/// Whether the offset `d` is a direction that stays inside a `w` by `h` grid
/// when taken from column `i`, row `j`: one of the up-to-8 unit offsets whose
/// target cell is in bounds.
pub open spec fn dir_valid(d: Dir, i: int, j: int, w: int, h: int) -> bool {
    &&& !(d.0 == 0 && d.1 == 0)
    &&& -1 <= d.0 <= 1
    &&& -1 <= d.1 <= 1
    &&& 0 <= i + d.0 < w
    &&& 0 <= j + d.1 < h
}

/// The direction opposite to `d`.
pub open spec fn dir_opposite(d: Dir) -> Dir {
    Dir((0 - d.0) as i8, (0 - d.1) as i8)
}

/// If `d` is valid from `(i, j)`, the opposite direction is valid from the
/// cell that `d` points at, back towards `(i, j)`, on any grid shape.
pub proof fn lemma_dir_valid_symmetric(d: Dir, i: int, j: int, w: int, h: int)
    requires
        0 <= i < w,
        0 <= j < h,
        dir_valid(d, i, j, w, h),
    ensures
        dir_valid(dir_opposite(d), i + d.0, j + d.1, w, h),
{
    assert(((0 - d.0) as i8) as int == 0 - d.0);
    assert(((0 - d.1) as i8) as int == 0 - d.1);
}

/// The tiles `a` and `b` sit next to each other, in direction `d`, somewhere
/// in `layer`: some in-bounds cell holds `a` and its neighbor in `d` holds `b`.
pub open spec fn observed(layer: Layer, a: i16, b: i16, d: Dir) -> bool {
    exists|j: int, i: int|
        0 <= j < layer.h && 0 <= i < layer.w && dir_valid(d, i, j, layer.w as int, layer.h as int)
            && layer.tile(j, i) == a && layer.tile(j + d.1, i + d.0) == b
}

/// The adjacency model: the set of tile pairs, with a direction, that were
/// seen next to each other in a source grid.
#[derive(Debug)]
pub struct LevelDetail {
    pub compatibilities: Vec<(i16, i16, Dir)>,
}

impl LevelDetail {
    /// The triple `(a, b, d)` is in the model: `a` may have `b` as its
    /// neighbor in direction `d`.
    pub open spec fn has(self, a: i16, b: i16, d: Dir) -> bool {
        self.compatibilities@.contains((a, b, d))
    }

    /// True iff the pair `(tile1, tile2)` was observed in direction `dir`.
    pub fn check(&self, tile1: i16, tile2: i16, dir: Dir) -> (r: bool)
        ensures
            r == self.has(tile1, tile2, dir),
    {
        let mut k: usize = 0;
        while k < self.compatibilities.len()
            invariant
                k <= self.compatibilities@.len(),
                forall|m: int| 0 <= m < k ==> self.compatibilities@[m] != (tile1, tile2, dir),
            decreases self.compatibilities@.len() - k,
        {
            let e = self.compatibilities[k];
            if e.0 == tile1 && e.1 == tile2 && e.2 == dir {
                assert(self.compatibilities@[k as int] == (tile1, tile2, dir));
                return true;
            }
            k = k + 1;
        }
        false
    }

    /// Whether any tile of `options` may have `t` as its neighbor in
    /// direction `d`.
    pub(crate) fn any_compatible(&self, options: &Vec<i16>, t: i16, d: Dir) -> (r: bool)
        ensures
            r == exists|s: i16| options@.contains(s) && self.has(s, t, d),
    {
        let mut k: usize = 0;
        while k < options.len()
            invariant
                k <= options@.len(),
                forall|m: int| 0 <= m < k ==> !self.has(options@[m], t, d),
            decreases options@.len() - k,
        {
            if self.check(options[k], t, d) {
                assert(options@.contains(options@[k as int]));
                return true;
            }
            k = k + 1;
        }
        assert forall|s: i16| options@.contains(s) implies !self.has(s, t, d) by {
            let m = choose|m: int| 0 <= m < options@.len() && options@[m] == s;
        }
        false
    }


    /// Scan `layer` once: record every adjacent ordered tile pair with its
    /// direction, and count each cell's tile once into the weight table.
    pub fn new_with_weights(layer: &Layer) -> (r: (LevelDetail, WeightTable))
        requires
            layer.wf(),
            layer.w as int * layer.h as int <= u64::MAX,
        ensures
            forall|a: i16, b: i16, d: Dir| r.0.has(a, b, d) <==> observed(*layer, a, b, d),
            r.1.wf(),
            forall|t: i16| r.1.lookup(t) == tile_count(*layer, t),
            r.1.total() == layer.w as int * layer.h as int,
            forall|t: i16| r.1.contains_key(t) <==> tile_count(*layer, t) >= 1,
    {
        broadcast use vstd::seq_lib::lemma_seq_contains_after_push;

        let w = layer.w;
        let h = layer.h;
        let mut compatibilities: Vec<(i16, i16, Dir)> = Vec::new();
        let mut weights = WeightTable::new();
        proof {
            assert(w as int * h as int == h as int * w as int) by (nonlinear_arith);
        }
        let mut j: usize = 0;
        while j < h
            invariant
                layer.wf(),
                w == layer.w,
                h == layer.h,
                w as int * h as int <= u64::MAX,
                j <= h,
                weights.wf(),
                weights.total() == j * w,
                forall|t: i16| weights.lookup(t) == tile_count_upto(*layer, t, j as int * w as int),
                forall|t: i16| weights.contains_key(t) <==> weights.lookup(t) >= 1,
                forall|a: i16, b: i16, d: Dir|
                    compatibilities@.contains((a, b, d)) <==> observed_upto(
                        *layer,
                        a,
                        b,
                        d,
                        j as int,
                        0,
                    ),
            decreases h - j,
        {
            let mut i: usize = 0;
            while i < w
                invariant
                    layer.wf(),
                    w == layer.w,
                    h == layer.h,
                    w as int * h as int <= u64::MAX,
                    j < h,
                    i <= w,
                    weights.wf(),
                    weights.total() == j * w + i,
                    forall|t: i16|
                        weights.lookup(t) == tile_count_upto(
                            *layer,
                            t,
                            j as int * w as int + i as int,
                        ),
                    forall|t: i16| weights.contains_key(t) <==> weights.lookup(t) >= 1,
                    forall|a: i16, b: i16, d: Dir|
                        compatibilities@.contains((a, b, d)) <==> observed_upto(
                            *layer,
                            a,
                            b,
                            d,
                            j as int,
                            i as int,
                        ),
                decreases w - i,
            {
                let cur_tile = layer.data[j][i];
                proof {
                    assert(j as int * w as int + i < h as int * w as int) by (nonlinear_arith)
                        requires
                            0 <= j as int,
                            0 <= i as int,
                            (j as int) < (h as int),
                            (i as int) < (w as int),
                            1 <= w as int,
                    ;
                    assert(h as int * w as int == w as int * h as int) by (nonlinear_arith);
                }
                let ghost wpre = weights;
                weights.bump(cur_tile);
                proof {
                    crate::weights::lemma_wt_lookup_nonneg(wpre.entries@, cur_tile);
                    lemma_tile_count_cell_step(*layer, cur_tile, j as int, i as int);
                    assert forall|t: i16|
                        weights.lookup(t) == tile_count_upto(
                            *layer,
                            t,
                            j as int * w as int + i as int + 1,
                        ) by {
                        lemma_tile_count_cell_step(*layer, t, j as int, i as int);
                    }
                }
                let dirs = Self::valid_dirs(i, j, w, h);
                let ghost wsnap = weights;
                let mut m: usize = 0;
                while m < dirs.len()
                    invariant
                        layer.wf(),
                        w == layer.w,
                        h == layer.h,
                        j < h,
                        i < w,
                        weights == wsnap,
                        m <= dirs@.len(),
                        cur_tile == layer.tile(j as int, i as int),
                        forall|d: Dir|
                            dirs@.contains(d) <==> dir_valid(
                                d,
                                i as int,
                                j as int,
                                w as int,
                                h as int,
                            ),
                        forall|a: i16, b: i16, d: Dir|
                            compatibilities@.contains((a, b, d)) <==> (observed_upto(
                                *layer,
                                a,
                                b,
                                d,
                                j as int,
                                i as int,
                            ) || (observed_at(*layer, a, b, d, j as int, i as int) && exists|
                                m2: int,
                            |
                                0 <= m2 < m && dirs@[m2] == d)),
                    decreases dirs@.len() - m,
                {
                    let dir = dirs[m];
                    proof {
                        assert(dirs@.contains(dirs@[m as int]));
                    }
                    let oj = offset(j, dir.1);
                    let oi = offset(i, dir.0);
                    let other_tile = layer.data[oj][oi];
                    let ghost old_compat = compatibilities@;
                    compatibilities.push((cur_tile, other_tile, dir));
                    proof {
                        let jv = j as int;
                        let iv = i as int;
                        assert(observed_at(*layer, cur_tile, other_tile, dir, jv, iv));
                        assert forall|a: i16, b: i16, d: Dir|
                            compatibilities@.contains((a, b, d)) <==> (observed_upto(
                                *layer,
                                a,
                                b,
                                d,
                                jv,
                                iv,
                            ) || (observed_at(*layer, a, b, d, jv, iv) && exists|m2: int|
                                0 <= m2 < m + 1 && dirs@[m2] == d)) by {
                            vstd::seq_lib::lemma_seq_contains_after_push(
                                old_compat,
                                (cur_tile, other_tile, dir),
                                (a, b, d),
                            );
                            if compatibilities@.contains((a, b, d)) {
                                if old_compat.contains((a, b, d)) {
                                    if !observed_upto(*layer, a, b, d, jv, iv) {
                                        let m2 = choose|m2: int| 0 <= m2 < m && dirs@[m2] == d;
                                        assert(0 <= m2 < m + 1 && dirs@[m2] == d);
                                    }
                                } else {
                                    assert((a, b, d) == (cur_tile, other_tile, dir));
                                    assert(dirs@[m as int] == d);
                                }
                            }
                            if observed_upto(*layer, a, b, d, jv, iv) {
                                assert(old_compat.contains((a, b, d)));
                            } else if observed_at(*layer, a, b, d, jv, iv) && exists|m2: int|
                                0 <= m2 < m + 1 && dirs@[m2] == d {
                                let m2 = choose|m2: int| 0 <= m2 < m + 1 && dirs@[m2] == d;
                                if m2 < m {
                                    assert(old_compat.contains((a, b, d)));
                                } else {
                                    assert(d == dir);
                                    assert(a == cur_tile && b == other_tile);
                                    assert(compatibilities@.contains((a, b, d)));
                                }
                            }
                        }
                    }
                    m = m + 1;
                }
                proof {
                    let jv = j as int;
                    let iv = i as int;
                    assert forall|a: i16, b: i16, d: Dir|
                        compatibilities@.contains((a, b, d)) <==> observed_upto(
                            *layer,
                            a,
                            b,
                            d,
                            jv,
                            iv + 1,
                        ) by {
                        lemma_observed_upto_cell_step(*layer, a, b, d, jv, iv);
                        if observed_at(*layer, a, b, d, jv, iv) {
                            assert(dirs@.contains(d));
                            let m2 = choose|m2: int| 0 <= m2 < dirs@.len() && dirs@[m2] == d;
                        }
                        if compatibilities@.contains((a, b, d)) && !observed_upto(
                            *layer,
                            a,
                            b,
                            d,
                            jv,
                            iv,
                        ) {
                            let m2 = choose|m2: int| 0 <= m2 < dirs@.len() && dirs@[m2] == d;
                            assert(dirs@.contains(d));
                        }
                    }
                }
                i = i + 1;
            }
            proof {
                assert((j + 1) as int * w as int == j as int * w as int + w as int)
                    by (nonlinear_arith);
                assert forall|a: i16, b: i16, d: Dir|
                    compatibilities@.contains((a, b, d)) <==> observed_upto(
                        *layer,
                        a,
                        b,
                        d,
                        j as int + 1,
                        0,
                    ) by {
                    lemma_observed_upto_row_end(*layer, a, b, d, j as int);
                }
            }
            j = j + 1;
        }
        proof {
            assert(j as int * w as int == h as int * w as int);
            assert forall|a: i16, b: i16, d: Dir|
                compatibilities@.contains((a, b, d)) <==> observed(*layer, a, b, d) by {
                lemma_observed_full(*layer, a, b, d);
            }
        }
        (LevelDetail { compatibilities }, weights)
    }

    /// The edge-aware directions that can be taken from column `i`, row `j`
    /// of a `w` by `h` grid: exactly those offsets that stay in bounds.
    pub fn valid_dirs(i: usize, j: usize, w: usize, h: usize) -> (dirs: Vec<Dir>)
        requires
            i < w,
            j < h,
        ensures
            forall|d: Dir| dirs@.contains(d) <==> dir_valid(d, i as int, j as int, w as int, h as int),
            dirs@.no_duplicates(),
    {
        broadcast use vstd::seq_lib::lemma_seq_contains_after_push;

        let mut cands: Vec<Dir> = Vec::new();
        cands.push(Dir(-1, 0));
        cands.push(Dir(-1, -1));
        cands.push(Dir(-1, 1));
        cands.push(Dir(1, 0));
        cands.push(Dir(1, -1));
        cands.push(Dir(1, 1));
        cands.push(Dir(0, -1));
        cands.push(Dir(0, 1));
        let ghost all = cands@;
        proof {
            assert(all.no_duplicates());
        }

        let mut dirs: Vec<Dir> = Vec::new();
        let mut k: usize = 0;
        while k < cands.len()
            invariant
                k <= cands@.len(),
                cands@ == all,
                all.len() == 8,
                all.no_duplicates(),
                dirs@.no_duplicates(),
                forall|d: Dir|
                    dirs@.contains(d) <==> exists|m: int|
                        0 <= m < k && all[m] == d && dir_valid(
                            d,
                            i as int,
                            j as int,
                            w as int,
                            h as int,
                        ),
                i < w,
                j < h,
            decreases cands@.len() - k,
        {
            let d = cands[k];
            let ok_x = if d.0 < 0 {
                i >= 1
            } else if d.0 > 0 {
                i + 1 < w
            } else {
                true
            };
            let ok_y = if d.1 < 0 {
                j >= 1
            } else if d.1 > 0 {
                j + 1 < h
            } else {
                true
            };
            let keep = ok_x && ok_y && !(d.0 == 0 && d.1 == 0) && d.0 >= -1 && d.0 <= 1 && d.1
                >= -1 && d.1 <= 1;
            proof {
                assert(keep == dir_valid(d, i as int, j as int, w as int, h as int));
            }
            let ghost old_dirs = dirs@;
            proof {
                assert(!old_dirs.contains(d)) by {
                    if old_dirs.contains(d) {
                        let m = choose|m: int|
                            0 <= m < k && all[m] == d && dir_valid(
                                d,
                                i as int,
                                j as int,
                                w as int,
                                h as int,
                            );
                        assert(all[m] == all[k as int]);
                        assert(false);
                    }
                }
            }
            if keep {
                dirs.push(d);
            }
            proof {
                if keep {
                    assert(dirs@ == old_dirs.push(d));
                    assert forall|m1: int, m2: int|
                        0 <= m1 < m2 < dirs@.len() implies dirs@[m1] != dirs@[m2] by {
                        if m2 == dirs@.len() - 1 {
                            assert(dirs@[m2] == d);
                            assert(old_dirs.contains(old_dirs[m1]));
                        }
                    }
                }
                let iv = i as int;
                let jv = j as int;
                let wv = w as int;
                let hv = h as int;
                assert forall|x: Dir|
                    dirs@.contains(x) <==> exists|m: int|
                        0 <= m < k + 1 && all[m] == x && dir_valid(x, iv, jv, wv, hv) by {
                    if dirs@.contains(x) {
                        if old_dirs.contains(x) {
                            let m = choose|m: int|
                                0 <= m < k && all[m] == x && dir_valid(x, iv, jv, wv, hv);
                            assert(0 <= m < k + 1 && all[m] == x && dir_valid(x, iv, jv, wv, hv));
                        } else {
                            vstd::seq_lib::lemma_seq_contains_after_push(old_dirs, d, x);
                            assert(keep && x == d);
                            assert(all[k as int] == x && dir_valid(x, iv, jv, wv, hv));
                        }
                    }
                    if exists|m: int| 0 <= m < k + 1 && all[m] == x && dir_valid(x, iv, jv, wv, hv) {
                        let m = choose|m: int|
                            0 <= m < k + 1 && all[m] == x && dir_valid(x, iv, jv, wv, hv);
                        if m < k {
                            assert(old_dirs.contains(x));
                            if keep {
                                assert(dirs@ == old_dirs.push(d));
                                vstd::seq_lib::lemma_seq_contains_after_push(old_dirs, d, x);
                            }
                            assert(dirs@.contains(x));
                        } else {
                            assert(all[k as int] == x);
                            assert(keep);
                            assert(dirs@ == old_dirs.push(d));
                            vstd::seq_lib::lemma_seq_contains_after_push(old_dirs, d, x);
                            assert(dirs@.contains(x));
                        }
                    }
                }
            }
            k = k + 1;
        }
        proof {
            assert forall|d: Dir|
                dirs@.contains(d) <==> dir_valid(
                    d,
                    i as int,
                    j as int,
                    w as int,
                    h as int,
                ) by {
                if dir_valid(d, i as int, j as int, w as int, h as int) {
                    if d.0 == -1 && d.1 == 0 {
                        assert(all[0] == d);
                    } else if d.0 == -1 && d.1 == -1 {
                        assert(all[1] == d);
                    } else if d.0 == -1 && d.1 == 1 {
                        assert(all[2] == d);
                    } else if d.0 == 1 && d.1 == 0 {
                        assert(all[3] == d);
                    } else if d.0 == 1 && d.1 == -1 {
                        assert(all[4] == d);
                    } else if d.0 == 1 && d.1 == 1 {
                        assert(all[5] == d);
                    } else if d.0 == 0 && d.1 == -1 {
                        assert(all[6] == d);
                    } else {
                        assert(d.0 == 0 && d.1 == 1);
                        assert(all[7] == d);
                    }
                }
            }
        }
        dirs
    }
}

/// Move the coordinate `a` by the unit offset `d`.
pub(crate) fn offset(a: usize, d: i8) -> (r: usize)
    requires
        -1 <= d as int <= 1,
        0 <= a as int + d as int <= usize::MAX as int,
    ensures
        r as int == a as int + d as int,
{
    if d < 0 {
        a - 1
    } else if d > 0 {
        a + 1
    } else {
        a
    }
}

/// How often tile `t` occurs among the first `n` cells of `layer`, in
/// row-major order.
pub open spec fn tile_count_upto(layer: Layer, t: i16, n: int) -> int
    decreases n,
{
    if n <= 0 {
        0
    } else {
        tile_count_upto(layer, t, n - 1) + if layer.tile(
            (n - 1) / (layer.w as int),
            (n - 1) % (layer.w as int),
        ) == t {
            1int
        } else {
            0int
        }
    }
}

/// How often tile `t` occurs in `layer`.
pub open spec fn tile_count(layer: Layer, t: i16) -> int {
    tile_count_upto(layer, t, layer.h as int * layer.w as int)
}

/// `observed`, restricted to source cells before row `j`, or in row `j`
/// before column `i`.
pub open spec fn observed_upto(layer: Layer, a: i16, b: i16, d: Dir, j: int, i: int) -> bool {
    exists|j2: int, i2: int|
        0 <= j2 < layer.h && 0 <= i2 < layer.w && (j2 < j || (j2 == j && i2 < i)) && observed_at(
            layer,
            a,
            b,
            d,
            j2,
            i2,
        )
}

/// The cell at row `j`, column `i` holds `a` and its neighbor in `d` holds `b`.
pub open spec fn observed_at(layer: Layer, a: i16, b: i16, d: Dir, j: int, i: int) -> bool {
    &&& dir_valid(d, i, j, layer.w as int, layer.h as int)
    &&& layer.tile(j, i) == a
    &&& layer.tile(j + d.1, i + d.0) == b
}

proof fn lemma_observed_upto_cell_step(layer: Layer, a: i16, b: i16, d: Dir, j: int, i: int)
    requires
        0 <= j < layer.h,
        0 <= i < layer.w,
    ensures
        observed_upto(layer, a, b, d, j, i + 1) == (observed_upto(layer, a, b, d, j, i)
            || observed_at(layer, a, b, d, j, i)),
{
    if observed_upto(layer, a, b, d, j, i + 1) {
        let (j2, i2) = choose|j2: int, i2: int|
            0 <= j2 < layer.h && 0 <= i2 < layer.w && (j2 < j || (j2 == j && i2 < i + 1))
                && observed_at(layer, a, b, d, j2, i2);
        if j2 == j && i2 == i {
        } else {
            assert(observed_upto(layer, a, b, d, j, i));
        }
    }
    if observed_upto(layer, a, b, d, j, i) {
        let (j2, i2) = choose|j2: int, i2: int|
            0 <= j2 < layer.h && 0 <= i2 < layer.w && (j2 < j || (j2 == j && i2 < i))
                && observed_at(layer, a, b, d, j2, i2);
        assert(observed_upto(layer, a, b, d, j, i + 1));
    }
    if observed_at(layer, a, b, d, j, i) {
        assert(observed_upto(layer, a, b, d, j, i + 1));
    }
}

proof fn lemma_observed_upto_row_end(layer: Layer, a: i16, b: i16, d: Dir, j: int)
    requires
        0 <= j,
    ensures
        observed_upto(layer, a, b, d, j, layer.w as int) == observed_upto(layer, a, b, d, j + 1, 0),
{
    let w = layer.w as int;
    if observed_upto(layer, a, b, d, j, w) {
        let (j2, i2) = choose|j2: int, i2: int|
            0 <= j2 < layer.h && 0 <= i2 < layer.w && (j2 < j || (j2 == j && i2 < w))
                && observed_at(layer, a, b, d, j2, i2);
        assert(observed_upto(layer, a, b, d, j + 1, 0));
    }
    if observed_upto(layer, a, b, d, j + 1, 0) {
        let (j2, i2) = choose|j2: int, i2: int|
            0 <= j2 < layer.h && 0 <= i2 < layer.w && (j2 < j + 1 || (j2 == j + 1 && i2 < 0))
                && observed_at(layer, a, b, d, j2, i2);
        assert(observed_upto(layer, a, b, d, j, w));
    }
}

proof fn lemma_observed_full(layer: Layer, a: i16, b: i16, d: Dir)
    ensures
        observed(layer, a, b, d) == observed_upto(layer, a, b, d, layer.h as int, 0),
{
    if observed(layer, a, b, d) {
        let (j2, i2) = choose|j2: int, i2: int|
            0 <= j2 < layer.h && 0 <= i2 < layer.w && dir_valid(
                d,
                i2,
                j2,
                layer.w as int,
                layer.h as int,
            ) && layer.tile(j2, i2) == a && layer.tile(j2 + d.1, i2 + d.0) == b;
        assert(observed_at(layer, a, b, d, j2, i2));
        assert(observed_upto(layer, a, b, d, layer.h as int, 0));
    }
    if observed_upto(layer, a, b, d, layer.h as int, 0) {
        let (j2, i2) = choose|j2: int, i2: int|
            0 <= j2 < layer.h && 0 <= i2 < layer.w && (j2 < layer.h as int || (j2 == layer.h as int
                && i2 < 0)) && observed_at(layer, a, b, d, j2, i2);
        assert(observed(layer, a, b, d));
    }
}

/// Step from column `i` to `i + 1` of row `j` of the source: the next cell is
/// the row-major cell number `j * w + i`.
proof fn lemma_tile_count_cell_step(layer: Layer, t: i16, j: int, i: int)
    requires
        layer.wf(),
        0 <= j < layer.h,
        0 <= i < layer.w,
    ensures
        tile_count_upto(layer, t, j * layer.w as int + i + 1) == tile_count_upto(
            layer,
            t,
            j * layer.w as int + i,
        ) + if layer.tile(j, i) == t {
            1int
        } else {
            0int
        },
{
    let w = layer.w as int;
    let n = j * w + i;
    assert(j * w + i >= 0) by (nonlinear_arith)
        requires
            0 <= j && 0 <= i && w >= 1,
    ;
    lemma_fundamental_div_mod_converse_div(n, w, j, i);
    lemma_fundamental_div_mod_converse_mod(n, w, j, i);
    assert(tile_count_upto(layer, t, n + 1) == tile_count_upto(layer, t, n) + if layer.tile(j, i)
        == t {
        1int
    } else {
        0int
    });
}

} // verus!
