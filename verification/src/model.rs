use vstd::prelude::*;

use crate::level::Layer;
use crate::level_detail::Dir;
use crate::level_detail::LevelDetail;
use crate::level_detail::dir_valid;
use crate::level_detail::observed;
use crate::level_detail::offset;
use crate::level_detail::tile_count;
use crate::rng::rng_below;
use crate::rng::rng_from_seed;
use crate::wavefunction::WaveFunction;

verus! {

/// One solve attempt: an adjacency model and weight table learned from a
/// source grid, a wave field of the requested output size, and the random
/// source that drives collapses.
pub struct Model {
    pub size: (usize, usize),
    pub level_detail: LevelDetail,
    pub wavefunction: WaveFunction,
    pub rng: fastrand::Rng,
}

impl Model {
    /// Tile `a` may have `b` as its neighbor in direction `d`.
    pub open spec fn compat(self, a: i16, b: i16, d: Dir) -> bool {
        self.level_detail.has(a, b, d)
    }

    pub open spec fn wf(self) -> bool {
        &&& self.wavefunction.grid_wf()
        &&& self.size.0 == self.wavefunction.w
        &&& self.size.1 == self.wavefunction.h
    }

    /// The cell at row `j`, column `i` still holds every tile the weight
    /// table knows: it has never effectively been constrained.
    pub open spec fn full_cell(self, j: int, i: int) -> bool {
        self.wavefunction.cell(j, i).len() == self.wavefunction.weights.entries@.len()
    }

    /// Some candidate of the cell at `(j, i)` allows `t` as its neighbor in
    /// direction `d`.
    pub open spec fn tile_supported(self, j: int, i: int, t: i16, d: Dir) -> bool {
        exists|s: i16| #[trigger] self.wavefunction.cell(j, i).contains(s) && self.compat(s, t, d)
    }

    /// Every candidate of the neighbor of `(j, i)` along `d` has support in
    /// the cell at `(j, i)`.
    pub open spec fn arc_supported(self, j: int, i: int, d: Dir) -> bool {
        forall|t: i16|
            #[trigger] self.wavefunction.cell(j + d.1, i + d.0).contains(t)
                ==> self.tile_supported(j, i, t, d)
    }

    /// The arc from the cell at `(j, i)` along `d` is consistent: every
    /// candidate of the neighbor is supported by the cell, unless the cell is
    /// still full and has never been the source of a propagation.
    pub open spec fn arc_ok(self, j: int, i: int, d: Dir) -> bool {
        self.full_cell(j, i) || self.arc_supported(j, i, d)
    }

    /// `a` resolves every cell to one of its current candidates.
    pub open spec fn assignment_in(self, a: Layer) -> bool {
        &&& a.w == self.wavefunction.w
        &&& a.h == self.wavefunction.h
        &&& forall|j: int, i: int|
            self.wavefunction.in_bounds(j, i) ==> self.wavefunction.cell(j, i).contains(
                #[trigger] a.tile(j, i),
            )
    }

    /// Every adjacent ordered pair of the resolved grid `a` is allowed by the
    /// adjacency model.
    pub open spec fn assignment_consistent(self, a: Layer) -> bool {
        forall|j: int, i: int, d: Dir|
            self.wavefunction.in_bounds(j, i) && dir_valid(
                d,
                i,
                j,
                self.wavefunction.w as int,
                self.wavefunction.h as int,
            ) ==> #[trigger] self.compat(a.tile(j, i), a.tile(j + d.1, i + d.0), d)
    }

    /// Every in-bounds arc of the grid is consistent.
    pub open spec fn consistent(self) -> bool {
        forall|j: int, i: int, d: Dir|
            self.wavefunction.in_bounds(j, i) && dir_valid(
                d,
                i,
                j,
                self.wavefunction.w as int,
                self.wavefunction.h as int,
            ) ==> #[trigger] self.arc_ok(j, i, d)
    }

    /// Learn the adjacency model and weights from `layer`, and open a wave
    /// field of `size.0` columns by `size.1` rows, seeding the random source
    /// with `seed`.
    pub fn new(size: (usize, usize), layer: &Layer, seed: u64) -> (r: Model)
        requires
            layer.wf(),
            layer.w as int * layer.h as int <= u64::MAX,
            size.0 >= 1,
            size.1 >= 1,
            size.0 as int * size.1 as int <= usize::MAX,
        ensures
            r.wf(),
            r.consistent(),
            r.size == size,
            forall|a: i16, b: i16, d: Dir| r.compat(a, b, d) <==> observed(*layer, a, b, d),
            forall|t: i16| r.wavefunction.weights.lookup(t) == tile_count(*layer, t),
            r.wavefunction.weights.total() == layer.w as int * layer.h as int,
            forall|j: int, i: int|
                r.wavefunction.in_bounds(j, i) ==> #[trigger] r.wavefunction.cell(j, i)
                    == r.wavefunction.weights.key_seq(),
    {
        let details = LevelDetail::new_with_weights(layer);
        let wavefunction = WaveFunction::new(size, details.1);
        let r = Model { size, level_detail: details.0, wavefunction, rng: rng_from_seed(seed) };
        proof {
            assert forall|j: int, i: int, d: Dir|
                r.wavefunction.in_bounds(j, i) && dir_valid(
                    d,
                    i,
                    j,
                    r.wavefunction.w as int,
                    r.wavefunction.h as int,
                ) implies #[trigger] r.arc_ok(j, i, d) by {
                assert(r.wavefunction.cell(j, i) == r.wavefunction.weights.key_seq());
                assert(r.full_cell(j, i));
            }
        }
        r
    }

    /// The most constrained unresolved cell: among cells with more than one
    /// candidate, one whose candidate count is least after a small random
    /// perturbation, used only to break ties between equally constrained
    /// cells.
    pub fn min_entropy_pos(&mut self) -> (pos: (usize, usize))
        requires
            old(self).wf(),
            exists|j: int, i: int|
                old(self).wavefunction.in_bounds(j, i) && #[trigger] old(self).wavefunction.cell(
                    j,
                    i,
                ).len() >= 2,
        ensures
            final(self).wavefunction == old(self).wavefunction,
            final(self).level_detail == old(self).level_detail,
            final(self).size == old(self).size,
            final(self).wavefunction.in_bounds(pos.0 as int, pos.1 as int),
            final(self).wavefunction.cell(pos.0 as int, pos.1 as int).len() >= 2,
            forall|j: int, i: int|
                old(self).wavefunction.in_bounds(j, i) && #[trigger] old(self).wavefunction.cell(
                    j,
                    i,
                ).len() >= 2 ==> final(self).wavefunction.cell(pos.0 as int, pos.1 as int).len()
                    <= old(self).wavefunction.cell(j, i).len(),
    {
        let w = self.size.0;
        let h = self.size.1;
        let mut best_pos: (usize, usize) = (0, 0);
        let mut best_score: u128 = 0;
        let mut found = false;
        let mut j: usize = 0;
        while j < h
            invariant
                self.wf(),
                self.wavefunction == old(self).wavefunction,
                self.level_detail == old(self).level_detail,
                self.size == old(self).size,
                w == self.size.0,
                h == self.size.1,
                j <= h,
                found ==> self.wavefunction.in_bounds(best_pos.0 as int, best_pos.1 as int)
                    && self.wavefunction.cell(best_pos.0 as int, best_pos.1 as int).len() >= 2,
                found ==> self.wavefunction.cell(best_pos.0 as int, best_pos.1 as int).len() * 1024
                    <= best_score < self.wavefunction.cell(
                    best_pos.0 as int,
                    best_pos.1 as int,
                ).len() * 1024 + 1024,
                found ==> forall|j2: int, i2: int|
                    0 <= j2 < j && 0 <= i2 < w && #[trigger] self.wavefunction.cell(
                        j2,
                        i2,
                    ).len() >= 2 ==> best_score < self.wavefunction.cell(j2, i2).len() * 1024
                        + 1024,
                !found ==> forall|j2: int, i2: int|
                    0 <= j2 < j && 0 <= i2 < w ==> #[trigger] self.wavefunction.cell(
                        j2,
                        i2,
                    ).len() < 2,
            decreases h - j,
        {
            let mut i: usize = 0;
            while i < w
                invariant
                    self.wf(),
                    self.wavefunction == old(self).wavefunction,
                    self.level_detail == old(self).level_detail,
                    self.size == old(self).size,
                    w == self.size.0,
                    h == self.size.1,
                    j < h,
                    i <= w,
                    found ==> self.wavefunction.in_bounds(best_pos.0 as int, best_pos.1 as int)
                        && self.wavefunction.cell(best_pos.0 as int, best_pos.1 as int).len() >= 2,
                    found ==> self.wavefunction.cell(best_pos.0 as int, best_pos.1 as int).len()
                        * 1024 <= best_score < self.wavefunction.cell(
                        best_pos.0 as int,
                        best_pos.1 as int,
                    ).len() * 1024 + 1024,
                    found ==> forall|j2: int, i2: int|
                        ((0 <= j2 < j && 0 <= i2 < w) || (j2 == j && 0 <= i2 < i))
                            && #[trigger] self.wavefunction.cell(j2, i2).len() >= 2 ==> best_score
                            < self.wavefunction.cell(j2, i2).len() * 1024 + 1024,
                    !found ==> forall|j2: int, i2: int|
                        (0 <= j2 < j && 0 <= i2 < w) || (j2 == j && 0 <= i2 < i)
                            ==> #[trigger] self.wavefunction.cell(j2, i2).len() < 2,
                decreases w - i,
            {
                let cand = self.wavefunction.get((j, i));
                let len = cand.len();
                if len > 1 {
                    let noise = rng_below(&mut self.rng, 1024);
                    proof {
                        assert((len as int) * 1024 + 1024 <= u128::MAX) by (nonlinear_arith)
                            requires
                                len as int <= 0xffff_ffff_ffff_ffff,
                        ;
                    }
                    let score = (len as u128) * 1024 + noise;
                    if !found || score < best_score {
                        best_pos = (j, i);
                        best_score = score;
                        found = true;
                    }
                }
                i = i + 1;
            }
            j = j + 1;
        }
        proof {
            if !found {
                let (j2, i2) = choose|j2: int, i2: int|
                    self.wavefunction.in_bounds(j2, i2) && #[trigger] self.wavefunction.cell(
                        j2,
                        i2,
                    ).len() >= 2;
                assert(self.wavefunction.cell(j2, i2).len() < 2);
                assert(false);
            }
            assert forall|j2: int, i2: int|
                self.wavefunction.in_bounds(j2, i2) && #[trigger] self.wavefunction.cell(
                    j2,
                    i2,
                ).len() >= 2 implies self.wavefunction.cell(
                best_pos.0 as int,
                best_pos.1 as int,
            ).len() <= self.wavefunction.cell(j2, i2).len() by {
                assert(best_score < self.wavefunction.cell(j2, i2).len() * 1024 + 1024);
            }
        }
        best_pos
    }

    /// Restore arc consistency after the cell at `pos` changed, by AC-3 style
    /// worklist propagation: whenever a neighbor's candidate has no support
    /// left, remove it and requeue that neighbor.
    pub fn propagate(&mut self, pos: (usize, usize))
        requires
            old(self).wf(),
            old(self).wavefunction.in_bounds(pos.0 as int, pos.1 as int),
            forall|j: int, i: int, d: Dir|
                old(self).wavefunction.in_bounds(j, i) && dir_valid(
                    d,
                    i,
                    j,
                    old(self).wavefunction.w as int,
                    old(self).wavefunction.h as int,
                ) && !(j == pos.0 as int && i == pos.1 as int) ==> #[trigger] old(self).arc_ok(
                    j,
                    i,
                    d,
                ),
        ensures
            final(self).wf(),
            final(self).consistent(),
            final(self).size == old(self).size,
            final(self).level_detail == old(self).level_detail,
            final(self).wavefunction.w == old(self).wavefunction.w,
            final(self).wavefunction.h == old(self).wavefunction.h,
            final(self).wavefunction.weights == old(self).wavefunction.weights,
            final(self).wavefunction.total_cands() <= old(self).wavefunction.total_cands(),
            final(self).rng == old(self).rng,
            forall|j: int, i: int, x: i16|
                final(self).wavefunction.in_bounds(j, i) && #[trigger] final(self).wavefunction.cell(j, i).contains(x) ==> old(self).wavefunction.cell(
                    j,
                    i,
                ).contains(x),
            forall|a: Layer|
                old(self).assignment_in(a) && #[trigger] old(self).assignment_consistent(a)
                    ==> final(self).assignment_in(a),
            forall|d: Dir|
                dir_valid(
                    d,
                    pos.1 as int,
                    pos.0 as int,
                    old(self).wavefunction.w as int,
                    old(self).wavefunction.h as int,
                ) ==> #[trigger] final(self).arc_supported(pos.0 as int, pos.1 as int, d),
    {
        let w = self.size.0;
        let h = self.size.1;
        let mut stack: Vec<(usize, usize)> = Vec::new();
        stack.push(pos);
        proof {
            assert(stack@[0] == pos);
            assert forall|j: int, i: int, d: Dir|
                self.wavefunction.in_bounds(j, i) && dir_valid(
                    d,
                    i,
                    j,
                    w as int,
                    h as int,
                ) implies (#[trigger] self.arc_ok(j, i, d) || stack@.contains(
                (j as usize, i as usize),
            )) by {
                if j == pos.0 as int && i == pos.1 as int {
                    assert(stack@[0] == (j as usize, i as usize));
                    assert(stack@.contains((j as usize, i as usize)));
                } else {
                    assert(old(self).arc_ok(j, i, d));
                }
            }
        }
        while stack.len() > 0
            invariant
                self.wf(),
                self.size == old(self).size,
                self.level_detail == old(self).level_detail,
                self.wavefunction.w == old(self).wavefunction.w,
                self.wavefunction.h == old(self).wavefunction.h,
                self.wavefunction.weights == old(self).wavefunction.weights,
                self.rng == old(self).rng,
                w == self.size.0,
                h == self.size.1,
                pos.0 < h,
                pos.1 < w,
                forall|k: int|
                    0 <= k < stack@.len() ==> (#[trigger] stack@[k]).0 < h && stack@[k].1 < w,
                forall|j: int, i: int, d: Dir|
                    self.wavefunction.in_bounds(j, i) && dir_valid(
                        d,
                        i,
                        j,
                        w as int,
                        h as int,
                    ) ==> (#[trigger] self.arc_ok(j, i, d) || stack@.contains(
                        (j as usize, i as usize),
                    )),
                forall|j: int, i: int, x: i16|
                    self.wavefunction.in_bounds(j, i) && #[trigger] self.wavefunction.cell(
                        j,
                        i,
                    ).contains(x) ==> old(self).wavefunction.cell(j, i).contains(x),
                forall|a: Layer|
                    old(self).assignment_in(a) && #[trigger] old(self).assignment_consistent(a)
                        ==> self.assignment_in(a),
                forall|d: Dir|
                    dir_valid(d, pos.1 as int, pos.0 as int, w as int, h as int) ==> (
                    stack@.contains(pos) || #[trigger] self.arc_supported(
                        pos.0 as int,
                        pos.1 as int,
                        d,
                    )),
                self.wavefunction.total_cands() <= old(self).wavefunction.total_cands(),
            decreases 2 * self.wavefunction.total_cands() + stack@.len(),
        {
            proof {
                crate::wavefunction::lemma_seq_total_nonneg(self.wavefunction.cells@);
            }
            let ghost menter = 2 * self.wavefunction.total_cands() + stack@.len();
            let ghost spre = stack@;
            let cur = stack.pop().unwrap();
            proof {
                assert(spre =~= stack@.push(cur));
                assert forall|j: int, i: int, d: Dir|
                    self.wavefunction.in_bounds(j, i) && dir_valid(
                        d,
                        i,
                        j,
                        w as int,
                        h as int,
                    ) implies (#[trigger] self.arc_ok(j, i, d) || stack@.contains(
                    (j as usize, i as usize),
                ) || (j == cur.0 as int && i == cur.1 as int)) by {
                    if !self.arc_ok(j, i, d) {
                        assert(spre.contains((j as usize, i as usize)));
                        vstd::seq_lib::lemma_seq_contains_after_push(
                            stack@,
                            cur,
                            (j as usize, i as usize),
                        );
                        if (j as usize, i as usize) == cur {
                            assert(j == cur.0 as int && i == cur.1 as int);
                        }
                    }
                }
                assert forall|d: Dir|
                    dir_valid(d, pos.1 as int, pos.0 as int, w as int, h as int) implies (
                stack@.contains(pos) || self.arc_supported(pos.0 as int, pos.1 as int, d) || (pos
                    == cur)) by {
                    if !self.arc_supported(pos.0 as int, pos.1 as int, d) {
                        assert(spre.contains(pos));
                        vstd::seq_lib::lemma_seq_contains_after_push(stack@, cur, pos);
                    }
                }
            }
            let cur_tiles = self.wavefunction.get(cur);
            let dirs = LevelDetail::valid_dirs(cur.1, cur.0, w, h);
            let ghost mstart = 2 * self.wavefunction.total_cands() + stack@.len();
            let mut di: usize = 0;
            while di < dirs.len()
                invariant
                    self.wf(),
                    self.size == old(self).size,
                    self.level_detail == old(self).level_detail,
                    self.wavefunction.w == old(self).wavefunction.w,
                    self.wavefunction.h == old(self).wavefunction.h,
                    self.wavefunction.weights == old(self).wavefunction.weights,
                    self.rng == old(self).rng,
                    w == self.size.0,
                    h == self.size.1,
                    pos.0 < h,
                    pos.1 < w,
                    cur.0 < h,
                    cur.1 < w,
                    di <= dirs@.len(),
                    cur_tiles@ == self.wavefunction.cell(cur.0 as int, cur.1 as int),
                    forall|d: Dir|
                        dirs@.contains(d) <==> dir_valid(
                            d,
                            cur.1 as int,
                            cur.0 as int,
                            w as int,
                            h as int,
                        ),
                    forall|k: int|
                        0 <= k < stack@.len() ==> (#[trigger] stack@[k]).0 < h && stack@[k].1 < w,
                    forall|j: int, i: int, d: Dir|
                        self.wavefunction.in_bounds(j, i) && dir_valid(
                            d,
                            i,
                            j,
                            w as int,
                            h as int,
                        ) ==> (#[trigger] self.arc_ok(j, i, d) || stack@.contains(
                            (j as usize, i as usize),
                        ) || (j == cur.0 as int && i == cur.1 as int && !exists|m: int|
                            0 <= m < di && dirs@[m] == d)),
                    forall|j: int, i: int, x: i16|
                        self.wavefunction.in_bounds(j, i) && #[trigger] self.wavefunction.cell(
                            j,
                            i,
                        ).contains(x) ==> old(self).wavefunction.cell(j, i).contains(x),
                    forall|a: Layer|
                        old(self).assignment_in(a) && #[trigger] old(self).assignment_consistent(
                            a,
                        ) ==> self.assignment_in(a),
                    forall|d: Dir|
                        dir_valid(d, pos.1 as int, pos.0 as int, w as int, h as int) ==> (
                        stack@.contains(pos) || #[trigger] self.arc_supported(
                            pos.0 as int,
                            pos.1 as int,
                            d,
                        ) || (pos == cur && !exists|m: int| 0 <= m < di && dirs@[m] == d)),
                    self.wavefunction.total_cands() <= old(self).wavefunction.total_cands(),
                    2 * self.wavefunction.total_cands() + stack@.len() <= mstart,
                    mstart == menter - 1,
                decreases dirs@.len() - di,
            {
                let dir = dirs[di];
                proof {
                    assert(dirs@.contains(dirs@[di as int]));
                }
                let oj = offset(cur.0, dir.1);
                let oi = offset(cur.1, dir.0);
                let other_tiles = self.wavefunction.get((oj, oi));
                let ghost osnap = other_tiles@;
                proof {
                    self.wavefunction.lemma_cell_index(oj as int, oi as int);
                }
                let mut ti: usize = 0;
                while ti < other_tiles.len()
                    invariant
                        self.wf(),
                        self.size == old(self).size,
                        self.level_detail == old(self).level_detail,
                        self.wavefunction.w == old(self).wavefunction.w,
                        self.wavefunction.h == old(self).wavefunction.h,
                        self.wavefunction.weights == old(self).wavefunction.weights,
                        self.rng == old(self).rng,
                        w == self.size.0,
                        h == self.size.1,
                        pos.0 < h,
                        pos.1 < w,
                        cur.0 < h,
                        cur.1 < w,
                        di < dirs@.len(),
                        dir == dirs@[di as int],
                        dir_valid(dir, cur.1 as int, cur.0 as int, w as int, h as int),
                        oj == cur.0 + dir.1,
                        oi == cur.1 + dir.0,
                        oj < h,
                        oi < w,
                        !(oj == cur.0 && oi == cur.1),
                        ti <= other_tiles@.len(),
                        osnap == other_tiles@,
                        osnap.no_duplicates(),
                        cur_tiles@ == self.wavefunction.cell(cur.0 as int, cur.1 as int),
                        forall|d: Dir|
                            dirs@.contains(d) <==> dir_valid(
                                d,
                                cur.1 as int,
                                cur.0 as int,
                                w as int,
                                h as int,
                            ),
                        forall|m: int|
                            ti <= m < osnap.len() ==> self.wavefunction.cell(
                                oj as int,
                                oi as int,
                            ).contains(#[trigger] osnap[m]),
                        forall|x: i16|
                            #[trigger] self.wavefunction.cell(oj as int, oi as int).contains(x)
                                ==> ((exists|m: int| ti <= m < osnap.len() && osnap[m] == x)
                                || self.tile_supported(cur.0 as int, cur.1 as int, x, dir)),
                        forall|k: int|
                            0 <= k < stack@.len() ==> (#[trigger] stack@[k]).0 < h && stack@[k].1
                                < w,
                        forall|j: int, i: int, d: Dir|
                            self.wavefunction.in_bounds(j, i) && dir_valid(
                                d,
                                i,
                                j,
                                w as int,
                                h as int,
                            ) ==> (#[trigger] self.arc_ok(j, i, d) || stack@.contains(
                                (j as usize, i as usize),
                            ) || (j == cur.0 as int && i == cur.1 as int && !exists|m: int|
                                0 <= m < di && dirs@[m] == d)),
                        forall|j: int, i: int, x: i16|
                            self.wavefunction.in_bounds(j, i) && #[trigger] self.wavefunction.cell(
                                j,
                                i,
                            ).contains(x) ==> old(self).wavefunction.cell(j, i).contains(x),
                        forall|a: Layer|
                            old(self).assignment_in(a) && #[trigger] old(
                                self,
                            ).assignment_consistent(a) ==> self.assignment_in(a),
                        forall|d2: Dir|
                            dir_valid(d2, pos.1 as int, pos.0 as int, w as int, h as int) ==> (
                            stack@.contains(pos) || #[trigger] self.arc_supported(
                                pos.0 as int,
                                pos.1 as int,
                                d2,
                            ) || (pos == cur && !exists|m: int| 0 <= m < di && dirs@[m] == d2)),
                        self.wavefunction.total_cands() <= old(self).wavefunction.total_cands(),
                        2 * self.wavefunction.total_cands() + stack@.len() <= mstart,
                        mstart == menter - 1,
                    decreases other_tiles@.len() - ti,
                {
                    let t = other_tiles[ti];
                    let any = self.level_detail.any_compatible(&cur_tiles, t, dir);
                    if !any {
                        let ghost pre = *self;
                        self.wavefunction.constrain((oj, oi), &t);
                        let ghost prestack = stack@;
                        stack.push((oj, oi));
                        proof {
                            let jo = oj as int;
                            let io = oi as int;
                            let jc = cur.0 as int;
                            let ic = cur.1 as int;
                            assert(pre.wavefunction.cell(jo, io).contains(t));
                            assert(self.wavefunction.total_cands() == pre.wavefunction.total_cands()
                                - 1);
                            assert(stack@.contains((oj, oi))) by {
                                assert(stack@[stack@.len() - 1] == (oj, oi));
                            }
                            // cells other than the neighbor are unchanged
                            assert forall|j: int, i: int|
                                self.wavefunction.in_bounds(j, i) && !(j == jo && i == io)
                                    implies self.wavefunction.cell(j, i) == pre.wavefunction.cell(
                                j,
                                i,
                            ) by {}
                            // the coverage invariant survives the removal
                            assert forall|j: int, i: int, d: Dir|
                                self.wavefunction.in_bounds(j, i) && dir_valid(
                                    d,
                                    i,
                                    j,
                                    w as int,
                                    h as int,
                                ) implies (#[trigger] self.arc_ok(j, i, d) || stack@.contains(
                                (j as usize, i as usize),
                            ) || (j == jc && i == ic && !exists|m: int|
                                0 <= m < di && dirs@[m] == d)) by {
                                if j == jo && i == io {
                                    assert(stack@.contains((j as usize, i as usize)));
                                } else {
                                    if pre.arc_ok(j, i, d) {
                                        assert(self.wavefunction.cell(j, i)
                                            == pre.wavefunction.cell(j, i));
                                        if pre.full_cell(j, i) {
                                            assert(self.arc_ok(j, i, d));
                                        } else {
                                            assert forall|t2: i16|
                                                #[trigger] self.wavefunction.cell(
                                                    j + d.1,
                                                    i + d.0,
                                                ).contains(t2) implies self.tile_supported(
                                                j,
                                                i,
                                                t2,
                                                d,
                                            ) by {
                                                assert(pre.wavefunction.cell(
                                                    j + d.1,
                                                    i + d.0,
                                                ).contains(t2));
                                                assert(pre.tile_supported(j, i, t2, d));
                                                let s = choose|s: i16|
                                                    #[trigger] pre.wavefunction.cell(
                                                        j,
                                                        i,
                                                    ).contains(s) && pre.compat(s, t2, d);
                                                assert(self.wavefunction.cell(j, i).contains(s));
                                            }
                                            assert(self.arc_ok(j, i, d));
                                        }
                                    } else {
                                        // was covered by the stack or by cur's unseen dirs
                                        vstd::seq_lib::lemma_seq_contains_after_push(
                                            prestack,
                                            (oj, oi),
                                            (j as usize, i as usize),
                                        );
                                    }
                                }
                            }
                            // unprocessed snapshot tiles are still present
                            assert forall|m: int|
                                ti + 1 <= m < osnap.len() implies self.wavefunction.cell(
                                jo,
                                io,
                            ).contains(#[trigger] osnap[m]) by {
                                assert(osnap[m] != t) by {
                                    assert(osnap[ti as int] == t);
                                }
                                assert(pre.wavefunction.cell(jo, io).contains(osnap[m]));
                            }
                            // a consistent resolution drawn from the old cells keeps a
                            // supported tile at the neighbor: the removal cannot touch it
                            assert forall|a: Layer|
                                old(self).assignment_in(a) && #[trigger] old(
                                    self,
                                ).assignment_consistent(a) implies self.assignment_in(a) by {
                                assert(pre.assignment_in(a));
                                let ta = a.tile(jc, ic);
                                assert(pre.wavefunction.cell(jc, ic).contains(ta));
                                assert(cur_tiles@.contains(ta));
                                assert(old(self).compat(ta, a.tile(jc + dir.1, ic + dir.0), dir));
                                assert(a.tile(jo, io) == a.tile(jc + dir.1, ic + dir.0));
                                if a.tile(jo, io) == t {
                                    assert(self.level_detail.has(ta, t, dir));
                                    assert(false);
                                }
                                assert forall|j2: int, i2: int|
                                    self.wavefunction.in_bounds(j2, i2)
                                        implies self.wavefunction.cell(j2, i2).contains(
                                    #[trigger] a.tile(j2, i2),
                                ) by {
                                    if j2 == jo && i2 == io {
                                        assert(pre.wavefunction.cell(jo, io).contains(
                                            a.tile(jo, io),
                                        ));
                                    } else {
                                        assert(self.wavefunction.cell(j2, i2)
                                            == pre.wavefunction.cell(j2, i2));
                                        assert(pre.wavefunction.cell(j2, i2).contains(
                                            a.tile(j2, i2),
                                        ));
                                    }
                                }
                            }
                            let jp = pos.0 as int;
                            let ip = pos.1 as int;
                            assert forall|d2: Dir|
                                dir_valid(
                                    d2,
                                    pos.1 as int,
                                    pos.0 as int,
                                    w as int,
                                    h as int,
                                ) implies (stack@.contains(pos) || self.arc_supported(jp, ip, d2)
                                || (pos == cur && !exists|m: int|
                                0 <= m < di && dirs@[m] == d2)) by {
                                if (oj, oi) == pos {
                                    assert(stack@.contains(pos));
                                } else if prestack.contains(pos) {
                                    vstd::seq_lib::lemma_seq_contains_after_push(
                                        prestack,
                                        (oj, oi),
                                        pos,
                                    );
                                } else if pre.arc_supported(jp, ip, d2) {
                                    assert(!(jp == jo && ip == io)) by {
                                        if jp == jo && ip == io {
                                            assert((oj, oi) == pos);
                                        }
                                    }
                                    assert(self.wavefunction.in_bounds(jp, ip));
                                    assert forall|t2: i16|
                                        #[trigger] self.wavefunction.cell(
                                            jp + d2.1,
                                            ip + d2.0,
                                        ).contains(t2) implies self.tile_supported(
                                        jp,
                                        ip,
                                        t2,
                                        d2,
                                    ) by {
                                        assert(pre.wavefunction.cell(jp + d2.1, ip + d2.0).contains(
                                            t2,
                                        ));
                                        assert(pre.tile_supported(jp, ip, t2, d2));
                                        let s = choose|s: i16|
                                            #[trigger] pre.wavefunction.cell(jp, ip).contains(s)
                                                && pre.compat(s, t2, d2);
                                        assert(self.wavefunction.cell(jp, ip)
                                            == pre.wavefunction.cell(jp, ip));
                                        assert(self.wavefunction.cell(jp, ip).contains(s));
                                    }
                                    assert(self.arc_supported(jp, ip, d2));
                                }
                            }
                        }
                    }
                    ti = ti + 1;
                    proof {
                        assert forall|x: i16|
                            #[trigger] self.wavefunction.cell(oj as int, oi as int).contains(x)
                                implies ((exists|m: int| ti <= m < osnap.len() && osnap[m] == x)
                                || self.tile_supported(cur.0 as int, cur.1 as int, x, dir)) by {
                            if exists|m: int| ti - 1 <= m < osnap.len() && osnap[m] == x {
                                let m = choose|m: int| ti - 1 <= m < osnap.len() && osnap[m] == x;
                                if m == ti - 1 {
                                    // x is the tile just examined
                                    if any {
                                        assert(exists|s: i16|
                                            cur_tiles@.contains(s) && self.level_detail.has(
                                                s,
                                                x,
                                                dir,
                                            ));
                                        assert(self.tile_supported(
                                            cur.0 as int,
                                            cur.1 as int,
                                            x,
                                            dir,
                                        ));
                                    } else {
                                        assert(!self.wavefunction.cell(
                                            oj as int,
                                            oi as int,
                                        ).contains(x));
                                    }
                                } else {
                                    assert(ti <= m < osnap.len() && osnap[m] == x);
                                }
                            }
                        }
                    }
                }
                proof {
                    // all of the neighbor's remaining tiles are supported now
                    assert forall|t2: i16|
                        #[trigger] self.wavefunction.cell(
                            oj as int,
                            oi as int,
                        ).contains(t2) implies self.tile_supported(
                        cur.0 as int,
                        cur.1 as int,
                        t2,
                        dir,
                    ) by {}
                    assert(self.arc_supported(cur.0 as int, cur.1 as int, dir)) by {
                        assert(cur.0 as int + dir.1 == oj as int);
                        assert(cur.1 as int + dir.0 == oi as int);
                    }
                    assert(self.arc_ok(cur.0 as int, cur.1 as int, dir));
                    // extend the seen set of cur's directions to di + 1
                    assert forall|j: int, i: int, d: Dir|
                        self.wavefunction.in_bounds(j, i) && dir_valid(
                            d,
                            i,
                            j,
                            w as int,
                            h as int,
                        ) implies (#[trigger] self.arc_ok(j, i, d) || stack@.contains(
                        (j as usize, i as usize),
                    ) || (j == cur.0 as int && i == cur.1 as int && !exists|m: int|
                        0 <= m < di + 1 && dirs@[m] == d)) by {
                        if j == cur.0 as int && i == cur.1 as int && !self.arc_ok(j, i, d)
                            && !stack@.contains((j as usize, i as usize)) {
                            if exists|m: int| 0 <= m < di + 1 && dirs@[m] == d {
                                let m = choose|m: int| 0 <= m < di + 1 && dirs@[m] == d;
                                if m == di as int {
                                    assert(d == dir);
                                    assert(self.arc_ok(j, i, d));
                                    assert(false);
                                } else {
                                    assert(exists|m2: int| 0 <= m2 < di && dirs@[m2] == d);
                                    assert(false);
                                }
                            }
                        }
                    }
                    assert forall|d2: Dir|
                        dir_valid(
                            d2,
                            pos.1 as int,
                            pos.0 as int,
                            w as int,
                            h as int,
                        ) implies (stack@.contains(pos) || self.arc_supported(
                        pos.0 as int,
                        pos.1 as int,
                        d2,
                    ) || (pos == cur && !exists|m: int| 0 <= m < di + 1 && dirs@[m] == d2)) by {
                        if pos == cur && !stack@.contains(pos) && !self.arc_supported(
                            pos.0 as int,
                            pos.1 as int,
                            d2,
                        ) {
                            if exists|m: int| 0 <= m < di + 1 && dirs@[m] == d2 {
                                let m = choose|m: int| 0 <= m < di + 1 && dirs@[m] == d2;
                                if m == di as int {
                                    assert(d2 == dir);
                                    assert(self.arc_supported(pos.0 as int, pos.1 as int, d2));
                                    assert(false);
                                } else {
                                    assert(exists|m2: int| 0 <= m2 < di && dirs@[m2] == d2);
                                    assert(false);
                                }
                            }
                        }
                    }
                }
                di = di + 1;
            }
            proof {
                crate::wavefunction::lemma_seq_total_nonneg(self.wavefunction.cells@);
                // every valid direction from cur has been seen
                assert forall|j: int, i: int, d: Dir|
                    self.wavefunction.in_bounds(j, i) && dir_valid(
                        d,
                        i,
                        j,
                        w as int,
                        h as int,
                    ) implies (#[trigger] self.arc_ok(j, i, d) || stack@.contains(
                    (j as usize, i as usize),
                )) by {
                    if j == cur.0 as int && i == cur.1 as int {
                        assert(dirs@.contains(d));
                        let m = choose|m: int| 0 <= m < dirs@.len() && dirs@[m] == d;
                        assert(exists|m2: int| 0 <= m2 < dirs@.len() && dirs@[m2] == d);
                    }
                }
                assert forall|d2: Dir|
                    dir_valid(d2, pos.1 as int, pos.0 as int, w as int, h as int) implies (
                stack@.contains(pos) || self.arc_supported(pos.0 as int, pos.1 as int, d2)) by {
                    if pos == cur && !stack@.contains(pos) && !self.arc_supported(
                        pos.0 as int,
                        pos.1 as int,
                        d2,
                    ) {
                        assert(dirs@.contains(d2));
                        let m = choose|m: int| 0 <= m < dirs@.len() && dirs@[m] == d2;
                        assert(exists|m2: int| 0 <= m2 < dirs@.len() && dirs@[m2] == d2);
                        assert(false);
                    }
                }
            }
        }
        proof {
            assert forall|j: int, i: int, d: Dir|
                self.wavefunction.in_bounds(j, i) && dir_valid(
                    d,
                    i,
                    j,
                    self.wavefunction.w as int,
                    self.wavefunction.h as int,
                ) implies #[trigger] self.arc_ok(j, i, d) by {
                assert(!stack@.contains((j as usize, i as usize)));
            }
            assert forall|d: Dir|
                dir_valid(
                    d,
                    pos.1 as int,
                    pos.0 as int,
                    self.wavefunction.w as int,
                    self.wavefunction.h as int,
                ) implies #[trigger] self.arc_supported(pos.0 as int, pos.1 as int, d) by {
                assert(!stack@.contains(pos));
            }
        }
    }

    /// One step of the main loop: pick the most constrained unresolved cell,
    /// collapse it, and propagate the consequences.
    pub fn iterate(&mut self)
        requires
            old(self).wf(),
            old(self).consistent(),
            exists|j: int, i: int|
                old(self).wavefunction.in_bounds(j, i) && #[trigger] old(self).wavefunction.cell(
                    j,
                    i,
                ).len() >= 2,
        ensures
            final(self).wf(),
            final(self).consistent(),
            final(self).size == old(self).size,
            final(self).level_detail == old(self).level_detail,
            final(self).wavefunction.w == old(self).wavefunction.w,
            final(self).wavefunction.h == old(self).wavefunction.h,
            final(self).wavefunction.weights == old(self).wavefunction.weights,
            final(self).wavefunction.total_cands() < old(self).wavefunction.total_cands(),
            forall|j: int, i: int, x: i16|
                final(self).wavefunction.in_bounds(j, i) && #[trigger] final(self).wavefunction.cell(j, i).contains(x) ==> old(self).wavefunction.cell(
                    j,
                    i,
                ).contains(x),
    {
        let pos = self.min_entropy_pos();
        let ghost before = *self;
        self.wavefunction.collapse(pos, &mut self.rng);
        proof {
            let jp = pos.0 as int;
            let ip = pos.1 as int;
            assert forall|j: int, i: int, d: Dir|
                self.wavefunction.in_bounds(j, i) && dir_valid(
                    d,
                    i,
                    j,
                    self.wavefunction.w as int,
                    self.wavefunction.h as int,
                ) && !(j == jp && i == ip) implies #[trigger] self.arc_ok(j, i, d) by {
                assert(before.wavefunction == old(self).wavefunction);
                assert(old(self).arc_ok(j, i, d));
                assert(before.arc_ok(j, i, d));
                assert(self.wavefunction.cell(j, i) == before.wavefunction.cell(j, i));
                if !self.full_cell(j, i) {
                    assert(!before.full_cell(j, i));
                    assert forall|t: i16|
                        #[trigger] self.wavefunction.cell(j + d.1, i + d.0).contains(t)
                            implies self.tile_supported(j, i, t, d) by {
                        if j + d.1 == jp && i + d.0 == ip {
                            assert(t == self.wavefunction.cell(jp, ip)[0]);
                            assert(before.wavefunction.cell(jp, ip).contains(t));
                        } else {
                            assert(self.wavefunction.cell(j + d.1, i + d.0)
                                == before.wavefunction.cell(j + d.1, i + d.0));
                        }
                        assert(before.tile_supported(j, i, t, d));
                        let s = choose|s: i16|
                            #[trigger] before.wavefunction.cell(j, i).contains(s) && before.compat(
                                s,
                                t,
                                d,
                            );
                        assert(self.wavefunction.cell(j, i).contains(s));
                    }
                }
            }
        }
        let ghost mid = *self;
        self.propagate(pos);
        proof {
            let jp = pos.0 as int;
            let ip = pos.1 as int;
            assert forall|j: int, i: int, x: i16|
                self.wavefunction.in_bounds(j, i) && #[trigger] self.wavefunction.cell(
                    j,
                    i,
                ).contains(x) implies old(self).wavefunction.cell(j, i).contains(x) by {
                assert(mid.wavefunction.cell(j, i).contains(x));
                if j == jp && i == ip {
                    assert(x == mid.wavefunction.cell(jp, ip)[0]);
                    assert(before.wavefunction.cell(jp, ip).contains(x));
                } else {
                    assert(mid.wavefunction.cell(j, i) == before.wavefunction.cell(j, i));
                }
            }
        }
    }

    /// Drive the field to full collapse: the finished grid on success,
    /// nothing when a contradiction (an emptied cell) was reached.
    ///
    /// On success, every pair of neighboring resolved tiles was observed as a
    /// pair in the source — unless the weight table has a single tile, in
    /// which case a grid that starts resolved has nothing to check.
    pub fn run(&mut self) -> (r: Option<Layer>)
        requires
            old(self).wf(),
            old(self).consistent(),
        ensures
            final(self).wf(),
            final(self).size == old(self).size,
            final(self).level_detail == old(self).level_detail,
            final(self).wavefunction.weights == old(self).wavefunction.weights,
            r is Some <==> forall|j: int, i: int|
                final(self).wavefunction.in_bounds(j, i) ==> #[trigger] final(self).wavefunction.cell(j, i).len() == 1,
            r is None ==> exists|j: int, i: int|
                final(self).wavefunction.in_bounds(j, i) && #[trigger] final(self).wavefunction.cell(j, i).len() == 0,
            (forall|j: int, i: int|
                old(self).wavefunction.in_bounds(j, i) ==> #[trigger] old(self).wavefunction.cell(
                    j,
                    i,
                ).len() == 1) ==> r is Some && final(self).wavefunction == old(self).wavefunction,
            r is Some ==> {
                let layer = r->Some_0;
                &&& layer.wf()
                &&& layer.w == old(self).size.0
                &&& layer.h == old(self).size.1
                &&& layer.idx == 0
                &&& forall|j: int, i: int|
                    final(self).wavefunction.in_bounds(j, i) ==> final(self).wavefunction.weights.contains_key(#[trigger] layer.tile(j, i))
                &&& forall|j: int, i: int, d: Dir|
                    final(self).wavefunction.in_bounds(j, i) && dir_valid(
                        d,
                        i,
                        j,
                        final(self).wavefunction.w as int,
                        final(self).wavefunction.h as int,
                    ) ==> (#[trigger] final(self).compat(
                        layer.tile(j, i),
                        layer.tile(j + d.1, i + d.0),
                        d,
                    ) || final(self).wavefunction.weights.entries@.len() == 1)
            },
    {
        loop
            invariant
                self.wf(),
                self.consistent(),
                self.size == old(self).size,
                self.level_detail == old(self).level_detail,
                self.wavefunction.w == old(self).wavefunction.w,
                self.wavefunction.h == old(self).wavefunction.h,
                self.wavefunction.weights == old(self).wavefunction.weights,
                (forall|j: int, i: int|
                    old(self).wavefunction.in_bounds(j, i) ==> #[trigger] old(self).wavefunction.cell(j, i).len() == 1) ==> self.wavefunction == old(self).wavefunction,
            ensures
                self.wf(),
                self.consistent(),
                self.size == old(self).size,
                self.level_detail == old(self).level_detail,
                self.wavefunction.w == old(self).wavefunction.w,
                self.wavefunction.h == old(self).wavefunction.h,
                self.wavefunction.weights == old(self).wavefunction.weights,
                (forall|j: int, i: int|
                    old(self).wavefunction.in_bounds(j, i) ==> #[trigger] old(self).wavefunction.cell(j, i).len() == 1) ==> self.wavefunction == old(self).wavefunction,
                self.wavefunction.fully_collapsed_spec(),
            decreases self.wavefunction.total_cands(),
        {
            proof {
                crate::wavefunction::lemma_seq_total_nonneg(self.wavefunction.cells@);
            }
            if self.wavefunction.is_fully_collapsed() {
                break ;
            }
            // an emptied cell ends the attempt at once: nothing can refill it
            match self.wavefunction.contradicted_cell() {
                Some(c) => {
                    proof {
                        assert(self.wavefunction.cell(c.0 as int, c.1 as int).len() != 1);
                        if forall|j: int, i: int|
                            old(self).wavefunction.in_bounds(j, i) ==> #[trigger] old(self).wavefunction.cell(j, i).len() == 1 {
                            assert(old(self).wavefunction.cell(c.0 as int, c.1 as int).len()
                                == 1);
                            assert(false);
                        }
                    }
                    return None;
                },
                None => {},
            }
            proof {
                let p = choose|p: int|
                    0 <= p < self.wavefunction.cells@.len() && (
                    #[trigger] self.wavefunction.cells@[p])@.len() != 1;
                self.wavefunction.lemma_flat_to_coord(p);
                let jj = p / (self.wavefunction.w as int);
                let ii = p % (self.wavefunction.w as int);
                assert(self.wavefunction.cell(jj, ii).len() != 0);
                assert(self.wavefunction.cell(jj, ii).len() >= 2);
                if forall|j: int, i: int|
                    old(self).wavefunction.in_bounds(j, i) ==> #[trigger] old(self).wavefunction.cell(j, i).len() == 1 {
                    assert(old(self).wavefunction.cell(jj, ii).len() == 1);
                    assert(false);
                }
            }
            self.iterate();
            proof {
                crate::wavefunction::lemma_seq_total_nonneg(self.wavefunction.cells@);
            }
        }
        let res = self.wavefunction.get_all_collapsed();
        proof {
            assert forall|j: int, i: int|
                self.wavefunction.in_bounds(j, i) implies #[trigger] self.wavefunction.cell(
                j,
                i,
            ).len() == 1 by {
                crate::wavefunction::lemma_rm_bound(
                    j,
                    i,
                    self.wavefunction.w as int,
                    self.wavefunction.h as int,
                );
            }
            if res is Some {
                let layer = res->Some_0;
                assert forall|j: int, i: int, d: Dir|
                    self.wavefunction.in_bounds(j, i) && dir_valid(
                        d,
                        i,
                        j,
                        self.wavefunction.w as int,
                        self.wavefunction.h as int,
                    ) implies (#[trigger] self.compat(
                    layer.tile(j, i),
                    layer.tile(j + d.1, i + d.0),
                    d,
                ) || self.wavefunction.weights.entries@.len() == 1) by {
                    assert(self.arc_ok(j, i, d));
                    assert(self.wavefunction.cell(j, i).len() == 1);
                    let jn = j + d.1;
                    let im = i + d.0;
                    assert(self.wavefunction.in_bounds(jn, im));
                    assert(self.wavefunction.cell(jn, im).len() == 1);
                    if self.full_cell(j, i) {
                        assert(self.wavefunction.weights.entries@.len() == 1);
                    } else {
                        let tn = layer.tile(jn, im);
                        assert(self.wavefunction.cell(jn, im) =~= seq![tn]) by {
                            assert(tn == self.wavefunction.cell(jn, im)[0]);
                        }
                        assert(self.wavefunction.cell(jn, im).contains(tn));
                        assert(self.tile_supported(j, i, tn, d));
                        let s = choose|s: i16|
                            #[trigger] self.wavefunction.cell(j, i).contains(s) && self.compat(
                                s,
                                tn,
                                d,
                            );
                        let m = choose|m: int|
                            0 <= m < self.wavefunction.cell(j, i).len()
                                && self.wavefunction.cell(j, i)[m] == s;
                        assert(m == 0);
                        assert(s == layer.tile(j, i));
                    }
                }
                assert forall|j: int, i: int|
                    self.wavefunction.in_bounds(j, i)
                        implies self.wavefunction.weights.contains_key(
                    #[trigger] layer.tile(j, i),
                ) by {
                    crate::wavefunction::lemma_rm_bound(
                        j,
                        i,
                        self.wavefunction.w as int,
                        self.wavefunction.h as int,
                    );
                    assert(self.wavefunction.cell(j, i).contains(layer.tile(j, i)));
                }
            }
        }
        res
    }
}

} // verus!
