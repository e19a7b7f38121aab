use vstd::prelude::*;

use crate::level::Layer;
use crate::rng::rng_below;
use crate::weights::WeightTable;

verus! {

use vstd::arithmetic::div_mod::lemma_fundamental_div_mod;
use vstd::arithmetic::div_mod::lemma_mod_bound;

/// The candidate sequence `s` with every occurrence of `t` removed, keeping
/// the order of the rest.
pub open spec fn remove_tile(s: Seq<i16>, t: i16) -> Seq<i16>
    decreases s.len(),
{
    if s.len() == 0 {
        Seq::empty()
    } else if s.last() == t {
        remove_tile(s.drop_last(), t)
    } else {
        remove_tile(s.drop_last(), t).push(s.last())
    }
}

/// What removing a tile does: it keeps exactly the other tiles, never grows
/// the sequence, is the identity when the tile is absent, keeps
/// duplicate-freedom, and shortens a duplicate-free sequence by exactly one
/// when the tile is present.
pub proof fn lemma_remove_tile(s: Seq<i16>, t: i16)
    ensures
        forall|x: i16| #[trigger] remove_tile(s, t).contains(x) <==> (s.contains(x) && x != t),
        remove_tile(s, t).len() <= s.len(),
        !s.contains(t) ==> remove_tile(s, t) == s,
        s.no_duplicates() ==> remove_tile(s, t).no_duplicates(),
        s.no_duplicates() && s.contains(t) ==> remove_tile(s, t).len() == s.len() - 1,
    decreases s.len(),
{
    broadcast use vstd::seq_lib::lemma_seq_contains_after_push;

    if s.len() == 0 {
        assert(remove_tile(s, t) =~= s);
    } else {
        let s0 = s.drop_last();
        let l = s.last();
        lemma_remove_tile(s0, t);
        assert(s =~= s0.push(l));
        let r = remove_tile(s, t);
        if l == t {
            assert(r == remove_tile(s0, t));
            assert forall|x: i16| #[trigger] r.contains(x) <==> (s.contains(x) && x != t) by {}
        } else {
            assert(r == remove_tile(s0, t).push(l));
            assert forall|x: i16| #[trigger] r.contains(x) <==> (s.contains(x) && x != t) by {}
            if s.no_duplicates() {
                assert(s0.no_duplicates());
                assert(!s0.contains(l)) by {
                    if s0.contains(l) {
                        let m = choose|m: int| 0 <= m < s0.len() && s0[m] == l;
                        assert(s[m] == s[s.len() - 1]);
                        assert(false);
                    }
                }
                let r0 = remove_tile(s0, t);
                assert(!r0.contains(l));
                assert forall|m1: int, m2: int|
                    0 <= m1 < m2 < r.len() implies r[m1] != r[m2] by {
                    if m2 < r.len() - 1 {
                    } else {
                        assert(r[m2] == l);
                        assert(r0.contains(r0[m1]));
                    }
                }
            }
        }
        if !s.contains(t) {
            assert(!s0.contains(t)) by {
                if s0.contains(t) {
                    let m = choose|m: int| 0 <= m < s0.len() && s0[m] == t;
                    assert(s[m] == t);
                }
            }
            assert(l != t) by {
                assert(s.contains(l));
            }
            assert(remove_tile(s, t) == remove_tile(s0, t).push(l));
            assert(remove_tile(s0, t) == s0);
            assert(remove_tile(s, t) =~= s);
        }
        if s.no_duplicates() && s.contains(t) {
            if l == t {
                assert(!s0.contains(t)) by {
                    if s0.contains(t) {
                        let m = choose|m: int| 0 <= m < s0.len() && s0[m] == t;
                        assert(s[m] == s[s.len() - 1]);
                        assert(false);
                    }
                }
                assert(remove_tile(s0, t) == s0);
            } else {
                assert(s0.contains(t)) by {
                    let m = choose|m: int| 0 <= m < s.len() && s[m] == t;
                    assert(m < s.len() - 1);
                    assert(s0[m] == t);
                }
            }
        }
    }
}

/// The sum of the table's weights of the tiles of `s`.
pub open spec fn cand_sum(tbl: WeightTable, s: Seq<i16>) -> int
    decreases s.len(),
{
    if s.len() == 0 {
        0
    } else {
        cand_sum(tbl, s.drop_last()) + tbl.lookup(s.last())
    }
}

proof fn lemma_cand_sum_prefix_step(tbl: WeightTable, s: Seq<i16>, k: int)
    requires
        0 <= k < s.len(),
    ensures
        cand_sum(tbl, s.take(k + 1)) == cand_sum(tbl, s.take(k)) + tbl.lookup(s[k]),
{
    assert(s.take(k + 1).drop_last() =~= s.take(k));
    assert(s.take(k + 1).last() == s[k]);
}

/// Every tile of `s` having an entry makes the candidate sum at least the
/// number of candidates.
proof fn lemma_cand_sum_lower(tbl: WeightTable, s: Seq<i16>)
    requires
        tbl.wf(),
        forall|x: i16| s.contains(x) ==> tbl.contains_key(x),
    ensures
        cand_sum(tbl, s) >= s.len(),
    decreases s.len(),
{
    if s.len() > 0 {
        let s0 = s.drop_last();
        let l = s.last();
        assert forall|x: i16| s0.contains(x) implies tbl.contains_key(x) by {
            let m = choose|m: int| 0 <= m < s0.len() && s0[m] == x;
            assert(s[m] == x);
            assert(s.contains(x));
        }
        lemma_cand_sum_lower(tbl, s0);
        assert(s.contains(l));
        assert(tbl.contains_key(l));
        let k = choose|k: int| 0 <= k < tbl.entries@.len() && (#[trigger] tbl.entries@[k]).0 == l;
        crate::weights::lemma_wt_lookup_at(tbl.entries@, l, k);
    }
}

/// Row-major flat position of the cell in row `j`, column `i`.
pub proof fn lemma_rm_bound(j: int, i: int, w: int, h: int)
    requires
        0 <= j < h,
        0 <= i < w,
    ensures
        0 <= j * w + i < h * w,
{
    assert(j * w + i < h * w) by (nonlinear_arith)
        requires
            0 <= j,
            0 <= i,
            j < h,
            i < w,
    ;
    assert(j * w + i >= 0) by (nonlinear_arith)
        requires
            0 <= j,
            0 <= i,
            0 < w,
    ;
}

/// Distinct in-bounds coordinates have distinct row-major positions.
pub proof fn lemma_rm_inj(j1: int, i1: int, j2: int, i2: int, w: int)
    requires
        0 <= j1,
        0 <= j2,
        0 <= i1 < w,
        0 <= i2 < w,
        j1 * w + i1 == j2 * w + i2,
    ensures
        j1 == j2 && i1 == i2,
{
    vstd::arithmetic::div_mod::lemma_fundamental_div_mod_converse_div(j1 * w + i1, w, j1, i1);
    vstd::arithmetic::div_mod::lemma_fundamental_div_mod_converse_div(j2 * w + i2, w, j2, i2);
    vstd::arithmetic::div_mod::lemma_fundamental_div_mod_converse_mod(j1 * w + i1, w, j1, i1);
    vstd::arithmetic::div_mod::lemma_fundamental_div_mod_converse_mod(j2 * w + i2, w, j2, i2);
}

/// The total number of candidates over all cells of `s`.
pub open spec fn seq_total(s: Seq<Vec<i16>>) -> int
    decreases s.len(),
{
    if s.len() == 0 {
        0
    } else {
        seq_total(s.drop_last()) + s.last()@.len()
    }
}

/// A total of candidate counts is never negative.
pub proof fn lemma_seq_total_nonneg(s: Seq<Vec<i16>>)
    ensures
        seq_total(s) >= 0,
    decreases s.len(),
{
    if s.len() > 0 {
        lemma_seq_total_nonneg(s.drop_last());
    }
}

proof fn lemma_seq_total_update(s: Seq<Vec<i16>>, p: int, v: Vec<i16>)
    requires
        0 <= p < s.len(),
    ensures
        seq_total(s.update(p, v)) == seq_total(s) - s[p]@.len() + v@.len(),
    decreases s.len(),
{
    let s2 = s.update(p, v);
    if p == s.len() - 1 {
        assert(s2.drop_last() =~= s.drop_last());
        assert(s2.last() == v);
    } else {
        assert(s2.drop_last() =~= s.drop_last().update(p, v));
        assert(s2.last() == s.last());
        assert(s.drop_last()[p] == s[p]);
        lemma_seq_total_update(s.drop_last(), p, v);
    }
}

/// The grid of superpositions: one candidate list per cell, row-major, with
/// the weight table the candidates were drawn from.
pub struct WaveFunction {
    pub w: usize,
    pub h: usize,
    pub cells: Vec<Vec<i16>>,
    pub weights: WeightTable,
}

impl WaveFunction {
    /// The candidates at row `j`, column `i`.
    pub open spec fn cell(self, j: int, i: int) -> Seq<i16> {
        self.cells@[j * self.w + i]@
    }

    pub open spec fn in_bounds(self, j: int, i: int) -> bool {
        0 <= j < self.h && 0 <= i < self.w
    }

    /// The field is a non-empty `h` by `w` grid; every cell lists each
    /// candidate once, and only tiles the weight table knows.
    pub open spec fn grid_wf(self) -> bool {
        &&& self.w >= 1
        &&& self.h >= 1
        &&& self.cells@.len() == self.h * self.w
        &&& self.weights.wf()
        &&& forall|p: int|
            0 <= p < self.cells@.len() ==> (#[trigger] self.cells@[p])@.no_duplicates()
        &&& forall|p: int, x: i16|
            0 <= p < self.cells@.len() && #[trigger] self.cells@[p]@.contains(x)
                ==> self.weights.contains_key(x)
    }

    /// Every cell is resolved to exactly one candidate. A cell with none is a
    /// contradiction, not a resolved cell.
    pub open spec fn fully_collapsed_spec(self) -> bool {
        forall|p: int| 0 <= p < self.cells@.len() ==> (#[trigger] self.cells@[p])@.len() == 1
    }

    /// No cell holds more than one candidate: every cell is either resolved
    /// or contradicted.
    pub open spec fn decided_spec(self) -> bool {
        forall|p: int| 0 <= p < self.cells@.len() ==> (#[trigger] self.cells@[p])@.len() <= 1
    }

    /// The total number of candidates left in the grid.
    pub open spec fn total_cands(self) -> int {
        seq_total(self.cells@)
    }

    /// In-bounds coordinates address a real cell, at flat position
    /// `j * w + i`.
    pub proof fn lemma_cell_index(self, j: int, i: int)
        requires
            self.grid_wf(),
            self.in_bounds(j, i),
        ensures
            0 <= j * self.w + i < self.cells@.len(),
            self.cell(j, i) == self.cells@[j * self.w + i]@,
    {
        lemma_rm_bound(j, i, self.w as int, self.h as int);
    }

    /// A flat cell position, read as coordinates.
    pub proof fn lemma_flat_to_coord(self, p: int)
        requires
            self.grid_wf(),
            0 <= p < self.cells@.len(),
        ensures
            self.in_bounds(p / (self.w as int), p % (self.w as int)),
            self.cell(p / (self.w as int), p % (self.w as int)) == self.cells@[p]@,
    {
        let w = self.w as int;
        let h = self.h as int;
        lemma_fundamental_div_mod(p, w);
        lemma_mod_bound(p, w);
        let j = p / w;
        let i = p % w;
        assert(j * w + i == p);
        assert(j >= 0) by (nonlinear_arith)
            requires
                j * w + i == p,
                0 <= p,
                0 <= i < w,
        ;
        assert(j < h) by (nonlinear_arith)
            requires
                j * w + i == p,
                p < h * w,
                0 <= i < w,
                0 <= j,
        ;
    }

    /// The flat position of `pos` in the cell vector.
    fn flat_index(&self, pos: (usize, usize)) -> (p: usize)
        requires
            self.grid_wf(),
            self.in_bounds(pos.0 as int, pos.1 as int),
        ensures
            p == pos.0 * self.w + pos.1,
            p < self.cells@.len(),
    {
        let len = self.cells.len();
        proof {
            lemma_rm_bound(pos.0 as int, pos.1 as int, self.w as int, self.h as int);
            assert((pos.0 as int * self.w as int + pos.1 as int) < (len as int));
        }
        pos.0 * self.w + pos.1
    }

    /// A field of `size.0` columns by `size.1` rows, every cell starting with
    /// the full key set of the weight table.
    pub fn new(size: (usize, usize), weights: WeightTable) -> (r: WaveFunction)
        requires
            size.0 >= 1,
            size.1 >= 1,
            size.0 as int * size.1 as int <= usize::MAX,
            weights.wf(),
        ensures
            r.grid_wf(),
            r.w == size.0,
            r.h == size.1,
            r.weights == weights,
            forall|j: int, i: int| r.in_bounds(j, i) ==> r.cell(j, i) == weights.key_seq(),
    {
        let cells = WaveFunction::init_coefficients(size, &weights);
        let r = WaveFunction { w: size.0, h: size.1, cells, weights };
        proof {
            assert(r.weights.key_seq().no_duplicates()) by {
                assert forall|m1: int, m2: int|
                    0 <= m1 < m2 < r.weights.key_seq().len() implies r.weights.key_seq()[m1]
                    != r.weights.key_seq()[m2] by {
                    assert(r.weights.key_seq()[m1] == (r.weights.entries@[m1]).0);
                    assert(r.weights.key_seq()[m2] == (r.weights.entries@[m2]).0);
                }
            }
            assert forall|x: i16| r.weights.key_seq().contains(x) implies r.weights.contains_key(
                x,
            ) by {
                let m = choose|m: int|
                    0 <= m < r.weights.key_seq().len() && r.weights.key_seq()[m] == x;
                assert((r.weights.entries@[m]).0 == x);
            }
            assert forall|j: int, i: int| r.in_bounds(j, i) implies r.cell(j, i)
                == weights.key_seq() by {
                r.lemma_cell_index(j, i);
            }
        }
        r
    }

    /// One candidate list per cell of a `size.0` by `size.1` grid, each the
    /// full key list of `weights`.
    pub fn init_coefficients(size: (usize, usize), weights: &WeightTable) -> (cells: Vec<Vec<i16>>)
        requires
            size.0 as int * size.1 as int <= usize::MAX,
        ensures
            cells@.len() == size.1 as int * size.0 as int,
            forall|p: int| 0 <= p < cells@.len() ==> (#[trigger] cells@[p])@ == weights.key_seq(),
    {
        proof {
            assert(size.0 as int * size.1 as int == size.1 as int * size.0 as int)
                by (nonlinear_arith);
        }
        let n = size.0 * size.1;
        let mut cells: Vec<Vec<i16>> = Vec::new();
        let mut p: usize = 0;
        while p < n
            invariant
                p <= n,
                cells@.len() == p,
                forall|m: int| 0 <= m < p ==> (#[trigger] cells@[m])@ == weights.key_seq(),
            decreases n - p,
        {
            cells.push(weights.keys_vec());
            p = p + 1;
        }
        cells
    }

    /// A copy of the current candidates at `pos` (row, column). Changing the
    /// returned vector does not change the field.
    pub fn get(&self, pos: (usize, usize)) -> (r: Vec<i16>)
        requires
            self.grid_wf(),
            self.in_bounds(pos.0 as int, pos.1 as int),
        ensures
            r@ == self.cell(pos.0 as int, pos.1 as int),
    {
        let p = self.flat_index(pos);
        let mut r: Vec<i16> = Vec::new();
        let n = self.cells[p].len();
        let mut k: usize = 0;
        while k < n
            invariant
                self.grid_wf(),
                p < self.cells@.len(),
                n == self.cells@[p as int]@.len(),
                k <= n,
                r@ == self.cells@[p as int]@.take(k as int),
            decreases n - k,
        {
            let x = self.cells[p][k];
            r.push(x);
            proof {
                assert(r@ =~= self.cells@[p as int]@.take(k as int + 1));
            }
            k = k + 1;
        }
        proof {
            assert(self.cells@[p as int]@.take(n as int) =~= self.cells@[p as int]@);
        }
        r
    }

    /// Remove `forbidden_tile` from the candidates at `pos`; a tile that is
    /// already absent leaves the cell unchanged.
    pub fn constrain(&mut self, pos: (usize, usize), forbidden_tile: &i16)
        requires
            old(self).grid_wf(),
            old(self).in_bounds(pos.0 as int, pos.1 as int),
        ensures
            final(self).grid_wf(),
            final(self).w == old(self).w,
            final(self).h == old(self).h,
            final(self).weights == old(self).weights,
            final(self).cell(pos.0 as int, pos.1 as int) == remove_tile(
                old(self).cell(pos.0 as int, pos.1 as int),
                *forbidden_tile,
            ),
            forall|x: i16|
                #[trigger] final(self).cell(pos.0 as int, pos.1 as int).contains(x) <==> (old(self).cell(pos.0 as int, pos.1 as int).contains(x) && x != *forbidden_tile),
            forall|j: int, i: int|
                final(self).in_bounds(j, i) && !(j == pos.0 as int && i == pos.1 as int)
                    ==> final(self).cell(j, i) == old(self).cell(j, i),
            !old(self).cell(pos.0 as int, pos.1 as int).contains(*forbidden_tile) ==> final(self).cell(pos.0 as int, pos.1 as int) == old(self).cell(pos.0 as int, pos.1 as int),
            old(self).cell(pos.0 as int, pos.1 as int).contains(*forbidden_tile) ==> final(self).total_cands() == old(self).total_cands() - 1,
            !old(self).cell(pos.0 as int, pos.1 as int).contains(*forbidden_tile) ==> final(self).total_cands() == old(self).total_cands(),
            final(self).cell(pos.0 as int, pos.1 as int).len() <= old(self).cell(
                pos.0 as int,
                pos.1 as int,
            ).len(),
    {
        let p = self.flat_index(pos);
        let t = *forbidden_tile;
        let ghost oldcell = self.cells@[p as int]@;
        let mut newv: Vec<i16> = Vec::new();
        let n = self.cells[p].len();
        let mut k: usize = 0;
        while k < n
            invariant
                p < self.cells@.len(),
                n == self.cells@[p as int]@.len(),
                oldcell == self.cells@[p as int]@,
                k <= n,
                newv@ == remove_tile(oldcell.take(k as int), t),
            decreases n - k,
        {
            let x = self.cells[p][k];
            proof {
                assert(oldcell.take(k as int + 1).drop_last() =~= oldcell.take(k as int));
                assert(oldcell.take(k as int + 1).last() == oldcell[k as int]);
            }
            if x != t {
                newv.push(x);
            }
            k = k + 1;
        }
        proof {
            assert(oldcell.take(n as int) =~= oldcell);
        }
        let ghost precells = self.cells@;
        self.cells[p] = newv;
        proof {
            lemma_remove_tile(oldcell, t);
            lemma_seq_total_update(precells, p as int, newv);
            self.lemma_cell_index(pos.0 as int, pos.1 as int);
            assert forall|j: int, i: int|
                self.in_bounds(j, i) && !(j == pos.0 as int && i == pos.1 as int) implies self.cell(
                j,
                i,
            ) == old(self).cell(j, i) by {
                lemma_rm_bound(j, i, self.w as int, self.h as int);
                if j * self.w + i == p as int {
                    lemma_rm_inj(j, i, pos.0 as int, pos.1 as int, self.w as int);
                }
            }
            assert(self.grid_wf()) by {
                assert forall|q: int, x: i16|
                    0 <= q < self.cells@.len() && #[trigger] self.cells@[q]@.contains(x)
                        implies self.weights.contains_key(x) by {
                    if q == p as int {
                        assert(oldcell.contains(x));
                        assert(precells[q]@.contains(x));
                    } else {
                        assert(precells[q]@.contains(x));
                    }
                }
            }
        }
    }

    /// Pick the index of one candidate of `opts`, where the draw `r` falls
    /// when the weights of the candidates are laid end to end.
    fn pick_weighted(weights: &WeightTable, opts: &Vec<i16>, r: u128) -> (idx: usize)
        requires
            weights.wf(),
            (r as int) < cand_sum(*weights, opts@),
        ensures
            idx < opts@.len(),
            cand_sum(*weights, opts@.take(idx as int)) <= r as int,
            (r as int) < cand_sum(*weights, opts@.take(idx as int + 1)),
    {
        let mut cur = r;
        let mut k: usize = 0;
        while k < opts.len()
            invariant
                weights.wf(),
                k <= opts@.len(),
                cur as int == r - cand_sum(*weights, opts@.take(k as int)),
                cand_sum(*weights, opts@.take(k as int)) <= r as int,
                (r as int) < cand_sum(*weights, opts@),
            decreases opts@.len() - k,
        {
            let wt = weights.weight_of(opts[k]);
            proof {
                lemma_cand_sum_prefix_step(*weights, opts@, k as int);
            }
            if cur < wt as u128 {
                return k;
            }
            cur = cur - wt as u128;
            k = k + 1;
        }
        proof {
            assert(opts@.take(opts@.len() as int) =~= opts@);
            assert(false);
        }
        0
    }

    /// Collapse the cell at `pos` to exactly one of its current candidates,
    /// chosen by a weighted draw from `rng`: a candidate's chance is its
    /// weight's share of the candidates' summed weights.
    pub fn collapse(&mut self, pos: (usize, usize), rng: &mut fastrand::Rng)
        requires
            old(self).grid_wf(),
            old(self).in_bounds(pos.0 as int, pos.1 as int),
            old(self).cell(pos.0 as int, pos.1 as int).len() >= 1,
        ensures
            final(self).grid_wf(),
            final(self).w == old(self).w,
            final(self).h == old(self).h,
            final(self).weights == old(self).weights,
            final(self).cell(pos.0 as int, pos.1 as int).len() == 1,
            old(self).cell(pos.0 as int, pos.1 as int).contains(
                final(self).cell(pos.0 as int, pos.1 as int)[0],
            ),
            forall|j: int, i: int|
                final(self).in_bounds(j, i) && !(j == pos.0 as int && i == pos.1 as int)
                    ==> final(self).cell(j, i) == old(self).cell(j, i),
            final(self).total_cands() == old(self).total_cands() - old(self).cell(
                pos.0 as int,
                pos.1 as int,
            ).len() + 1,
    {
        let p = self.flat_index(pos);
        let ghost oldcell = self.cells@[p as int]@;

        // Sum the weights of the remaining candidates.
        let n = self.cells[p].len();
        let mut total: u128 = 0;
        let mut k: usize = 0;
        while k < n
            invariant
                self.grid_wf(),
                p < self.cells@.len(),
                oldcell == self.cells@[p as int]@,
                n == oldcell.len(),
                k <= n,
                total as int == cand_sum(self.weights, oldcell.take(k as int)),
                total as int <= k as int * u64::MAX as int,
            decreases n - k,
        {
            let x = self.cells[p][k];
            let wt = self.weights.weight_of(x);
            proof {
                lemma_cand_sum_prefix_step(self.weights, oldcell, k as int);
                assert(total as int + wt as int <= k as int * u64::MAX as int + u64::MAX as int);
                assert(k as int * u64::MAX as int + u64::MAX as int == (k as int + 1) * (
                u64::MAX as int)) by (nonlinear_arith);
                assert((k as int + 1) * (u64::MAX as int) <= u128::MAX) by (nonlinear_arith)
                    requires
                        k as int + 1 <= usize::MAX as int + 1,
                ;
            }
            total = total + wt as u128;
            k = k + 1;
        }
        proof {
            assert(oldcell.take(n as int) =~= oldcell);
            assert forall|x: i16| oldcell.contains(x) implies self.weights.contains_key(x) by {}
            lemma_cand_sum_lower(self.weights, oldcell);
        }

        // Weighted draw.
        let r = rng_below(rng, total);
        let idx = WaveFunction::pick_weighted(&self.weights, &self.cells[p], r);
        let t = self.cells[p][idx];

        let mut one: Vec<i16> = Vec::new();
        one.push(t);
        let ghost precells = self.cells@;
        self.cells[p] = one;
        proof {
            lemma_seq_total_update(precells, p as int, one);
            lemma_rm_bound(pos.0 as int, pos.1 as int, self.w as int, self.h as int);
            assert(oldcell.contains(oldcell[idx as int]));
            assert forall|j: int, i: int|
                self.in_bounds(j, i) && !(j == pos.0 as int && i == pos.1 as int) implies self.cell(
                j,
                i,
            ) == old(self).cell(j, i) by {
                lemma_rm_bound(j, i, self.w as int, self.h as int);
                if j * self.w + i == p as int {
                    lemma_rm_inj(j, i, pos.0 as int, pos.1 as int, self.w as int);
                }
            }
            assert(self.grid_wf()) by {
                assert forall|q: int, x: i16|
                    0 <= q < self.cells@.len() && #[trigger] self.cells@[q]@.contains(x)
                        implies self.weights.contains_key(x) by {
                    if q == p as int {
                        assert(self.cells@[q]@ =~= seq![t]);
                        assert(x == t);
                        assert(oldcell.contains(t));
                    } else {
                        assert(precells[q]@.contains(x));
                    }
                }
                assert forall|q: int|
                    0 <= q < self.cells@.len() implies (#[trigger] self.cells@[q])@.no_duplicates()
                    by {
                    if q != p as int {
                        assert(precells[q]@.no_duplicates());
                    }
                }
            }
        }
    }

    /// The resolved tile at `pos`: the single candidate left, or nothing for
    /// a contradicted (empty) cell.
    pub fn get_collapsed(&self, pos: (usize, usize)) -> (r: Option<i16>)
        requires
            self.grid_wf(),
            self.in_bounds(pos.0 as int, pos.1 as int),
            self.cell(pos.0 as int, pos.1 as int).len() <= 1,
        ensures
            r == if self.cell(pos.0 as int, pos.1 as int).len() == 1 {
                Some(self.cell(pos.0 as int, pos.1 as int)[0])
            } else {
                None::<i16>
            },
    {
        let p = self.flat_index(pos);
        if self.cells[p].len() == 1 {
            Some(self.cells[p][0])
        } else {
            None
        }
    }

    /// The whole resolved grid; nothing as soon as any cell is not resolved
    /// to exactly one tile.
    pub fn get_all_collapsed(&self) -> (r: Option<Layer>)
        requires
            self.grid_wf(),
            self.decided_spec(),
        ensures
            r is Some <==> forall|j: int, i: int|
                self.in_bounds(j, i) ==> #[trigger] self.cell(j, i).len() == 1,
            r is Some ==> {
                let layer = r->Some_0;
                &&& layer.wf()
                &&& layer.w == self.w
                &&& layer.h == self.h
                &&& layer.idx == 0
                &&& forall|j: int, i: int|
                    self.in_bounds(j, i) ==> #[trigger] layer.tile(j, i) == self.cell(j, i)[0]
            },
    {
        let w = self.w;
        let h = self.h;
        let mut data: Vec<Vec<i16>> = Vec::new();
        let mut j: usize = 0;
        while j < h
            invariant
                self.grid_wf(),
                self.decided_spec(),
                w == self.w,
                h == self.h,
                j <= h,
                data@.len() == j,
                forall|j2: int| 0 <= j2 < j ==> (#[trigger] data@[j2])@.len() == w,
                forall|j2: int, i2: int|
                    0 <= j2 < j && 0 <= i2 < w ==> #[trigger] self.cell(j2, i2).len() == 1
                        && data@[j2]@[i2] == self.cell(j2, i2)[0],
            decreases h - j,
        {
            let mut row: Vec<i16> = Vec::new();
            let mut i: usize = 0;
            while i < w
                invariant
                    self.grid_wf(),
                    self.decided_spec(),
                    w == self.w,
                    h == self.h,
                    j < h,
                    i <= w,
                    row@.len() == i,
                    forall|i2: int|
                        0 <= i2 < i ==> #[trigger] self.cell(j as int, i2).len() == 1 && row@[i2]
                            == self.cell(j as int, i2)[0],
                decreases w - i,
            {
                proof {
                    self.lemma_cell_index(j as int, i as int);
                }
                match self.get_collapsed((j, i)) {
                    Some(t) => {
                        proof {
                            assert(self.cell(j as int, i as int).len() == 1);
                            assert(t == self.cell(j as int, i as int)[0]);
                        }
                        row.push(t);
                        proof {
                            assert(row@[i as int] == t);
                        }
                    },
                    None => {
                        proof {
                            assert(self.cell(j as int, i as int).len() == 0);
                        }
                        return None;
                    },
                }
                i = i + 1;
            }
            data.push(row);
            proof {
                assert(data@[j as int]@.len() == w);
            }
            j = j + 1;
        }
        let layer = Layer { w, h, idx: 0, data };
        proof {
            assert forall|j2: int, i2: int| self.in_bounds(j2, i2) implies #[trigger] layer.tile(
                j2,
                i2,
            ) == self.cell(j2, i2)[0] by {
                assert(self.cell(j2, i2).len() == 1);
            }
        }
        Some(layer)
    }

    /// True iff every cell is resolved to exactly one candidate.
    pub fn is_fully_collapsed(&self) -> (r: bool)
        ensures
            r == self.fully_collapsed_spec(),
    {
        let mut p: usize = 0;
        while p < self.cells.len()
            invariant
                p <= self.cells@.len(),
                forall|m: int| 0 <= m < p ==> (#[trigger] self.cells@[m])@.len() == 1,
            decreases self.cells@.len() - p,
        {
            if self.cells[p].len() != 1 {
                return false;
            }
            p = p + 1;
        }
        true
    }

    /// A cell whose candidate set has emptied, if there is one: the witness
    /// that this attempt has contradicted.
    pub fn contradicted_cell(&self) -> (r: Option<(usize, usize)>)
        requires
            self.grid_wf(),
        ensures
            r is Some <==> exists|j: int, i: int|
                self.in_bounds(j, i) && #[trigger] self.cell(j, i).len() == 0,
            r is Some ==> self.in_bounds(r->Some_0.0 as int, r->Some_0.1 as int) && self.cell(
                r->Some_0.0 as int,
                r->Some_0.1 as int,
            ).len() == 0,
    {
        let mut p: usize = 0;
        while p < self.cells.len()
            invariant
                self.grid_wf(),
                p <= self.cells@.len(),
                forall|m: int| 0 <= m < p ==> (#[trigger] self.cells@[m])@.len() >= 1,
            decreases self.cells@.len() - p,
        {
            if self.cells[p].len() == 0 {
                let j = p / self.w;
                let i = p % self.w;
                proof {
                    self.lemma_flat_to_coord(p as int);
                }
                return Some((j, i));
            }
            p = p + 1;
        }
        proof {
            assert forall|j: int, i: int|
                self.in_bounds(j, i) implies #[trigger] self.cell(j, i).len() != 0 by {
                lemma_rm_bound(j, i, self.w as int, self.h as int);
            }
        }
        None
    }
}

/// Once a field is fully collapsed it stays so: any later state of the same
/// shape whose cells have neither grown nor emptied is still fully collapsed.
/// The non-emptiness premise is needed: removing a resolved cell's own tile
/// empties it, and an emptied cell is a contradiction, not a resolved cell.
pub proof fn lemma_fully_collapsed_permanent(w1: WaveFunction, w2: WaveFunction)
    requires
        w1.fully_collapsed_spec(),
        w2.cells@.len() == w1.cells@.len(),
        forall|p: int|
            0 <= p < w2.cells@.len() ==> (#[trigger] w2.cells@[p])@.len() <= w1.cells@[p]@.len(),
        forall|p: int| 0 <= p < w2.cells@.len() ==> (#[trigger] w2.cells@[p])@.len() >= 1,
    ensures
        w2.fully_collapsed_spec(),
{
}

} // verus!
