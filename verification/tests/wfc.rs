use le_mutate::Dir;
use le_mutate::Layer;
use le_mutate::LevelDetail;
use le_mutate::Model;
use le_mutate::WaveFunction;

fn layer_from(rows: Vec<Vec<i16>>) -> Layer {
    let h = rows.len();
    let w = rows[0].len();
    Layer { w, h, idx: 0, data: rows }
}

fn sorted(mut v: Vec<i16>) -> Vec<i16> {
    v.sort();
    v
}

#[test]
fn valid_dirs_counts_by_position() {
    // corner, edge and interior cells of a 3x3 grid
    assert_eq!(LevelDetail::valid_dirs(0, 0, 3, 3).len(), 3);
    assert_eq!(LevelDetail::valid_dirs(1, 0, 3, 3).len(), 5);
    assert_eq!(LevelDetail::valid_dirs(0, 1, 3, 3).len(), 5);
    assert_eq!(LevelDetail::valid_dirs(1, 1, 3, 3).len(), 8);
    assert_eq!(LevelDetail::valid_dirs(2, 2, 3, 3).len(), 3);
    // a 1x1 grid has no valid directions at all
    assert_eq!(LevelDetail::valid_dirs(0, 0, 1, 1).len(), 0);
}

#[test]
fn valid_dirs_symmetric_on_ragged_shapes() {
    for &(w, h) in &[(1usize, 4usize), (4, 1), (2, 3), (5, 2), (3, 3)] {
        for j in 0..h {
            for i in 0..w {
                for d in LevelDetail::valid_dirs(i, j, w, h) {
                    let ni = (i as i64 + d.0 as i64) as usize;
                    let nj = (j as i64 + d.1 as i64) as usize;
                    let back = Dir(-d.0, -d.1);
                    let rev = LevelDetail::valid_dirs(ni, nj, w, h);
                    assert!(
                        rev.contains(&back),
                        "no way back from ({ni},{nj}) to ({i},{j})"
                    );
                }
            }
        }
    }
}

#[test]
fn weight_table_counts_every_cell_once() {
    let layer = layer_from(vec![vec![1, 2], vec![2, 1]]);
    let (_, weights) = LevelDetail::new_with_weights(&layer);
    assert_eq!(weights.weight_of(1), 2);
    assert_eq!(weights.weight_of(2), 2);
    assert_eq!(weights.weight_of(3), 0);
    let sum: u64 = weights.entries.iter().map(|e| e.1).sum();
    assert_eq!(sum, 4, "weights must sum to width * height of the source");

    let wide = layer_from(vec![vec![5, 5, 5, 9]]);
    let (_, weights) = LevelDetail::new_with_weights(&wide);
    assert_eq!(weights.weight_of(5), 3);
    assert_eq!(weights.weight_of(9), 1);
    let sum: u64 = weights.entries.iter().map(|e| e.1).sum();
    assert_eq!(sum, 4);
}

#[test]
fn compatibilities_of_checkerboard_source() {
    let layer = layer_from(vec![vec![1, 2], vec![2, 1]]);
    let (detail, _) = LevelDetail::new_with_weights(&layer);
    // orthogonal neighbors differ
    assert!(detail.check(1, 2, Dir(1, 0)));
    assert!(detail.check(2, 1, Dir(1, 0)));
    assert!(detail.check(1, 2, Dir(0, 1)));
    assert!(detail.check(2, 1, Dir(0, 1)));
    assert!(detail.check(1, 2, Dir(-1, 0)));
    assert!(detail.check(2, 1, Dir(-1, 0)));
    assert!(detail.check(1, 2, Dir(0, -1)));
    assert!(detail.check(2, 1, Dir(0, -1)));
    // diagonal neighbors agree: tile 1 sits on the main diagonal of the
    // source, tile 2 on the anti-diagonal
    assert!(detail.check(1, 1, Dir(1, 1)));
    assert!(detail.check(1, 1, Dir(-1, -1)));
    assert!(detail.check(2, 2, Dir(-1, 1)));
    assert!(detail.check(2, 2, Dir(1, -1)));
    // never observed
    assert!(!detail.check(1, 1, Dir(1, 0)));
    assert!(!detail.check(2, 2, Dir(0, 1)));
    assert!(!detail.check(1, 2, Dir(1, 1)));
    assert!(!detail.check(2, 2, Dir(1, 1)));
    assert!(!detail.check(1, 1, Dir(1, -1)));
}

#[test]
fn constrain_removes_and_is_idempotent() {
    let layer = layer_from(vec![vec![1, 2]]);
    let (_, weights) = LevelDetail::new_with_weights(&layer);
    let mut field = WaveFunction::new((2, 2), weights);

    let before = sorted(field.get((0, 0)));
    assert_eq!(before, vec![1, 2]);

    // removing an absent tile changes nothing
    field.constrain((0, 0), &9);
    assert_eq!(sorted(field.get((0, 0))), before);

    // removing a present tile removes exactly it
    field.constrain((0, 0), &1);
    assert_eq!(field.get((0, 0)), vec![2]);
    // and removing it again changes nothing
    field.constrain((0, 0), &1);
    assert_eq!(field.get((0, 0)), vec![2]);
    // other cells are untouched
    assert_eq!(sorted(field.get((0, 1))), before);
    assert_eq!(sorted(field.get((1, 0))), before);
}

#[test]
fn candidate_sets_never_grow() {
    let layer = layer_from(vec![vec![1, 2], vec![2, 1]]);
    let (_, weights) = LevelDetail::new_with_weights(&layer);
    let mut field = WaveFunction::new((2, 2), weights);
    let mut rng = fastrand::Rng::with_seed(42);

    let before = sorted(field.get((1, 1)));
    field.collapse((1, 1), &mut rng);
    let after = field.get((1, 1));
    assert_eq!(after.len(), 1);
    assert!(before.contains(&after[0]));

    // once fully collapsed, it stays fully collapsed as long as no cell is
    // emptied: removing absent tiles changes nothing
    let mut small = WaveFunction::new((1, 1), {
        let (_, w) = LevelDetail::new_with_weights(&layer);
        w
    });
    small.collapse((0, 0), &mut rng);
    assert!(small.is_fully_collapsed());
    let left = small.get((0, 0))[0];
    let absent = if left == 1 { 2 } else { 1 };
    small.constrain((0, 0), &absent);
    assert!(small.is_fully_collapsed());
    // emptying the resolved cell is a contradiction, no longer a collapse
    small.constrain((0, 0), &left);
    assert!(!small.is_fully_collapsed());
}

#[test]
fn single_tile_source_always_succeeds() {
    let layer = layer_from(vec![vec![7]]);
    for seed in 0..8 {
        let mut model = Model::new((4, 4), &layer, seed);
        let out = model.run().expect("a single-tile source cannot contradict");
        assert_eq!(out.w, 4);
        assert_eq!(out.h, 4);
        for row in &out.data {
            for &t in row {
                assert_eq!(t, 7);
            }
        }
    }
}

#[test]
fn checkerboard_source_gives_checkerboard() {
    let layer = layer_from(vec![vec![1, 2], vec![2, 1]]);
    let (detail, _) = LevelDetail::new_with_weights(&layer);
    // a contradiction is a normal outcome; retry with fresh seeds as an
    // orchestrator would
    let out = (0..100)
        .find_map(|seed| Model::new((2, 2), &layer, seed).run())
        .expect("some seed must satisfy a 2x2 checkerboard target");
    assert!(
        out.data == vec![vec![1, 2], vec![2, 1]] || out.data == vec![vec![2, 1], vec![1, 2]],
        "unexpected output {:?}",
        out.data
    );
    // every neighboring pair of the output was observed in the source
    for j in 0..out.h {
        for i in 0..out.w {
            for d in LevelDetail::valid_dirs(i, j, out.w, out.h) {
                let ni = (i as i64 + d.0 as i64) as usize;
                let nj = (j as i64 + d.1 as i64) as usize;
                assert!(detail.check(out.data[j][i], out.data[nj][ni], d));
            }
        }
    }
}

#[test]
fn same_seed_same_output() {
    let layer = layer_from(vec![vec![1, 2], vec![2, 1]]);
    let mut a = Model::new((3, 3), &layer, 1234);
    let mut b = Model::new((3, 3), &layer, 1234);
    let ra = a.run().map(|l| l.data);
    let rb = b.run().map(|l| l.data);
    assert_eq!(ra, rb);
}

#[test]
fn collapse_uses_the_random_draw() {
    // a 1x1 target is a single weighted draw between the two tiles: with a
    // working draw, different seeds must reach both
    let layer = layer_from(vec![vec![1, 2], vec![2, 1]]);
    let mut seen = std::collections::BTreeSet::new();
    for seed in 0..64 {
        let mut model = Model::new((1, 1), &layer, seed);
        let out = model.run().expect("a 1x1 target cannot contradict");
        seen.insert(out.data[0][0]);
    }
    assert!(seen.len() == 2, "every seed collapsed to the same tile");
}

#[test]
fn incompatible_tiles_contradict() {
    // two tiles, compatible with nothing at all, on a 2x2 target
    let layer = layer_from(vec![vec![1, 2]]);
    let (_, weights) = LevelDetail::new_with_weights(&layer);
    for seed in 0..8 {
        let mut model = Model {
            size: (2, 2),
            level_detail: LevelDetail { compatibilities: Vec::new() },
            wavefunction: WaveFunction::new((2, 2), weights.clone()),
            rng: fastrand::Rng::with_seed(seed),
        };
        assert_eq!(model.run().map(|l| l.data), None);
    }
}

#[test]
fn min_entropy_prefers_constrained_cells() {
    let layer = layer_from(vec![vec![1, 2, 3]]);
    let (detail, weights) = LevelDetail::new_with_weights(&layer);
    let mut model = Model {
        size: (2, 2),
        level_detail: detail,
        wavefunction: WaveFunction::new((2, 2), weights),
        rng: fastrand::Rng::with_seed(3),
    };
    // narrow one cell to two candidates; all others still have three
    model.wavefunction.constrain((1, 0), &3);
    for _ in 0..16 {
        let pos = model.min_entropy_pos();
        assert_eq!(pos, (1, 0));
    }
}

#[test]
fn extraction_needs_full_collapse() {
    let layer = layer_from(vec![vec![1, 2]]);
    let (_, weights) = LevelDetail::new_with_weights(&layer);
    let mut field = WaveFunction::new((2, 1), weights);
    assert!(!field.is_fully_collapsed());

    field.constrain((0, 0), &1);
    field.constrain((0, 1), &2);
    assert!(field.is_fully_collapsed());
    assert_eq!(field.get_collapsed((0, 0)), Some(2));
    assert_eq!(field.get_collapsed((0, 1)), Some(1));
    let out = field.get_all_collapsed().expect("both cells are resolved");
    assert_eq!(out.data, vec![vec![2, 1]]);
    assert_eq!((out.w, out.h, out.idx), (2, 1, 0));

    // an emptied cell is a contradiction: not collapsed, and extraction fails
    field.constrain((0, 0), &2);
    assert!(!field.is_fully_collapsed());
    assert_eq!(field.get_collapsed((0, 0)), None);
    assert!(field.get_all_collapsed().is_none());
}

#[test]
fn layer_new_is_zero_filled() {
    let layer = Layer::new(3, 2, 5);
    assert_eq!((layer.w, layer.h, layer.idx), (3, 2, 5));
    assert_eq!(layer.data, vec![vec![0, 0, 0], vec![0, 0, 0]]);
}

#[test]
fn propagate_prunes_unsupported_neighbors() {
    let layer = layer_from(vec![vec![1, 2], vec![2, 1]]);
    let (detail, weights) = LevelDetail::new_with_weights(&layer);
    let mut model = Model {
        size: (2, 2),
        level_detail: detail,
        wavefunction: WaveFunction::new((2, 2), weights),
        rng: fastrand::Rng::with_seed(0),
    };
    // force the top-left cell to tile 1 and ripple the consequences
    model.wavefunction.constrain((0, 0), &2);
    model.propagate((0, 0));
    assert_eq!(model.wavefunction.get((0, 0)), vec![1]);
    assert_eq!(model.wavefunction.get((0, 1)), vec![2]);
    assert_eq!(model.wavefunction.get((1, 0)), vec![2]);
    assert_eq!(model.wavefunction.get((1, 1)), vec![1]);
}

#[test]
fn iterate_collapses_and_propagates() {
    let layer = layer_from(vec![vec![1, 2], vec![2, 1]]);
    let mut model = Model::new((2, 2), &layer, 11);
    assert!(!model.wavefunction.is_fully_collapsed());
    model.iterate();
    // one collapse plus propagation settles (or contradicts) the whole 2x2 grid
    assert!(model.wavefunction.is_fully_collapsed());
}
