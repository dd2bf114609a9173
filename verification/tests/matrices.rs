use matrices::CorrelationMatrix;
use matrices::DistanceMatrix;
use matrices::DistanceMatrixBuilder;
use matrices::Matrix;
use matrices::MatrixProvider;

fn euclid(a: (f64, f64), b: (f64, f64)) -> f64 {
    ((b.1 - a.1).powi(2) + (b.0 - a.0).powi(2)).sqrt()
}

/// The upper-triangle table of pairwise distance keys for the given points;
/// the key of a distance is its IEEE bit pattern, which orders non-negative
/// doubles the same way the doubles order themselves.
fn upper_rows(pts: &[(f64, f64)], rounded: bool) -> Vec<Vec<u64>> {
    let n = pts.len();
    let mut rows: Vec<Vec<u64>> = Vec::new();
    for i in 0..n {
        let mut row: Vec<u64> = Vec::new();
        for j in (i + 1)..n {
            let mut d = euclid(pts[i], pts[j]);
            if rounded {
                d = d.round();
            }
            row.push(d.to_bits());
        }
        rows.push(row);
    }
    rows
}

fn build(pts: &[(f64, f64)], precompute: bool, rounded: bool) -> DistanceMatrix {
    DistanceMatrixBuilder::new()
        .distances(upper_rows(pts, rounded))
        .precompute(precompute)
        .rounded(rounded)
        .build()
}

fn dist_at(dm: &DistanceMatrix, i: usize, j: usize) -> f64 {
    f64::from_bits(dm.get(i, j))
}

fn four_points() -> Vec<(f64, f64)> {
    vec![(0.0, 0.0), (0.0, 3.0), (4.0, 0.0), (4.0, 3.0)]
}

#[test]
fn matrix_set_then_get_returns_value_written() {
    let mut m: Matrix<u64> = Matrix::init(0, 3, 4);
    for r in 0..3 {
        for c in 0..4 {
            m.set(r, c, (10 * r + c) as u64);
            assert_eq!(m.get(r, c), (10 * r + c) as u64);
        }
    }
    m.set(1, 2, 77);
    assert_eq!(m.get(1, 2), 77);
    assert_eq!(m.get(1, 1), 11);
    assert_eq!(m.get(2, 3), 23);
}

#[test]
fn matrix_init_fills_every_cell() {
    let m: Matrix<usize> = Matrix::init(9, 2, 5);
    for r in 0..2 {
        for c in 0..5 {
            assert_eq!(m.get(r, c), 9);
        }
    }
    assert_eq!(m.rows(), 2);
    assert_eq!(m.cols(), 5);
}

#[test]
fn matrix_get_mut_updates_one_cell_in_place() {
    let mut m: Matrix<u64> = Matrix::init(5, 2, 2);
    {
        let cell = m.get_mut(0, 1);
        assert_eq!(*cell, 5);
        *cell = 42;
    }
    assert_eq!(m.get(0, 1), 42);
    assert_eq!(m.get(0, 0), 5);
    assert_eq!(m.get(1, 0), 5);
    assert_eq!(m.get(1, 1), 5);
}

#[test]
fn matrix_slice_runs_across_row_boundary() {
    let mut m: Matrix<u64> = Matrix::init(0, 2, 3);
    for r in 0..2 {
        for c in 0..3 {
            m.set(r, c, (r * 3 + c) as u64);
        }
    }
    let s = m.slice(0, 2, 3);
    assert_eq!(s, &[2u64, 3, 4][..]);
}

#[test]
fn concrete_distances_three_four_five() {
    let dm = build(&four_points(), true, false);
    assert_eq!(dist_at(&dm, 0, 1), 3.0);
    assert_eq!(dist_at(&dm, 0, 2), 4.0);
    assert_eq!(dist_at(&dm, 1, 2), 5.0);
    assert_eq!(dist_at(&dm, 0, 3), 5.0);
    assert_eq!(dist_at(&dm, 1, 3), 4.0);
    assert_eq!(dist_at(&dm, 2, 3), 3.0);
    assert_eq!(dm.size(), 4);
    assert_eq!(dm.max(), Some(5.0f64.to_bits()));
}

#[test]
fn diagonal_is_zero_in_both_modes() {
    let eager = build(&four_points(), true, false);
    let lazy = build(&four_points(), false, false);
    for i in 0..4 {
        assert_eq!(dist_at(&eager, i, i), 0.0);
        assert_eq!(dist_at(&lazy, i, i), 0.0);
    }
}

#[test]
fn precomputed_matrix_is_symmetric() {
    let pts = vec![(0.5, -1.25), (3.0, 2.0), (-2.0, 0.75), (1.0, 1.0), (4.5, -3.5)];
    let dm = build(&pts, true, false);
    for i in 0..pts.len() {
        for j in 0..pts.len() {
            assert_eq!(dm.get(i, j), dm.get(j, i));
        }
    }
}

#[test]
fn eager_and_lazy_modes_agree_on_every_pair() {
    let pts = vec![(0.5, -1.25), (3.0, 2.0), (-2.0, 0.75), (1.0, 1.0), (4.5, -3.5), (0.0, 0.0)];
    for rounded in [false, true] {
        let eager = build(&pts, true, rounded);
        let lazy = build(&pts, false, rounded);
        for i in 0..pts.len() {
            for j in 0..pts.len() {
                assert_eq!(eager.get(i, j), lazy.get(i, j));
            }
        }
    }
}

#[test]
fn rounded_distances_are_integers() {
    let pts = vec![(0.0, 0.0), (1.0, 1.0), (2.0, 0.0), (0.0, 2.0), (-1.0, 1.5)];
    for precompute in [false, true] {
        let dm = build(&pts, precompute, true);
        for i in 0..pts.len() {
            for j in 0..pts.len() {
                let d = dist_at(&dm, i, j);
                assert_eq!(d, d.round());
                let expected = euclid(pts[i], pts[j]).round();
                assert!((d - expected).abs() < 1e-12);
            }
        }
    }
}

#[test]
fn max_is_maximum_over_distinct_pairs_when_precomputed() {
    let pts = vec![(0.5, -1.25), (3.0, 2.0), (-2.0, 0.75), (1.0, 1.0), (4.5, -3.5)];
    let dm = build(&pts, true, false);
    let mut best = f64::NEG_INFINITY;
    for i in 0..pts.len() {
        for j in 0..pts.len() {
            if i != j && dist_at(&dm, i, j) > best {
                best = dist_at(&dm, i, j);
            }
        }
    }
    assert_eq!(dm.max(), Some(best.to_bits()));
}

#[test]
fn max_is_absent_when_lazy_or_too_small() {
    let lazy = build(&four_points(), false, false);
    assert_eq!(lazy.max(), None);

    let empty = build(&[], true, false);
    assert_eq!(empty.max(), None);
    assert_eq!(empty.size(), 0);

    let single = build(&[(1.0, 2.0)], true, false);
    assert_eq!(single.max(), None);
    assert_eq!(single.size(), 1);
}

#[test]
fn get_vec_matches_manual_row_major_walk() {
    let pts = four_points();
    let n = pts.len();
    let eager = build(&pts, true, false);
    let lazy = build(&pts, false, false);
    for (row, col, number) in [(0, 0, 4), (1, 2, 5), (0, 3, 9), (2, 1, 7), (3, 3, 1)] {
        let from_eager = eager.get_vec(row, col, number);
        let from_lazy = lazy.get_vec(row, col, number);

        let mut manual: Vec<u64> = Vec::new();
        let mut r = row;
        let mut c = col;
        for _ in 0..number {
            manual.push(eager.get(r, c));
            if c < n - 1 {
                c += 1;
            } else {
                r += 1;
                c = 0;
            }
        }
        assert_eq!(from_eager, manual);
        assert_eq!(from_lazy, manual);
    }
}

#[test]
fn candidate_lists_have_width_entries_of_other_nodes() {
    let pts = vec![(0.5, -1.25), (3.0, 2.0), (-2.0, 0.75), (1.0, 1.0), (4.5, -3.5), (2.5, 2.5), (0.0, 4.0)];
    let dm = build(&pts, true, false);
    let cm = CorrelationMatrix::new(&dm);
    assert_eq!(cm.width(), pts.len() - 2);
    for i in 0..pts.len() {
        let row = cm.get(i);
        assert_eq!(row.len(), pts.len() - 2);
        for (k, &cand) in row.iter().enumerate() {
            assert!(cand < pts.len());
            assert_ne!(cand, i);
            for &later in &row[k + 1..] {
                assert_ne!(cand, later);
                let a = dist_at(&dm, i, cand);
                let b = dist_at(&dm, i, later);
                assert!(a < b || (a == b && cand < later));
            }
        }
    }
}

#[test]
fn candidate_lists_hold_the_nearest_nodes() {
    let pts = vec![(0.5, -1.25), (3.0, 2.0), (-2.0, 0.75), (1.0, 1.0), (4.5, -3.5), (2.5, 2.5), (0.0, 4.0), (-3.0, -3.0)];
    let n = pts.len();
    for precompute in [false, true] {
        let dm = build(&pts, precompute, false);
        let cm = CorrelationMatrix::new(&dm);
        let width = n - 2;
        for i in 0..n {
            let mut pairs: Vec<(u64, usize)> = (0..n).filter(|&j| j != i).map(|j| (dm.get(i, j), j)).collect();
            pairs.sort();
            let expected: Vec<usize> = pairs.iter().take(width).map(|p| p.1).collect();
            assert_eq!(cm.get(i), &expected[..]);
        }
    }
}

#[test]
fn concrete_candidates_of_four_points() {
    let dm = build(&four_points(), true, false);
    let cm = CorrelationMatrix::new(&dm);
    assert_eq!(cm.width(), 2);
    assert_eq!(cm.size(), 4);
    assert_eq!(cm.get(0), &[1usize, 2][..]);
    assert_eq!(cm.get(1), &[0usize, 3][..]);
    assert_eq!(cm.get(2), &[3usize, 0][..]);
    assert_eq!(cm.get(3), &[2usize, 1][..]);
    assert_eq!(cm.top_slice(0, 1), &[1usize][..]);
    assert_eq!(cm.top_slice(0, 0), &[] as &[usize]);
}

#[test]
fn equal_distances_break_ties_by_ascending_index() {
    let pts = vec![(0.0, 0.0), (0.0, 2.0), (2.0, 0.0), (2.0, 2.0)];
    let dm = build(&pts, true, false);
    let cm = CorrelationMatrix::new(&dm);
    assert_eq!(cm.get(0), &[1usize, 2][..]);
    assert_eq!(cm.get(3), &[1usize, 2][..]);
    assert_eq!(cm.get(1), &[0usize, 3][..]);
    assert_eq!(cm.get(2), &[0usize, 3][..]);
}

#[test]
fn two_locations_give_empty_candidate_lists() {
    let dm = build(&[(0.0, 0.0), (5.0, 5.0)], true, false);
    let cm = CorrelationMatrix::new(&dm);
    assert_eq!(cm.width(), 0);
    assert_eq!(cm.get(0), &[] as &[usize]);
    assert_eq!(cm.get(1), &[] as &[usize]);
}

#[test]
fn candidate_width_is_capped() {
    let mut pts: Vec<(f64, f64)> = Vec::new();
    for k in 0..110 {
        pts.push((k as f64, (k * k % 37) as f64));
    }
    let dm = build(&pts, false, false);
    let cm = CorrelationMatrix::new(&dm);
    assert_eq!(cm.width(), 100);
    assert_eq!(cm.get(17).len(), 100);
}

#[test]
fn provider_decides_precompute_from_size_limit() {
    let rows = upper_rows(&four_points(), false);

    let eager = MatrixProvider::new(rows.clone(), 100, false);
    assert_eq!(eager.distance.max(), Some(5.0f64.to_bits()));
    assert_eq!(eager.distance.size(), 4);
    assert_eq!(eager.correlation.get(0), &[1usize, 2][..]);

    let lazy = MatrixProvider::new(rows, 3, false);
    assert_eq!(lazy.distance.max(), None);
    assert_eq!(lazy.distance.get(0, 1), eager.distance.get(0, 1));
    assert_eq!(lazy.correlation.get(0), &[1usize, 2][..]);
}

#[test]
fn builder_defaults_to_lazy_unrounded() {
    let dm = DistanceMatrixBuilder::new().distances(upper_rows(&four_points(), false)).build();
    assert_eq!(dm.max(), None);
    assert_eq!(dist_at(&dm, 1, 2), 5.0);
}
