use vstd::prelude::*;

use crate::matrix::Matrix;

verus! {

// A distance is carried as a plain unsigned key whose numeric order mirrors
// the order of the underlying distances; for non-negative IEEE doubles the
// raw bit pattern is such a key, and the key of a zero distance is 0.
// The pairwise distances of `n` locations enter as an upper-triangle table:
// row `i` lists, in column order, the keys for the pairs `(i, i+1) .. (i, n-1)`.

/// The mathematical view of an upper-triangle table: one sequence per row.
pub open spec fn rows_view(rows: Vec<Vec<u64>>) -> Seq<Seq<u64>> {
    Seq::new(rows@.len(), |i: int| rows@[i]@)
}

/// Row `i` of an upper-triangle table for `n` locations holds `n - 1 - i` keys.
pub open spec fn upper_shape(pairs: Seq<Seq<u64>>) -> bool {
    forall|i: int| 0 <= i < pairs.len() ==> #[trigger] pairs[i].len() == pairs.len() - 1 - i
}

/// The distance between locations `i` and `j` under an upper-triangle table:
/// zero on the diagonal, and the stored key of the unordered pair otherwise.
/// The definition reads the same cell for `(i, j)` and `(j, i)`, so it is
/// symmetric by construction.
pub open spec fn dist_of(pairs: Seq<Seq<u64>>, i: int, j: int) -> u64 {
    if i == j {
        0u64
    } else if i < j {
        pairs[i][j - i - 1]
    } else {
        pairs[j][i - j - 1]
    }
}

/// `m` is the maximum pairwise distance of the table: some off-diagonal pair
/// attains it and no off-diagonal pair exceeds it.
pub open spec fn is_max_dist(pairs: Seq<Seq<u64>>, m: u64) -> bool {
    &&& exists|i: int, j: int|
        0 <= i < pairs.len() && 0 <= j < pairs.len() && i != j && #[trigger] dist_of(pairs, i, j)
            == m
    &&& forall|i: int, j: int|
        0 <= i < pairs.len() && 0 <= j < pairs.len() && i != j ==> #[trigger] dist_of(pairs, i, j)
            <= m
}

/// What the recorded maximum must be: the true maximum after eager
/// precomputation of a table with at least one pair, and absent otherwise.
pub open spec fn max_ok(pairs: Seq<Seq<u64>>, precomputed: bool, max_distance: Option<u64>) -> bool {
    if precomputed && pairs.len() >= 2 {
        max_distance is Some && is_max_dist(pairs, max_distance->0)
    } else {
        max_distance is None
    }
}

/// Distance matrix over a fixed set of locations.
///
/// Supports lazy evaluation, where a queried distance is looked up in the
/// compact upper-triangle table on every call, in contrast to eagerly
/// materializing the full square matrix.
pub struct DistanceMatrix {
    distances: Vec<Vec<u64>>,
    storage: Matrix<u64>,
    precomputed: bool,
    rounded: bool,
    max_distance: Option<u64>,
}

impl DistanceMatrix {
    /// The upper-triangle table of pairwise distance keys.
    pub closed spec fn pairs_view(self) -> Seq<Seq<u64>> {
        rows_view(self.distances)
    }

    /// Number of locations.
    pub open spec fn spec_size(self) -> int {
        self.pairs_view().len() as int
    }

    /// Whether the full square matrix was materialized eagerly.
    pub closed spec fn spec_precomputed(self) -> bool {
        self.precomputed
    }

    /// Whether the supplied distances were rounded to the nearest integer
    /// before they entered the table.
    pub closed spec fn spec_rounded(self) -> bool {
        self.rounded
    }

    /// The recorded maximum pairwise distance, if any.
    pub closed spec fn max_view(self) -> Option<u64> {
        self.max_distance
    }

    /// The distance between locations `i` and `j`.
    pub open spec fn spec_dist(self, i: int, j: int) -> u64 {
        dist_of(self.pairs_view(), i, j)
    }

    /// Internal invariant: the table has upper-triangle shape, the square
    /// cell count fits the machine, the materialized matrix (present exactly
    /// when precomputed) agrees with the table everywhere, and the recorded
    /// maximum is correct for the mode.
    pub closed spec fn wf(self) -> bool {
        &&& upper_shape(self.pairs_view())
        &&& self.spec_size() * self.spec_size() <= usize::MAX
        &&& self.storage.wf()
        &&& if self.precomputed {
            &&& self.storage.spec_rows() == self.spec_size()
            &&& self.storage.spec_cols() == self.spec_size()
            &&& forall|i: int, j: int|
                0 <= i < self.spec_size() && 0 <= j < self.spec_size()
                    ==> #[trigger] self.storage.spec_get(i, j) == self.spec_dist(i, j)
        } else {
            &&& self.storage.spec_rows() == 0
            &&& self.storage.spec_cols() == 0
        }
        &&& max_ok(self.pairs_view(), self.precomputed, self.max_distance)
    }

    /// Assembles a distance matrix from its parts. The caller supplies a
    /// storage matrix that is empty in lazy mode and agrees with the table in
    /// precomputed mode, and a recorded maximum that is correct for the mode.
    pub fn new(
        distances: Vec<Vec<u64>>,
        storage: Matrix<u64>,
        precomputed: bool,
        rounded: bool,
        max_distance: Option<u64>,
    ) -> (dm: DistanceMatrix)
        requires
            upper_shape(rows_view(distances)),
            rows_view(distances).len() * rows_view(distances).len() <= usize::MAX,
            storage.wf(),
            precomputed ==> storage.spec_rows() == rows_view(distances).len()
                && storage.spec_cols() == rows_view(distances).len()
                && forall|i: int, j: int|
                    0 <= i < rows_view(distances).len() && 0 <= j < rows_view(distances).len()
                        ==> #[trigger] storage.spec_get(i, j) == dist_of(rows_view(distances), i, j),
            !precomputed ==> storage.spec_rows() == 0 && storage.spec_cols() == 0,
            max_ok(rows_view(distances), precomputed, max_distance),
        ensures
            dm.wf(),
            dm.pairs_view() == rows_view(distances),
            dm.spec_precomputed() == precomputed,
            dm.spec_rounded() == rounded,
            dm.max_view() == max_distance,
    {
        DistanceMatrix { distances, storage, precomputed, rounded, max_distance }
    }

    /// Number of locations.
    pub fn size(&self) -> (n: usize)
        ensures
            n == self.spec_size(),
    {
        self.distances.len()
    }

    /// The maximum pairwise distance observed during eager precomputation;
    /// absent when the matrix was not precomputed or holds fewer than two
    /// locations.
    pub fn max(&self) -> (m: Option<u64>)
        ensures
            m == self.max_view(),
    {
        self.max_distance
    }

    /// The distance between locations `row` and `col`: a direct lookup when
    /// precomputed, otherwise read from the compact table on demand.
    pub fn get(&self, row: usize, col: usize) -> (d: u64)
        requires
            self.wf(),
            row < self.spec_size(),
            col < self.spec_size(),
        ensures
            d == self.spec_dist(row as int, col as int),
    {
        if self.precomputed {
            self.storage.get(row, col)
        } else {
            if row == col {
                0
            } else if row < col {
                proof {
                    assert(self.pairs_view()[row as int] == self.distances@[row as int]@);
                    assert(self.pairs_view()[row as int].len() == self.spec_size() - 1 - row);
                }
                self.distances[row][col - row - 1]
            } else {
                proof {
                    assert(self.pairs_view()[col as int] == self.distances@[col as int]@);
                    assert(self.pairs_view()[col as int].len() == self.spec_size() - 1 - col);
                }
                self.distances[col][row - col - 1]
            }
        }
    }

    /// Returns `number` consecutive distances in row-major linearized order
    /// starting at `(row, col)`, wrapping to the start of the next row when
    /// the column cursor passes the last location. Element `k` of the result
    /// is the distance at linear offset `row * size + col + k`, whichever
    /// mode the matrix is in.
    pub fn get_vec(&self, row: usize, col: usize, number: usize) -> (out: Vec<u64>)
        requires
            self.wf(),
            row < self.spec_size(),
            col < self.spec_size(),
            row * self.spec_size() + col + number <= self.spec_size() * self.spec_size(),
        ensures
            out@.len() == number,
            forall|k: int|
                0 <= k < number ==> #[trigger] out@[k] == self.spec_dist(
                    (row * self.spec_size() + col + k) / self.spec_size(),
                    (row * self.spec_size() + col + k) % self.spec_size(),
                ),
    {
        let n = self.size();
        let ghost base = row * n + col;
        if self.precomputed {
            let s = self.storage.slice(row, col, number);
            proof {
                assert(self.storage_view().len() == n * n);
            }
            let mut out: Vec<u64> = Vec::new();
            for k in 0..number
                invariant
                    self.wf(),
                    self.spec_precomputed(),
                    n == self.spec_size(),
                    base == row * n + col,
                    0 <= base,
                    base + number <= n * n,
                    self.storage_view().len() == n * n,
                    s@.len() == number,
                    s@ == self.storage_view().subrange(base as int, base + number),
                    out@.len() == k,
                    forall|m: int|
                        0 <= m < k ==> #[trigger] out@[m] == self.spec_dist(
                            (base + m) / n as int,
                            (base + m) % n as int,
                        ),
            {
                let v = s[k];
                proof {
                    lemma_linear_coords(n as int, base + k);
                    self.lemma_storage_cell(base + k);
                }
                out.push(v);
            }
            out
        } else {
            let mut out: Vec<u64> = Vec::new();
            let mut r = row;
            let mut c = col;
            for k in 0..number
                invariant
                    self.wf(),
                    n == self.spec_size(),
                    base == row * n + col,
                    0 <= base,
                    base + number <= n * n,
                    r * n + c == base + k,
                    c < n,
                    out@.len() == k,
                    forall|m: int|
                        0 <= m < k ==> #[trigger] out@[m] == self.spec_dist(
                            (base + m) / n as int,
                            (base + m) % n as int,
                        ),
            {
                proof {
                    assert(r < n) by (nonlinear_arith)
                        requires
                            r * n + c == base + k,
                            base + k < n * n,
                            0 <= c,
                            0 <= r,
                            0 <= n,
                    ;
                }
                let v = self.get(r, c);
                proof {
                    vstd::arithmetic::div_mod::lemma_fundamental_div_mod_converse(
                        base + k,
                        n as int,
                        r as int,
                        c as int,
                    );
                }
                out.push(v);
                if c < n - 1 {
                    c = c + 1;
                } else {
                    proof {
                        assert((r + 1) * (n as int) == r * (n as int) + n) by (nonlinear_arith);
                    }
                    r = r + 1;
                    c = 0;
                }
            }
            out
        }
    }

    /// The raw contents of the materialized matrix.
    spec fn storage_view(self) -> Seq<u64> {
        self.storage@
    }

    /// In precomputed mode, the block cell at a linear offset holds the
    /// distance of the coordinates that offset decodes to.
    proof fn lemma_storage_cell(self, off: int)
        requires
            self.wf(),
            self.spec_precomputed(),
            0 <= off < self.spec_size() * self.spec_size(),
        ensures
            self.storage_view()[off] == self.spec_dist(
                off / self.spec_size(),
                off % self.spec_size(),
            ),
    {
        let n = self.spec_size();
        lemma_linear_coords(n, off);
        let q = off / n;
        let r = off % n;
        assert(self.storage.spec_get(q, r) == self.spec_dist(q, r));
        assert(self.storage.spec_get(q, r) == self.storage_view()[q * n + r]);
    }
}

/// The unordered pair `(a, b)` with `a < b` has already been visited when
/// the filling loops stand at outer row `i0` and inner column `j0`.
spec fn pair_done(i0: int, j0: int, a: int, b: int) -> bool {
    a < b && (a < i0 || (a == i0 && b < j0))
}

/// Every visited pair's two mirror cells hold the pair's distance; every
/// other cell still holds its initial zero.
spec fn cells_ok(storage: Matrix<u64>, pairs: Seq<Seq<u64>>, i0: int, j0: int) -> bool {
    forall|a: int, b: int|
        0 <= a < pairs.len() && 0 <= b < pairs.len() ==> #[trigger] storage.spec_get(a, b) == (
        if pair_done(i0, j0, a, b) || pair_done(i0, j0, b, a) {
            dist_of(pairs, a, b)
        } else {
            0u64
        })
}

/// The running maximum is the maximum over the visited pairs, with `wi, wj`
/// a visited pair that attains it; it is absent while no pair was visited.
spec fn max_state_ok(
    pairs: Seq<Seq<u64>>,
    i0: int,
    j0: int,
    max_d: Option<u64>,
    wi: int,
    wj: int,
) -> bool {
    match max_d {
        Option::None => forall|a: int, b: int|
            0 <= a < pairs.len() && 0 <= b < pairs.len() ==> !#[trigger] pair_done(i0, j0, a, b),
        Option::Some(m) => {
            &&& 0 <= wi < pairs.len()
            &&& 0 <= wj < pairs.len()
            &&& pair_done(i0, j0, wi, wj)
            &&& dist_of(pairs, wi, wj) == m
            &&& forall|a: int, b: int|
                0 <= a < pairs.len() && 0 <= b < pairs.len() && #[trigger] pair_done(i0, j0, a, b)
                    ==> dist_of(pairs, a, b) <= m
        },
    }
}

/// Configuration for a [`DistanceMatrix`]: the upper-triangle table of
/// pairwise distance keys, whether to materialize the full square matrix
/// eagerly, and whether the supplied keys stand for rounded distances.
pub struct DistanceMatrixBuilder {
    distances: Vec<Vec<u64>>,
    precompute: bool,
    rounded: bool,
}

impl DistanceMatrixBuilder {
    /// The configured upper-triangle table.
    pub closed spec fn spec_distances(self) -> Seq<Seq<u64>> {
        rows_view(self.distances)
    }

    /// Whether eager precomputation was requested.
    pub closed spec fn spec_precompute(self) -> bool {
        self.precompute
    }

    /// Whether the supplied keys stand for rounded distances.
    pub closed spec fn spec_rounded(self) -> bool {
        self.rounded
    }

    /// A fresh configuration: no locations, lazy, unrounded.
    pub fn new() -> (b: Self)
        ensures
            b.spec_distances().len() == 0,
            !b.spec_precompute(),
            !b.spec_rounded(),
    {
        DistanceMatrixBuilder { distances: Vec::new(), precompute: false, rounded: false }
    }

    /// Sets the upper-triangle table of pairwise distance keys.
    pub fn distances(self, distances: Vec<Vec<u64>>) -> (b: Self)
        ensures
            b.spec_distances() == rows_view(distances),
            b.spec_precompute() == self.spec_precompute(),
            b.spec_rounded() == self.spec_rounded(),
    {
        DistanceMatrixBuilder { distances, ..self }
    }

    /// Chooses between eager precomputation and lazy lookup.
    pub fn precompute(self, precompute: bool) -> (b: Self)
        ensures
            b.spec_distances() == self.spec_distances(),
            b.spec_precompute() == precompute,
            b.spec_rounded() == self.spec_rounded(),
    {
        DistanceMatrixBuilder { precompute, ..self }
    }

    /// Records that the supplied keys stand for rounded distances.
    pub fn rounded(self, rounded: bool) -> (b: Self)
        ensures
            b.spec_distances() == self.spec_distances(),
            b.spec_precompute() == self.spec_precompute(),
            b.spec_rounded() == rounded,
    {
        DistanceMatrixBuilder { rounded, ..self }
    }

    /// Builds the distance matrix. When precomputation was requested, every
    /// unordered pair's distance is written at both mirror positions of the
    /// square matrix and the running maximum is tracked; otherwise a
    /// zero-size placeholder is produced and queries read the table on
    /// demand.
    pub fn build(self) -> (dm: DistanceMatrix)
        requires
            upper_shape(self.spec_distances()),
            self.spec_distances().len() * self.spec_distances().len() <= usize::MAX,
        ensures
            dm.wf(),
            dm.pairs_view() == self.spec_distances(),
            dm.spec_size() == self.spec_distances().len(),
            dm.spec_precomputed() == self.spec_precompute(),
            dm.spec_rounded() == self.spec_rounded(),
            max_ok(dm.pairs_view(), dm.spec_precomputed(), dm.max_view()),
    {
        let DistanceMatrixBuilder { distances, precompute, rounded } = self;
        let ghost pairs = rows_view(distances);
        let n = distances.len();
        if precompute {
            let mut storage = Matrix::init(0u64, n, n);
            let mut max_d: Option<u64> = None;
            let ghost mut wi: int = 0;
            let ghost mut wj: int = 0;
            for i in 0..n
                invariant
                    pairs == rows_view(distances),
                    upper_shape(pairs),
                    pairs.len() == n,
                    n * n <= usize::MAX,
                    storage.wf(),
                    storage.spec_rows() == n,
                    storage.spec_cols() == n,
                    cells_ok(storage, pairs, i as int, i as int + 1),
                    max_state_ok(pairs, i as int, i as int + 1, max_d, wi, wj),
            {
                let mut j = i + 1;
                while j < n
                    invariant
                        pairs == rows_view(distances),
                        upper_shape(pairs),
                        pairs.len() == n,
                        n * n <= usize::MAX,
                        i < n,
                        i < j <= n,
                        storage.wf(),
                        storage.spec_rows() == n,
                        storage.spec_cols() == n,
                        cells_ok(storage, pairs, i as int, j as int),
                        max_state_ok(pairs, i as int, j as int, max_d, wi, wj),
                    decreases n - j,
                {
                    proof {
                        assert(pairs[i as int] == distances@[i as int]@);
                        assert(pairs[i as int].len() == n - 1 - i);
                    }
                    let d = distances[i][j - i - 1];
                    proof {
                        assert(d == dist_of(pairs, i as int, j as int));
                    }
                    storage.set(i, j, d);
                    storage.set(j, i, d);
                    let ghost prev_max = max_d;
                    match max_d {
                        Option::None => {
                            max_d = Some(d);
                            proof {
                                wi = i as int;
                                wj = j as int;
                            }
                        },
                        Option::Some(m) => {
                            if d > m {
                                max_d = Some(d);
                                proof {
                                    wi = i as int;
                                    wj = j as int;
                                }
                            }
                        },
                    }
                    proof {
                        assert forall|a: int, b: int|
                            0 <= a < pairs.len() && 0 <= b < pairs.len()
                                implies #[trigger] storage.spec_get(a, b) == (
                            if pair_done(i as int, j as int + 1, a, b) || pair_done(
                                i as int,
                                j as int + 1,
                                b,
                                a,
                            ) {
                                dist_of(pairs, a, b)
                            } else {
                                0u64
                            }) by {
                            if a == i && b == j {
                            } else if a == j && b == i {
                            }
                        }
                        assert(max_d is Some);
                        assert(pair_done(i as int, j as int + 1, wi, wj));
                        assert forall|a: int, b: int|
                            0 <= a < pairs.len() && 0 <= b < pairs.len() && #[trigger] pair_done(
                                i as int,
                                j as int + 1,
                                a,
                                b,
                            ) implies dist_of(pairs, a, b) <= max_d->0 by {
                            if pair_done(i as int, j as int, a, b) {
                                assert(prev_max is Some);
                                assert(dist_of(pairs, a, b) <= prev_max->0);
                            } else {
                                assert(a == i as int && b == j as int);
                            }
                        }
                    }
                    j = j + 1;
                }
                proof {
                    assert forall|a: int, b: int|
                        0 <= a < pairs.len() && 0 <= b < pairs.len() implies (pair_done(
                        i as int,
                        n as int,
                        a,
                        b,
                    ) == #[trigger] pair_done(i as int + 1, i as int + 2, a, b)) by {}
                    assert(max_state_ok(pairs, i as int + 1, i as int + 2, max_d, wi, wj));
                }
            }
            proof {
                if n >= 2 {
                    assert(pair_done(n as int, n as int + 1, 0, 1));
                    assert(max_d is Some);
                    assert forall|a: int, b: int|
                        0 <= a < pairs.len() && 0 <= b < pairs.len() && a != b
                            implies #[trigger] dist_of(pairs, a, b) <= max_d->0 by {
                        if a < b {
                            assert(pair_done(n as int, n as int + 1, a, b));
                        } else {
                            assert(pair_done(n as int, n as int + 1, b, a));
                            assert(dist_of(pairs, a, b) == dist_of(pairs, b, a));
                        }
                    }
                } else {
                    if max_d is Some {
                        assert(pair_done(n as int, n as int + 1, wi, wj));
                        assert(false);
                    }
                }
            }
            DistanceMatrix::new(distances, storage, true, rounded, max_d)
        } else {
            let storage = Matrix::init(0u64, 0, 0);
            DistanceMatrix::new(distances, storage, false, rounded, None)
        }
    }
}

/// The sequence read by walking a `(row, col)` cursor for `number` steps:
/// at each step the distance at the cursor is taken, then the column
/// advances, wrapping to the start of the next row past the last location.
pub open spec fn manual_walk(dm: DistanceMatrix, row: int, col: int, number: nat) -> Seq<u64>
    decreases number,
{
    if number == 0 {
        Seq::empty()
    } else {
        let rest = if col < dm.spec_size() - 1 {
            manual_walk(dm, row, col + 1, (number - 1) as nat)
        } else {
            manual_walk(dm, row + 1, 0, (number - 1) as nat)
        };
        seq![dm.spec_dist(row, col)] + rest
    }
}

/// Law (wrap-around consistency): what `get_vec` promises — the distance at
/// each linearized offset — is exactly the sequence of the manual cursor
/// walk, in either mode; two matrices over the same table therefore return
/// the same sequence whether each is precomputed or lazy.
pub proof fn lemma_get_vec_is_manual_walk(dm: DistanceMatrix, row: int, col: int, number: nat)
    requires
        0 <= row,
        0 <= col < dm.spec_size(),
        row * dm.spec_size() + col + number <= dm.spec_size() * dm.spec_size(),
    ensures
        manual_walk(dm, row, col, number).len() == number,
        forall|k: int|
            0 <= k < number ==> manual_walk(dm, row, col, number)[k] == dm.spec_dist(
                (row * dm.spec_size() + col + k) / dm.spec_size(),
                (row * dm.spec_size() + col + k) % dm.spec_size(),
            ),
    decreases number,
{
    let n = dm.spec_size();
    let w = manual_walk(dm, row, col, number);
    if number > 0 {
        assert(row < n) by (nonlinear_arith)
            requires
                0 <= row,
                0 <= col < n,
                row * n + col + number <= n * n,
                number > 0,
        ;
        vstd::arithmetic::div_mod::lemma_fundamental_div_mod_converse(
            row * n + col,
            n,
            row,
            col,
        );
        let rest = if col < n - 1 {
            manual_walk(dm, row, col + 1, (number - 1) as nat)
        } else {
            manual_walk(dm, row + 1, 0, (number - 1) as nat)
        };
        if col < n - 1 {
            lemma_get_vec_is_manual_walk(dm, row, col + 1, (number - 1) as nat);
        } else {
            assert((row + 1) * n == row * n + n) by (nonlinear_arith);
            lemma_get_vec_is_manual_walk(dm, row + 1, 0, (number - 1) as nat);
        }
        assert forall|k: int|
            0 <= k < number implies w[k] == dm.spec_dist(
            (row * n + col + k) / n,
            (row * n + col + k) % n,
        ) by {
            if k > 0 {
                assert(w[k] == rest[k - 1]);
                if col < n - 1 {
                    assert(row * n + (col + 1) + (k - 1) == row * n + col + k);
                } else {
                    assert((row + 1) * n == row * n + n) by (nonlinear_arith);
                    assert((row + 1) * n + 0 + (k - 1) == row * n + col + k);
                }
            }
        }
    }
}

/// A well-formed matrix has a square cell count that fits the machine's
/// address space; in particular the location count itself does.
pub proof fn lemma_size_bound(dm: DistanceMatrix)
    requires
        dm.wf(),
    ensures
        dm.spec_size() * dm.spec_size() <= usize::MAX,
        dm.spec_size() <= usize::MAX,
{
    let n = dm.spec_size();
    if n > usize::MAX {
        assert(n * n > n) by (nonlinear_arith)
            requires
                n > 1,
        ;
    }
}

/// Law (symmetry): the distance between two locations does not depend on
/// the order they are asked in; in particular a precomputed matrix holds
/// equal values at `(i, j)` and `(j, i)`.
pub proof fn lemma_symmetry(dm: DistanceMatrix, i: int, j: int)
    ensures
        dm.spec_dist(i, j) == dm.spec_dist(j, i),
{
}

/// Law (mode equivalence): two distance matrices built over the same table
/// agree on every distance, whether each of them was precomputed or answers
/// lazily.
pub proof fn lemma_mode_equivalence(a: DistanceMatrix, b: DistanceMatrix)
    requires
        a.pairs_view() == b.pairs_view(),
    ensures
        forall|i: int, j: int| #[trigger] a.spec_dist(i, j) == b.spec_dist(i, j),
{
}

/// Law (maximum tracking): in a well-formed matrix the recorded maximum is
/// the maximum distance over all pairs of distinct locations when the matrix
/// was precomputed over at least two locations, and absent otherwise.
pub proof fn lemma_max_characterized(dm: DistanceMatrix)
    requires
        dm.wf(),
    ensures
        dm.spec_precomputed() && dm.spec_size() >= 2 ==> {
            &&& dm.max_view() is Some
            &&& is_max_dist(dm.pairs_view(), dm.max_view()->0)
        },
        !(dm.spec_precomputed() && dm.spec_size() >= 2) ==> dm.max_view() is None,
{
}

/// Decodes a linear offset inside an `n x n` block into row-major
/// coordinates: both lie in range and recompose to the offset.
pub proof fn lemma_linear_coords(n: int, off: int)
    requires
        0 < n,
        0 <= off < n * n,
    ensures
        0 <= off / n < n,
        0 <= off % n < n,
        (off / n) * n + off % n == off,
{
    vstd::arithmetic::div_mod::lemma_fundamental_div_mod(off, n);
    vstd::arithmetic::div_mod::lemma_mod_bound(off, n);
    assert(off == n * (off / n) + off % n);
    let q = off / n;
    let r = off % n;
    assert(0 <= q < n) by (nonlinear_arith)
        requires
            off == n * q + r,
            0 <= r < n,
            0 <= off < n * n,
    ;
    vstd::arithmetic::mul::lemma_mul_is_commutative(q, n);
}

} // verus!
