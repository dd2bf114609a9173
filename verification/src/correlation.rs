use vstd::prelude::*;

use lazysort::Sorted;

use crate::distance::DistanceMatrix;
use crate::matrix::Matrix;

verus! {

/// At most this many candidates are kept per node.
pub const CORRELATION_LIMIT: usize = 100;

/// The candidate-list width for `n` locations: `min(CORRELATION_LIMIT, n - 2)`.
pub open spec fn spec_width(n: int) -> int {
    if n - 2 < CORRELATION_LIMIT as int {
        n - 2
    } else {
        CORRELATION_LIMIT as int
    }
}

/// `a` comes no later than `b` in the nearest-neighbor order: strictly
/// smaller distance first, ties broken by ascending node index. Each side is
/// a (distance, node index) pair.
pub open spec fn pair_le(a: (u64, usize), b: (u64, usize)) -> bool {
    a.0 < b.0 || (a.0 == b.0 && a.1 <= b.1)
}

/// The candidate pairs for node `i`: one (distance to `i`, node index) pair
/// for every other node, listed in ascending index order.
pub open spec fn cand_seq(dm: DistanceMatrix, i: int) -> Seq<(u64, usize)> {
    Seq::new(
        (dm.spec_size() - 1) as nat,
        |k: int|
            if k < i {
                (dm.spec_dist(i, k), k as usize)
            } else {
                (dm.spec_dist(i, k + 1), (k + 1) as usize)
            },
    )
}

/// A pair that can stand in node `i`'s candidate list: another node of the
/// problem together with its distance to `i`.
pub open spec fn elem_ok(dm: DistanceMatrix, i: int, e: (u64, usize)) -> bool {
    &&& e.1 < dm.spec_size()
    &&& e.1 != i
    &&& e.0 == dm.spec_dist(i, e.1 as int)
}

/// `row` is a correct candidate list for node `i`: it holds exactly
/// `min(CORRELATION_LIMIT, n - 2)` distinct other nodes, in ascending
/// nearest-neighbor order, and no node outside the list comes before any
/// node inside it in that order.
pub open spec fn candidate_row_ok(dm: DistanceMatrix, i: int, row: Seq<usize>) -> bool {
    let n = dm.spec_size();
    let w = spec_width(n);
    &&& row.len() == w
    &&& forall|k: int| 0 <= k < w ==> #[trigger] row[k] < n && row[k] != i
    &&& row.no_duplicates()
    &&& forall|k: int, l: int|
        #![trigger row[k], row[l]]
        0 <= k < l < w ==> pair_le(
            (dm.spec_dist(i, row[k] as int), row[k]),
            (dm.spec_dist(i, row[l] as int), row[l]),
        )
    &&& forall|j: usize, k: int|
        #![trigger row.contains(j), row[k]]
        j < n && j != i && !row.contains(j) && 0 <= k < w ==> pair_le(
            (dm.spec_dist(i, row[k] as int), row[k]),
            (dm.spec_dist(i, j as int), j),
        )
}

/// Relies on lazysort's `Sorted::sorted`: a lazy quicksort over the
/// collected input that yields its elements in ascending `Ord` order; for
/// pairs of unsigned integers that order is the lexicographic one std
/// documents, which is exactly `pair_le`.
#[verifier::external_body]
fn sort_pairs(v: Vec<(u64, usize)>) -> (r: Vec<(u64, usize)>)
    ensures
        r@.len() == v@.len(),
        r@.to_multiset() == v@.to_multiset(),
        forall|p: int, q: int|
            #![trigger r@[p], r@[q]]
            0 <= p < q < r@.len() ==> pair_le(r@[p], r@[q]),
{
    v.into_iter().sorted().collect()
}

/// Per node, a fixed-width ranked list of the nearest other nodes, derived
/// once from a completed distance matrix.
pub struct CorrelationMatrix {
    storage: Matrix<usize>,
    width: usize,
}

/// Row `i` of a candidate-list block of the given width.
spec fn stored_row(storage: Matrix<usize>, width: int, i: int) -> Seq<usize> {
    storage@.subrange(i * width, i * width + width)
}

impl CorrelationMatrix {
    /// Number of nodes the lists were derived for.
    pub closed spec fn spec_size(self) -> int {
        self.storage.spec_rows()
    }

    /// Number of candidates kept per node.
    pub closed spec fn spec_width(self) -> int {
        self.width as int
    }

    /// The candidate list stored for node `i`.
    pub closed spec fn row_view(self, i: int) -> Seq<usize> {
        stored_row(self.storage, self.spec_width(), i)
    }

    /// Internal invariant: the block is well formed and one row wide per
    /// node.
    pub closed spec fn wf(self) -> bool {
        &&& self.storage.wf()
        &&& self.storage.spec_cols() == self.width
    }

    /// Width of every stored candidate list.
    pub fn width(&self) -> (w: usize)
        ensures
            w == self.spec_width(),
    {
        self.width
    }

    /// Number of nodes the lists were derived for.
    pub fn size(&self) -> (n: usize)
        ensures
            n == self.spec_size(),
    {
        self.storage.rows()
    }

    /// Derives the candidate lists from a completed distance matrix: for
    /// each node, every other node is paired with its distance, the pairs
    /// are sorted by ascending distance with ties broken by ascending index,
    /// and the indices of the first `min(CORRELATION_LIMIT, n - 2)` pairs
    /// become that node's row.
    pub fn new(distance_matrix: &DistanceMatrix) -> (c: CorrelationMatrix)
        requires
            distance_matrix.wf(),
            distance_matrix.spec_size() >= 2,
        ensures
            c.wf(),
            c.spec_size() == distance_matrix.spec_size(),
            c.spec_width() == spec_width(distance_matrix.spec_size()),
            forall|i: int|
                0 <= i < c.spec_size() ==> candidate_row_ok(
                    *distance_matrix,
                    i,
                    #[trigger] c.row_view(i),
                ),
    {
        let n = distance_matrix.size();
        let width = if n - 2 < CORRELATION_LIMIT {
            n - 2
        } else {
            CORRELATION_LIMIT
        };
        proof {
            crate::distance::lemma_size_bound(*distance_matrix);
            vstd::arithmetic::mul::lemma_mul_inequality(width as int, n as int, n as int);
            vstd::arithmetic::mul::lemma_mul_is_commutative(width as int, n as int);
        }
        let mut storage = Matrix::init(0usize, n, width);
        for i in 0..n
            invariant
                distance_matrix.wf(),
                n == distance_matrix.spec_size(),
                n >= 2,
                width == spec_width(n as int),
                n * n <= usize::MAX,
                storage.wf(),
                storage.spec_rows() == n,
                storage.spec_cols() == width,
                forall|a: int|
                    0 <= a < i ==> candidate_row_ok(
                        *distance_matrix,
                        a,
                        #[trigger] stored_row(storage, width as int, a),
                    ),
        {
            let mut cand: Vec<(u64, usize)> = Vec::new();
            for j in 0..n
                invariant
                    distance_matrix.wf(),
                    n == distance_matrix.spec_size(),
                    i < n,
                    cand@ == cand_seq(*distance_matrix, i as int).take(
                        if j <= i {
                            j as int
                        } else {
                            j as int - 1
                        },
                    ),
            {
                if j != i {
                    let d = distance_matrix.get(i, j);
                    proof {
                        let cs = cand_seq(*distance_matrix, i as int);
                        let m: int = if j <= i {
                            j as int
                        } else {
                            j as int - 1
                        };
                        assert(cs[m] == (d, j));
                        assert(cand@.push((d, j)) =~= cs.take(m + 1));
                    }
                    cand.push((d, j));
                }
            }
            let ghost cv = cand@;
            proof {
                assert(cv =~= cand_seq(*distance_matrix, i as int));
            }
            let sorted = sort_pairs(cand);
            proof {
                crate::distance::lemma_size_bound(*distance_matrix);
                lemma_sorted_candidates(*distance_matrix, i as int, sorted@);
            }
            for k in 0..width
                invariant
                    distance_matrix.wf(),
                    n == distance_matrix.spec_size(),
                    n >= 2,
                    i < n,
                    width == spec_width(n as int),
                    storage.wf(),
                    storage.spec_rows() == n,
                    storage.spec_cols() == width,
                    sorted@.len() == n - 1,
                    forall|p: int|
                        0 <= p < sorted@.len() ==> elem_ok(
                            *distance_matrix,
                            i as int,
                            #[trigger] sorted@[p],
                        ),
                    forall|a: int|
                        0 <= a < i ==> candidate_row_ok(
                            *distance_matrix,
                            a,
                            #[trigger] stored_row(storage, width as int, a),
                        ),
                    forall|m: int|
                        0 <= m < k ==> #[trigger] storage.spec_get(i as int, m) == sorted@[m].1,
            {
                let p = sorted[k];
                let ghost before = storage;
                storage.set(i, k, p.1);
                proof {
                    assert forall|a: int|
                        0 <= a < i implies candidate_row_ok(
                        *distance_matrix,
                        a,
                        #[trigger] stored_row(storage, width as int, a),
                    ) by {
                        lemma_row_untouched(before, storage, width as int, a, i as int, k as int);
                        assert(stored_row(storage, width as int, a) == stored_row(
                            before,
                            width as int,
                            a,
                        ));
                    }
                }
            }
            proof {
                crate::distance::lemma_size_bound(*distance_matrix);
                lemma_new_row_ok(
                    *distance_matrix,
                    i as int,
                    sorted@,
                    stored_row(storage, width as int, i as int),
                    storage,
                    width as int,
                );
            }
        }
        let c = CorrelationMatrix { storage, width };
        proof {
            assert forall|i: int| 0 <= i < c.spec_size() implies candidate_row_ok(
                *distance_matrix,
                i,
                #[trigger] c.row_view(i),
            ) by {
                assert(c.row_view(i) == stored_row(storage, width as int, i));
            }
        }
        c
    }

    /// The full candidate list for `index`.
    pub fn get(&self, index: usize) -> (r: &[usize])
        requires
            self.wf(),
            index < self.spec_size(),
        ensures
            r@ == self.row_view(index as int),
    {
        let r = self.slice(index, 0, self.width);
        proof {
            self.lemma_row_in_block(index as int);
            assert(r@ =~= self.row_view(index as int));
        }
        r
    }

    /// The first `number` entries of the candidate list for `index`.
    pub fn top_slice(&self, index: usize, number: usize) -> (r: &[usize])
        requires
            self.wf(),
            index < self.spec_size(),
            number <= self.spec_width(),
        ensures
            r@ == self.row_view(index as int).subrange(0, number as int),
    {
        let r = self.slice(index, 0, number);
        proof {
            self.lemma_row_in_block(index as int);
            assert(r@ =~= self.row_view(index as int).subrange(0, number as int));
        }
        r
    }

    /// Row `i`'s cells lie inside the block.
    proof fn lemma_row_in_block(self, i: int)
        requires
            self.wf(),
            0 <= i < self.spec_size(),
        ensures
            0 <= i * self.spec_width(),
            i * self.spec_width() + self.spec_width() <= self.storage@.len(),
    {
        let w = self.spec_width();
        vstd::arithmetic::mul::lemma_mul_inequality(0, i, w);
        vstd::arithmetic::mul::lemma_mul_inequality(i + 1, self.spec_size(), w);
        assert((i + 1) * w == i * w + w) by (nonlinear_arith);
    }

    /// Reads `number` entries of row `row` starting at column `start`.
    fn slice(&self, row: usize, start: usize, number: usize) -> (r: &[usize])
        requires
            self.wf(),
            row < self.spec_size(),
            start + number <= self.spec_width(),
        ensures
            r@ == self.storage@.subrange(
                row * self.spec_width() + start,
                row * self.spec_width() + start + number,
            ),
    {
        proof {
            vstd::arithmetic::mul::lemma_mul_inequality(
                row as int + 1,
                self.spec_size(),
                self.spec_width(),
            );
            assert((row + 1) * self.spec_width() == row * self.spec_width() + self.spec_width())
                by (nonlinear_arith);
        }
        self.storage.slice(row, start, number)
    }
}

/// Updating a cell of row `i` leaves every earlier row's contents unchanged.
proof fn lemma_row_untouched(
    before: Matrix<usize>,
    after: Matrix<usize>,
    width: int,
    a: int,
    i: int,
    k: int,
)
    requires
        before.wf(),
        after.wf(),
        0 < width,
        before.spec_cols() == width,
        after.spec_cols() == width,
        after.spec_rows() == before.spec_rows(),
        0 <= a < i < before.spec_rows(),
        0 <= k < width,
        after@ == before@.update(i * width + k, after.spec_get(i, k)),
    ensures
        stored_row(after, width, a) == stored_row(before, width, a),
{
    let rows = before.spec_rows();
    vstd::arithmetic::mul::lemma_mul_inequality(a + 1, i, width);
    vstd::arithmetic::mul::lemma_mul_inequality(i + 1, rows, width);
    assert((a + 1) * width == a * width + width) by (nonlinear_arith);
    assert((i + 1) * width == i * width + width) by (nonlinear_arith);
    vstd::arithmetic::mul::lemma_mul_inequality(0, a, width);
    assert(a * width + width <= i * width);
    assert(before@.len() == rows * width);
    assert forall|m: int| 0 <= m < width implies stored_row(after, width, a)[m] == stored_row(
        before,
        width,
        a,
    )[m] by {
        assert(a * width + m < i * width + k);
        assert(after@[a * width + m] == before@[a * width + m]);
    }
    assert(stored_row(after, width, a) =~= stored_row(before, width, a));
}

/// What sorting the candidate pairs of node `i` guarantees: the result has
/// one entry per other node, every entry is a genuine (distance, index) pair
/// for node `i`, and no entry repeats.
proof fn lemma_sorted_candidates(dm: DistanceMatrix, i: int, s: Seq<(u64, usize)>)
    requires
        dm.spec_size() >= 2,
        dm.spec_size() <= usize::MAX,
        0 <= i < dm.spec_size(),
        s.to_multiset() == cand_seq(dm, i).to_multiset(),
    ensures
        s.len() == dm.spec_size() - 1,
        forall|p: int| 0 <= p < s.len() ==> elem_ok(dm, i, #[trigger] s[p]),
        s.no_duplicates(),
{
    broadcast use vstd::seq_lib::group_to_multiset_ensures;

    let c = cand_seq(dm, i);
    assert(s.len() == s.to_multiset().len());
    assert(c.len() == c.to_multiset().len());
    assert forall|p: int| 0 <= p < s.len() implies elem_ok(dm, i, #[trigger] s[p]) by {
        assert(s.contains(s[p]));
        assert(c.to_multiset().count(s[p]) > 0);
        assert(c.contains(s[p]));
        let q = choose|q: int| 0 <= q < c.len() && c[q] == s[p];
        assert(elem_ok(dm, i, c[q]));
    }
    assert(c.no_duplicates()) by {
        assert forall|p: int, q: int|
            0 <= p < c.len() && 0 <= q < c.len() && p != q implies c[p] != c[q] by {
            assert(c[p].1 != c[q].1);
        }
    }
    c.lemma_multiset_has_no_duplicates();
    s.lemma_multiset_has_no_duplicates_conv();
}

/// After the first `width` sorted candidate indices are written into row
/// `i`, that row is a correct candidate list for node `i`.
proof fn lemma_new_row_ok(
    dm: DistanceMatrix,
    i: int,
    s: Seq<(u64, usize)>,
    row: Seq<usize>,
    storage: Matrix<usize>,
    width: int,
)
    requires
        dm.spec_size() >= 2,
        dm.spec_size() <= usize::MAX,
        0 <= i < dm.spec_size(),
        width == spec_width(dm.spec_size()),
        s.to_multiset() == cand_seq(dm, i).to_multiset(),
        s.len() == dm.spec_size() - 1,
        forall|p: int| 0 <= p < s.len() ==> elem_ok(dm, i, #[trigger] s[p]),
        s.no_duplicates(),
        forall|p: int, q: int| #![trigger s[p], s[q]] 0 <= p < q < s.len() ==> pair_le(s[p], s[q]),
        storage.wf(),
        storage.spec_cols() == width,
        storage.spec_rows() == dm.spec_size(),
        row == stored_row(storage, width, i),
        forall|m: int| 0 <= m < width ==> #[trigger] storage.spec_get(i, m) == s[m].1,
    ensures
        candidate_row_ok(dm, i, row),
{
    broadcast use vstd::seq_lib::group_to_multiset_ensures;

    let n = dm.spec_size();
    vstd::arithmetic::mul::lemma_mul_inequality(i + 1, n, width);
    assert((i + 1) * width == i * width + width) by (nonlinear_arith);
    vstd::arithmetic::mul::lemma_mul_inequality(0, i, width);
    assert(row.len() == width);
    assert forall|k: int| 0 <= k < width implies #[trigger] row[k] == s[k].1 by {
        assert(row[k] == storage@[i * width + k]);
        assert(storage.spec_get(i, k) == storage@[i * width + k]);
    }
    assert forall|k: int| 0 <= k < width implies #[trigger] row[k] < n && row[k] != i by {
        assert(elem_ok(dm, i, s[k]));
    }
    assert forall|k: int, l: int|
        #![trigger row[k], row[l]]
        0 <= k < l < width implies pair_le(
        (dm.spec_dist(i, row[k] as int), row[k]),
        (dm.spec_dist(i, row[l] as int), row[l]),
    ) by {
        assert(elem_ok(dm, i, s[k]));
        assert(elem_ok(dm, i, s[l]));
        assert(s[k] == (dm.spec_dist(i, row[k] as int), row[k]));
        assert(s[l] == (dm.spec_dist(i, row[l] as int), row[l]));
    }
    assert(row.no_duplicates()) by {
        assert forall|k: int, l: int|
            0 <= k < row.len() && 0 <= l < row.len() && k != l implies row[k] != row[l] by {
            assert(elem_ok(dm, i, s[k]));
            assert(elem_ok(dm, i, s[l]));
            if row[k] == row[l] {
                assert(s[k] == s[l]);
            }
        }
    }
    assert forall|j: usize, k: int|
        #![trigger row.contains(j), row[k]]
        j < n && j != i && !row.contains(j) && 0 <= k < width implies pair_le(
        (dm.spec_dist(i, row[k] as int), row[k]),
        (dm.spec_dist(i, j as int), j),
    ) by {
        let c = cand_seq(dm, i);
        let e = (dm.spec_dist(i, j as int), j);
        let jj: int = if j < i {
            j as int
        } else {
            j as int - 1
        };
        assert(c[jj] == e);
        assert(c.contains(e));
        assert(s.to_multiset().count(e) > 0);
        assert(s.contains(e));
        let p = choose|p: int| 0 <= p < s.len() && s[p] == e;
        if p < width {
            assert(row[p] == j);
            assert(row.contains(j));
        }
        assert(width <= p < s.len());
        assert(elem_ok(dm, i, s[k]));
        assert(s[k] == (dm.spec_dist(i, row[k] as int), row[k]));
        if k < p {
            assert(pair_le(s[k], s[p]));
        }
    }
}

} // verus!
