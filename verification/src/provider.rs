use vstd::prelude::*;

use crate::correlation::CorrelationMatrix;
use crate::correlation::candidate_row_ok;
use crate::correlation::spec_width;
use crate::distance::DistanceMatrix;
use crate::distance::DistanceMatrixBuilder;
use crate::distance::max_ok;
use crate::distance::rows_view;
use crate::distance::upper_shape;

verus! {

/// Composition root: given the pairwise distance table of a problem's
/// locations and the configuration, decides the precompute strategy, builds
/// the distance matrix and derives the candidate lists, and owns the
/// immutable pair for downstream consumers.
pub struct MatrixProvider {
    pub distance: DistanceMatrix,
    pub correlation: CorrelationMatrix,
}

impl MatrixProvider {
    /// Builds both matrices for `n >= 2` locations. The full square matrix
    /// is precomputed exactly when `n - 1` lies below the configured size
    /// limit; `round_distances` records that the supplied keys stand for
    /// rounded distances.
    pub fn new(
        distances: Vec<Vec<u64>>,
        precompute_distance_size_limit: usize,
        round_distances: bool,
    ) -> (p: MatrixProvider)
        requires
            upper_shape(rows_view(distances)),
            rows_view(distances).len() >= 2,
            rows_view(distances).len() * rows_view(distances).len() <= usize::MAX,
        ensures
            p.distance.wf(),
            p.distance.pairs_view() == rows_view(distances),
            p.distance.spec_size() == rows_view(distances).len(),
            p.distance.spec_precomputed() == (rows_view(distances).len() - 1
                < precompute_distance_size_limit),
            p.distance.spec_rounded() == round_distances,
            max_ok(
                p.distance.pairs_view(),
                p.distance.spec_precomputed(),
                p.distance.max_view(),
            ),
            p.correlation.wf(),
            p.correlation.spec_size() == p.distance.spec_size(),
            p.correlation.spec_width() == spec_width(p.distance.spec_size()),
            forall|i: int|
                0 <= i < p.correlation.spec_size() ==> candidate_row_ok(
                    p.distance,
                    i,
                    #[trigger] p.correlation.row_view(i),
                ),
    {
        let n = distances.len();
        let precompute = n - 1 < precompute_distance_size_limit;
        let distance = DistanceMatrixBuilder::new().distances(distances).precompute(
            precompute,
        ).rounded(round_distances).build();
        let correlation = CorrelationMatrix::new(&distance);
        MatrixProvider { distance, correlation }
    }
}

} // verus!
