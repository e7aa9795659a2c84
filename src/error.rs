use vstd::prelude::*;

verus! {

/// What was wrong with an argument.
#[derive(Debug, PartialEq, Eq)]
pub enum Invalid {
    /// Pages are numbered from 1.
    PageZero,
    /// A page holds at least one card.
    PageSizeZero,
    /// A neighbor or cluster count must be positive.
    ZeroK,
    /// Clustering runs at least one iteration.
    ZeroIterations,
    /// A vector whose length is not the store's dimension.
    Dimension { expected: usize, found: usize },
    /// One cluster assignment is owed for each point.
    AssignmentCount { assignments: usize, points: usize },
}

/// The failures that the library reports.
#[derive(Debug, PartialEq, Eq)]
pub enum CoreError {
    /// A bad page, page size, cluster count or vector dimension.
    Validation(Invalid),
    /// Clustering asked for more clusters than there are points, or found no points.
    ClusteringPrecondition { k: usize, point_count: usize },
    /// The embedding model could not be loaded or failed on the text.
    UpstreamUnavailable { message: String },
    /// The underlying persistence failed.
    Store { message: String },
}

} // verus!
