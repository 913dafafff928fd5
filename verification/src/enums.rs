use vstd::prelude::*;

verus! {

/// For each cell of the cost table an action is recorded: which neighbouring
/// cell the optimal alignment reaches this cell from.
#[derive(Copy, Clone, Debug, PartialEq, Eq, Structural)]
pub enum Action {
    /// The cell builds on the cell above: a sample is inserted into X to align it to Y.
    Inserted,
    /// The cell builds on the cell to the left: a sample is deleted from X to align it to Y.
    Deleted,
    /// The cell builds on the cell above and to the left: the samples are aligned.
    Matched,
    /// No action has been recorded for the cell.
    Unknown,
}

impl Default for Action {
    fn default() -> (action: Self)
        ensures
            action == Action::Unknown,
    {
        Action::Unknown
    }
}

/// Selects the local cost of a cell: the absolute difference of the two samples
/// (Manhattan) or their squared difference (Euclidean).
#[derive(Copy, Clone, Debug, PartialEq, Eq, Structural)]
pub enum DistanceMode {
    Manhattan,
    Euclidean,
}

} // verus!
