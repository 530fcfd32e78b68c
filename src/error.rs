use vstd::prelude::*;

verus! {

/// Failures of the colony's public operations.
#[derive(Debug, Clone, Copy, PartialEq, Eq, Structural)]
pub enum ColonyError {
    /// The cost matrix is not square.
    InvalidDimension,
}

/// Checks that a cost matrix of `rows` by `cols` is square, and gives its size.
pub fn check_square(rows: usize, cols: usize) -> (r: Result<usize, ColonyError>)
    ensures
        rows == cols <==> r is Ok,
        r is Ok ==> r->Ok_0 == rows,
        rows != cols ==> r == Err::<usize, ColonyError>(ColonyError::InvalidDimension),
{
    if rows == cols {
        Ok(rows)
    } else {
        Err(ColonyError::InvalidDimension)
    }
}

} // verus!
