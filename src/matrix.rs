use vstd::prelude::*;

verus! {

/// The fixed-point value that stands for 1.0 in a feature matrix.
pub const FEATURE_ONE: u32 = 1000;

/// The largest number of columns a feature matrix may have.
pub const MAX_FEATURE_LEN: usize = 1048576;

/// Every entry lies in `[0, FEATURE_ONE]`.
pub open spec fn entries_bounded(x: Seq<u32>) -> bool {
    forall|t: int| 0 <= t < x.len() ==> #[trigger] x[t] <= FEATURE_ONE
}

/// A dense matrix of fixed-point features in `[0, 1]`, one row per catalog item.
/// `vocabularies` holds, for each categorical column, the sorted values that its
/// one-hot block stands for.
pub struct FeatureMatrix {
    pub rows: Vec<Vec<u32>>,
    pub ncols: usize,
    pub vocabularies: Vec<Vec<String>>,
}

impl FeatureMatrix {
    pub open spec fn rows_view(&self) -> Seq<Seq<u32>> {
        self.rows@.map_values(|r: Vec<u32>| r@)
    }

    pub open spec fn wf(&self) -> bool {
        &&& self.ncols <= MAX_FEATURE_LEN
        &&& forall|r: int|
            0 <= r < self.rows@.len() ==> {
                &&& (#[trigger] self.rows@[r])@.len() == self.ncols
                &&& entries_bounded(self.rows@[r]@)
            }
    }

    /// Number of rows.
    pub fn nrows(&self) -> (r: usize)
        ensures
            r == self.rows@.len(),
    {
        self.rows.len()
    }

    /// Number of columns.
    pub fn ncols(&self) -> (r: usize)
        ensures
            r == self.ncols,
    {
        self.ncols
    }
}

} // verus!
