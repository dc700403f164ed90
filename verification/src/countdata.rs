//! Descriptions of the on-disk count matrices, reductions and metadata
//! columns, and the request shapes that fetch them. The columnar reader
//! itself is an external collaborator; these are its interface types.

#![allow(unused_imports)]
use vstd::prelude::*;

verus! {

/// Pointers into a sparse count matrix stored on disk.
#[derive(Clone, Debug, PartialEq)]
pub struct CountFileMat {
    pub list_feature_names: Vec<String>,
    pub list_indptr: Vec<u32>,
    /// Feature name to its row, filled by `build_map`.
    pub map_feature_names_pos: Vec<(String, usize)>,
}

impl CountFileMat {
    /// Fill the name-to-row table: one entry per feature name, in order,
    /// mapping it to its position.
    pub fn build_map(&mut self)
        ensures
            final(self).map_feature_names_pos@.len() == old(self).list_feature_names@.len(),
            forall|i: int|
                0 <= i < old(self).list_feature_names@.len()
                    ==> #[trigger] final(self).map_feature_names_pos@[i] == (
                old(self).list_feature_names@[i],
                i as usize,
                ),
            final(self).list_feature_names == old(self).list_feature_names,
            final(self).list_indptr == old(self).list_indptr,
    {
        self.map_feature_names_pos = Vec::new();
        let n = self.list_feature_names.len();
        let mut i: usize = 0;
        while i < n
            invariant
                n == self.list_feature_names@.len(),
                self.list_feature_names == old(self).list_feature_names,
                self.list_indptr == old(self).list_indptr,
                0 <= i <= n,
                self.map_feature_names_pos@.len() == i,
                forall|j: int|
                    0 <= j < i ==> (#[trigger] self.map_feature_names_pos@[j]) == (
                    self.list_feature_names@[j],
                    j as usize,
                ),
            decreases n - i,
        {
            let name = self.list_feature_names[i].clone();
            proof {
                assert(name@ == self.list_feature_names@[i as int]@);
            }
            self.map_feature_names_pos.push((name, i));
            i += 1;
        }
    }
}

/// Size of one stored reduction.
#[derive(Clone, Copy, Debug, PartialEq, Eq, Structural)]
pub struct CountFileRed {
    pub num_sample: usize,
    pub num_dim: usize,
}

/// What one metadata column holds.
#[derive(Clone, Debug, PartialEq)]
pub enum CountFileMetaColumnDesc {
    Numeric(),
    Categorical(Vec<String>),
}

/// The metadata columns of a dataset, by name.
#[derive(Clone, Debug, PartialEq)]
pub struct CountFileMeta {
    pub names: Vec<String>,
    pub columns: Vec<CountFileMetaColumnDesc>,
}

/// Request for the coordinates of one reduction.
#[derive(Clone, Debug, PartialEq)]
pub struct ReductionRequest {
    pub reduction_name: String,
}

/// Request for one feature's counts in one count table.
#[derive(Clone, Debug, PartialEq)]
pub struct FeatureCountsRequest {
    pub counts_name: String,
    pub feature_name: String,
}

/// Request for one metadata column.
#[derive(Clone, Debug, PartialEq)]
pub struct MetadataColumnRequest {
    pub column_name: String,
}

/// Request for the dataset description.
#[derive(Clone, Debug, PartialEq)]
pub struct DatasetDescRequest {
}

/// The dataset description: count matrices, reductions and metadata columns
/// by name.
#[derive(Clone, Debug, PartialEq)]
pub struct DatasetDescResponse {
    pub matrices: Vec<(String, CountFileMat)>,
    pub reductions: Vec<(String, CountFileRed)>,
    pub meta: Vec<(String, CountFileMetaColumnDesc)>,
}

impl DatasetDescResponse {
    /// An empty description.
    pub fn new() -> (r: DatasetDescResponse)
        ensures
            r.matrices@ == Seq::<(String, CountFileMat)>::empty(),
            r.reductions@ == Seq::<(String, CountFileRed)>::empty(),
            r.meta@ == Seq::<(String, CountFileMetaColumnDesc)>::empty(),
    {
        let r = DatasetDescResponse {
            matrices: Vec::new(),
            reductions: Vec::new(),
            meta: Vec::new(),
        };
        proof {
            assert(r.matrices@ =~= Seq::<(String, CountFileMat)>::empty());
            assert(r.reductions@ =~= Seq::<(String, CountFileRed)>::empty());
            assert(r.meta@ =~= Seq::<(String, CountFileMetaColumnDesc)>::empty());
        }
        r
    }
}

/// The backend's configuration: where to listen, and where the data lives.
#[derive(Clone, Debug, PartialEq)]
pub struct ConfigFile {
    pub bind: String,
    pub datadir: String,
    pub gff: Option<String>,
}

/// A set of shard files that together hold one dataset's cells.
#[derive(Clone, Debug, PartialEq)]
pub struct ShardSet {
    pub lst: Vec<String>,
    pub list_cells: Vec<String>,
}

/// The indexed files of a data directory, by name.
#[derive(Clone, Debug, PartialEq)]
pub struct ListFiles {
    pub files: Vec<(String, ShardSet)>,
}

} // verus!
