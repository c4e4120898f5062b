//! The closed set of errors that the index surfaces.

use vstd::prelude::*;

verus! {

/// Every failure of the engine is one of these kinds; functions that can fail
/// return `Result<_, ClusteredIndexError>`.
#[derive(Debug, Clone, PartialEq)]
pub enum ClusteredIndexError {
    /// Configuration is malformed, or a restore source is missing or corrupt.
    ConfigError(String),
    /// The dataset is unusable (for instance, empty).
    DataError(String),
    /// The relational metrics store reported an error.
    ResultDBError(String),
    /// An assignment entry referred to a point that does not exist.
    InvalidAssignment(usize),
    /// The sub-index refused to build for a cluster.
    PuffinnCreationError(String),
    /// The sub-index failed while answering a query.
    PuffinnSearchError(String),
    /// A non-brute-force cluster had no sub-index in its slot.
    IndexNotFound(),
    /// A sub-index returned a local id at least as large as the cluster size.
    IndexOutOfBounds(usize, usize),
    /// A local candidate id could not be mapped back to the dataset.
    IndexMappingError(u32),
    /// Writing the on-disk form of the index failed.
    SerializeError(String),
    /// Metrics were requested but are not enabled or could not be written.
    MetricsError(String),
}

impl ClusteredIndexError {
    /// Short name of the error kind, for reporting outside the library.
    pub fn kind_name(&self) -> (r: &'static str)
        ensures
            r == self.kind_name_spec(),
    {
        match self {
            ClusteredIndexError::ConfigError(_) => "ConfigError",
            ClusteredIndexError::DataError(_) => "DataError",
            ClusteredIndexError::ResultDBError(_) => "ResultDBError",
            ClusteredIndexError::InvalidAssignment(_) => "InvalidAssignment",
            ClusteredIndexError::PuffinnCreationError(_) => "PuffinnCreationError",
            ClusteredIndexError::PuffinnSearchError(_) => "PuffinnSearchError",
            ClusteredIndexError::IndexNotFound() => "IndexNotFound",
            ClusteredIndexError::IndexOutOfBounds(_, _) => "IndexOutOfBounds",
            ClusteredIndexError::IndexMappingError(_) => "IndexMappingError",
            ClusteredIndexError::SerializeError(_) => "SerializeError",
            ClusteredIndexError::MetricsError(_) => "MetricsError",
        }
    }

    pub open spec fn kind_name_spec(&self) -> &'static str {
        match self {
            ClusteredIndexError::ConfigError(_) => "ConfigError",
            ClusteredIndexError::DataError(_) => "DataError",
            ClusteredIndexError::ResultDBError(_) => "ResultDBError",
            ClusteredIndexError::InvalidAssignment(_) => "InvalidAssignment",
            ClusteredIndexError::PuffinnCreationError(_) => "PuffinnCreationError",
            ClusteredIndexError::PuffinnSearchError(_) => "PuffinnSearchError",
            ClusteredIndexError::IndexNotFound() => "IndexNotFound",
            ClusteredIndexError::IndexOutOfBounds(_, _) => "IndexOutOfBounds",
            ClusteredIndexError::IndexMappingError(_) => "IndexMappingError",
            ClusteredIndexError::SerializeError(_) => "SerializeError",
            ClusteredIndexError::MetricsError(_) => "MetricsError",
        }
    }
}

} // verus!
