//! Records exchanged with the surrounding index catalog.
//!
//! The catalog that registers indexes against dataset columns is an
//! external collaborator; these records only carry the plain fields it
//! stores for an index entry.  They cover the sibling vector index that
//! shares the catalog with this substring index, so a dataset's whole
//! index registry can be described with one set of types.

use vstd::prelude::*;

verus! {

/// A handle to a registered vector index sharing the catalog: the
/// storage uuid it lives under and its serialized artifact.
pub struct CagraIndex {
    pub uuid: String,
    pub index: String,
}

impl CagraIndex {
    /// Wraps the identifying fields of a registered index.
    pub fn new(uuid: String, index: String) -> (r: Self)
        ensures
            r.uuid@ == uuid@,
            r.index@ == index@,
    {
        CagraIndex { uuid, index }
    }
}

/// The statistics record the catalog reports for such an index.
pub struct CagraIndexStatistics {
    pub index_type: String,
}

/// The catalog metadata recorded for a registered index: its name, the
/// column it was built for, the dataset version at build time, and the
/// build parameters.
pub struct CagraIndexMetaData {
    pub name: String,
    pub column: String,
    pub dataset_version: u64,
    pub metric: String,
    pub algo: String,
    pub dimension: u32,
}

impl CagraIndexMetaData {
    /// Assembles a catalog metadata record from its fields.
    pub fn new(
        name: String,
        column: String,
        dataset_version: u64,
        metric: String,
        algo: String,
        dimension: u32,
    ) -> (r: Self)
        ensures
            r.name@ == name@,
            r.column@ == column@,
            r.dataset_version == dataset_version,
            r.metric@ == metric@,
            r.algo@ == algo@,
            r.dimension == dimension,
    {
        CagraIndexMetaData { name, column, dataset_version, metric, algo, dimension }
    }
}

} // verus!
