//! Configuration for one synchronization run: which target catalogs to
//! bring in line with which pinned catalogs, where the metadata service
//! lives, and the query-generation policy.

use vstd::prelude::*;
use crate::querygen::QueryGen;

verus! {

/// One sync entry: a target catalog and the pinned catalogs it is compared
/// against and synchronized from.
pub struct SyncEntry {
    pub catalog: String,
    pub pinned_catalogs: Vec<String>,
}

/// A whole run's configuration.
pub struct SyncConfig {
    pub catalogs: Vec<SyncEntry>,
    pub host: String,
    pub pat: String,
    pub generation_config: QueryGen,
}

} // verus!
