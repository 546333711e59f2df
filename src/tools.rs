//! Parameters of the operations that the query layer offers.

use vstd::prelude::*;

verus! {

/// Look up the items of a crate's documentation whose name holds a type name.
pub struct CheckCrateDocsParams {
    /// The crate whose documentation is searched.
    pub crate_name: String,
    /// The name to look for.
    pub wanted_type: String,
    /// The crate version; the latest one when absent.
    pub version: Option<String>,
}

/// The recorded hunks of one file.
pub struct GetFileChangesParams {
    pub file_path: String,
    /// How many hunks at most; five when absent.
    pub limit: Option<i64>,
}

/// Saved scaffolds: those whose description holds `query`, or the most recent.
pub struct ListScaffoldsParams {
    pub query: Option<String>,
    /// How many at most when listing the most recent; five when absent.
    pub limit: Option<i64>,
}

/// Review a source file.
pub struct ReviewFileParams {
    /// Path to the source file to review.
    pub file_path: String,
}

/// Save a scaffold.
pub struct SaveScaffoldParams {
    /// Description of the feature or project to build.
    pub description: String,
    /// The scaffold text.
    pub content: String,
}

/// Plan an implementation.
pub struct ScaffoldParams {
    /// Description of the feature or project to build.
    pub description: String,
}

/// Every hunk of one change group.
pub struct GetChangesByChangeIdParams {
    pub change_id: String,
}

/// The manual page of a command.
pub struct GetManPageParams {
    pub command: String,
}

/// One saved scaffold.
pub struct GetScaffoldParams {
    pub id: i64,
}

/// The most recent change groups.
pub struct ListRecentChangesParams {
    /// How many groups at most; five when absent.
    pub limit: Option<i64>,
}

/// How many records a listing shows when no limit is given.
pub const DEFAULT_LIST_LIMIT: i64 = 5;

/// The limit asked for, or the default one.
pub fn limit_or_default(limit: Option<i64>) -> (r: i64)
    ensures
        r == match limit {
            Some(n) => n,
            None => DEFAULT_LIST_LIMIT,
        },
{
    match limit {
        Some(n) => n,
        None => DEFAULT_LIST_LIMIT,
    }
}

} // verus!
