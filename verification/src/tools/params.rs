//! Parameters of the six tools, as the library receives them.
use vstd::prelude::*;

verus! {

/// Parameters for `search_symbols`: an optional case-insensitive name
/// substring and an optional kind (fn | method | struct | enum | trait |
/// mod | macro | other).
pub struct SearchSymbolsParams {
    pub name: Option<String>,
    pub kind: Option<String>,
}

/// Parameters for `find_references`: the exact symbol name.
pub struct FindReferencesParams {
    pub name: String,
}

/// Parameters for `call_graph`: root name, optional hop budget (default 3,
/// capped at 32), direction (`callees` | `callers` | `both`, default both),
/// and optional file/line disambiguators.
pub struct CallGraphParams {
    pub name: String,
    pub max_hops: Option<usize>,
    pub direction: Option<String>,
    pub file: Option<String>,
    pub line: Option<usize>,
}

/// Parameters for `blame_symbol`: exact name with optional file/line
/// disambiguators.
pub struct BlameSymbolParams {
    pub name: String,
    pub file: Option<String>,
    pub line: Option<usize>,
}

/// Parameters for `find_dead_code`: whether to include `pub` items
/// (default false) and a result limit (default 50, capped at 200).
pub struct FindDeadCodeParams {
    pub include_pub: Option<bool>,
    pub limit: Option<usize>,
}

/// Parameters for `repo_overview` (none).
pub struct RepoOverviewParams {}

} // verus!
