use vstd::prelude::*;

verus! {

/// Capacity in slots of an index built from a fresh configuration.
pub const DEFAULT_MAX_ELEMENTS: usize = 10000;

/// Construction parameters of an index.
#[derive(Clone, Debug)]
pub struct HnswIndexConfig {
    pub max_elements: usize,
    pub m: usize,
    pub ef_construction: usize,
    pub ef_search: usize,
    pub random_seed: usize,
    pub persist_path: Option<String>,
}

/// Why a configuration could not be built.
#[derive(Clone, Debug, PartialEq, Eq)]
pub enum HnswIndexConfigError {
    MissingConfig(String),
}

/// The declared standard path type, carried through opaquely.
#[verifier::external_type_specification]
#[verifier::external_body]
pub struct ExPath(std::path::Path);

/// The text of a path, or `None` where it is not valid Unicode; which paths
/// those are depends on the path alone.
pub uninterp spec fn path_text(p: &std::path::Path) -> Option<Seq<char>>;

/// Relies on `std::path::Path::to_str`: the path as text, or `None` where it
/// is not valid Unicode.
#[verifier::external_body]
fn path_to_str(p: &std::path::Path) -> (r: Option<String>)
    ensures
        r is Some <==> path_text(p) is Some,
        r is Some ==> r->Some_0@ == path_text(p)->Some_0,
{
    p.to_str().map(|s| s.to_string())
}

impl HnswIndexConfig {
    /// A configuration for an index that lives in memory only.
    pub fn new_ephemeral(m: usize, ef_construction: usize, ef_search: usize) -> (r: Self)
        ensures
            r.max_elements == DEFAULT_MAX_ELEMENTS,
            r.m == m,
            r.ef_construction == ef_construction,
            r.ef_search == ef_search,
            r.random_seed == 0,
            r.persist_path is None,
    {
        HnswIndexConfig {
            max_elements: DEFAULT_MAX_ELEMENTS,
            m,
            ef_construction,
            ef_search,
            random_seed: 0,
            persist_path: None,
        }
    }

    /// A configuration for an index saved under `persist_path`. A path that
    /// is not valid text is reported as a missing `persist_path`.
    pub fn new_persistent(
        m: usize,
        ef_construction: usize,
        ef_search: usize,
        persist_path: &std::path::Path,
    ) -> (r: Result<Self, Box<HnswIndexConfigError>>)
        ensures
            r is Ok <==> path_text(persist_path) is Some,
            r is Ok ==> persistent_config(r->Ok_0, m, ef_construction, ef_search)
                && r->Ok_0.persist_path->Some_0@ == path_text(persist_path)->Some_0,
            r is Err ==> is_missing_path(*r->Err_0),
    {
        let s = path_to_str(persist_path);
        Self::from_path_str(m, ef_construction, ef_search, s)
    }

    /// The persistent configuration for the path text `path`, as read from a
    /// path: `None` stands for a path that is not valid text.
    pub fn from_path_str(
        m: usize,
        ef_construction: usize,
        ef_search: usize,
        path: Option<String>,
    ) -> (r: Result<Self, Box<HnswIndexConfigError>>)
        ensures
            path is Some <==> r is Ok,
            r is Ok ==> persistent_config(r->Ok_0, m, ef_construction, ef_search)
                && r->Ok_0.persist_path->Some_0@ == path->Some_0@,
            r is Err ==> is_missing_path(*r->Err_0),
    {
        match path {
            Some(p) => Ok(HnswIndexConfig {
                max_elements: DEFAULT_MAX_ELEMENTS,
                m,
                ef_construction,
                ef_search,
                random_seed: 0,
                persist_path: Some(p),
            }),
            None => {
                let name = "persist_path".to_string();
                proof {
                    reveal_strlit("persist_path");
                }
                Err(Box::new(HnswIndexConfigError::MissingConfig(name)))
            },
        }
    }
}

/// `c` holds the given parameters, the default capacity, seed zero and a path.
pub open spec fn persistent_config(
    c: HnswIndexConfig,
    m: usize,
    ef_construction: usize,
    ef_search: usize,
) -> bool {
    &&& c.max_elements == DEFAULT_MAX_ELEMENTS
    &&& c.m == m
    &&& c.ef_construction == ef_construction
    &&& c.ef_search == ef_search
    &&& c.random_seed == 0
    &&& c.persist_path is Some
}

/// `e` reports that the persist path is missing.
pub open spec fn is_missing_path(e: HnswIndexConfigError) -> bool {
    match e {
        HnswIndexConfigError::MissingConfig(name) => name@ == "persist_path"@,
    }
}

} // verus!
