//! A crash-resumable harvester of build-descriptor files from repositories
//! behind a rate-limited remote API: credential rotation, cursor-driven
//! pagination, batched detail queries, per-repository file harvesting, and
//! durable crawl state (cursor, completion ledger, result sink).
//!
//! The decision and bookkeeping logic lives here, verified; the network and
//! filesystem edges hand plain values in and out.
use vstd::prelude::*;

pub mod analyzer;
pub mod api;
pub mod data;
pub mod harvest;
pub mod ledger;
pub mod numeric;
pub mod pool;
pub mod scanner;
pub mod sink;
pub mod state;
pub mod strutil;
pub mod subset;

verus! {

/// A repository as the detail stage hands it to the harvester: the opaque
/// node identifier and the `owner/name` full name.
pub struct Repo {
    pub id: String,
    pub name: String,
}

/// One row of the result sink: a repository and whether at least one
/// matching file was found for it.
pub struct CsvRepo {
    pub id: String,
    pub name: String,
    pub has_pom: bool,
}

impl Repo {
    /// The directory name a repository's files are stored under: the full
    /// name with every `/` replaced by `.`.
    pub fn path(&self) -> (r: String)
        ensures
            r@ == strutil::replaced(self.name@, '/', '.'),
    {
        strutil::sanitize_name(self.name.as_str())
    }

    pub fn to_csv_repo(self, has_pom: bool) -> (r: CsvRepo)
        ensures
            r.id == self.id,
            r.name == self.name,
            r.has_pom == has_pom,
    {
        CsvRepo { id: self.id, name: self.name, has_pom }
    }

    pub fn clone(&self) -> (r: Repo)
        ensures
            r == *self,
    {
        Repo { id: self.id.clone(), name: self.name.clone() }
    }
}

impl CsvRepo {
    pub fn clone(&self) -> (r: CsvRepo)
        ensures
            r == *self,
    {
        CsvRepo { id: self.id.clone(), name: self.name.clone(), has_pom: self.has_pom }
    }
}

impl vstd::std_specs::convert::FromSpecImpl<CsvRepo> for Repo {
    open spec fn obeys_from_spec() -> bool {
        true
    }

    open spec fn from_spec(value: CsvRepo) -> Repo {
        Repo { id: value.id, name: value.name }
    }
}

impl From<CsvRepo> for Repo {
    fn from(value: CsvRepo) -> (r: Repo) {
        Repo { id: value.id, name: value.name }
    }
}

} // verus!
