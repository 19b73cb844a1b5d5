//! SQLite storage facade for targets without a platform storage backend:
//! every database operation reports that storage is unavailable, and
//! reactive queries hold the results they are given.

use vstd::prelude::*;

verus! {

/// The message of every storage operation on these targets.
pub open spec fn unsupported_message() -> Seq<char> {
    "SQLite on this target requires a platform storage backend"@
}

fn unsupported() -> (s: String)
    ensures
        s@ == unsupported_message(),
{
    "SQLite on this target requires a platform storage backend".to_owned()
}

/// A query result list that is re-fetched when invalidated.
pub struct ReactiveQuery<T> {
    result: Vec<T>,
    version: u64,
}

impl<T> ReactiveQuery<T> {
    /// The current results.
    pub closed spec fn results(&self) -> Seq<T> {
        self.result@
    }

    /// How often the query was invalidated.
    pub closed spec fn version(&self) -> u64 {
        self.version
    }

    /// Marks the cached results stale.
    pub fn invalidate(&mut self)
        requires
            old(self).version() < u64::MAX,
        ensures
            final(self).version() == old(self).version() + 1,
            final(self).results() == old(self).results(),
    {
        self.version = self.version + 1;
    }

    /// Re-runs the query with `fetch` and stores its results.
    pub fn refresh<F: Fn() -> Vec<T>>(&mut self, fetch: F)
        requires
            fetch.requires(()),
        ensures
            exists|v: Vec<T>| #[trigger] fetch.ensures((), v) && final(self).results() == v@,
            final(self).version() == old(self).version(),
    {
        let v = fetch();
        let ghost fetched = v;
        self.result = v;
        assert(fetch.ensures((), fetched) && self.result@ == fetched@);
    }
}

impl<T: Clone> ReactiveQuery<T> {
    /// A clone of the current results.
    pub fn get(&self) -> (r: Vec<T>)
        ensures
            r@.len() == self.results().len(),
            forall|i: int| 0 <= i < r@.len() ==> cloned(self.results()[i], #[trigger] r@[i]),
    {
        self.result.clone()
    }
}

/// A reactive query seeded with `initial_results`.
pub fn use_reactive_query<T>(initial_results: Vec<T>) -> (q: ReactiveQuery<T>)
    ensures
        q.results() == initial_results@,
        q.version() == 0,
{
    ReactiveQuery { result: initial_results, version: 0 }
}

/// A database handle; no database can be opened on these targets.
pub struct Database;

impl Database {
    /// Opening a database fails: there is no storage backend.
    pub fn open(path: &str) -> (r: Result<Database, String>)
        ensures
            r matches Err(e) && e@ == unsupported_message(),
    {
        Err(unsupported())
    }

    /// Executing a statement fails: there is no storage backend.
    pub fn execute(&self, sql: &str) -> (r: Result<usize, String>)
        ensures
            r matches Err(e) && e@ == unsupported_message(),
    {
        Err(unsupported())
    }

    /// Executing with parameters fails: there is no storage backend.
    pub fn execute_with<T>(&self, sql: &str, params: &[T]) -> (r: Result<usize, String>)
        ensures
            r matches Err(e) && e@ == unsupported_message(),
    {
        Err(unsupported())
    }

    /// Querying fails: there is no storage backend.
    pub fn query<T, F: Fn(()) -> Result<T, String>>(&self, sql: &str, map_row: F) -> (r: Result<Vec<T>, String>)
        ensures
            r matches Err(e) && e@ == unsupported_message(),
    {
        Err(unsupported())
    }

    /// Querying with parameters fails: there is no storage backend.
    pub fn query_with<T, P, F: Fn(()) -> Result<T, String>>(&self, sql: &str, params: &[P], map_row: F) -> (r: Result<Vec<T>, String>)
        ensures
            r matches Err(e) && e@ == unsupported_message(),
    {
        Err(unsupported())
    }

    /// Applying migrations fails: there is no storage backend.
    pub fn migrate(&self, migrations: &[(u32, &str)]) -> (r: Result<(), String>)
        ensures
            r matches Err(e) && e@ == unsupported_message(),
    {
        Err(unsupported())
    }

    /// The storage path of `filename`: the file name itself.
    pub fn documents_path(filename: &str) -> (r: String)
        ensures
            r@ == filename@,
    {
        filename.to_owned()
    }
}

} // verus!
