use vstd::prelude::*;

verus! {

/// A handle to a database, named by its URL.
pub struct Database {
    pub url: String,
}

impl Database {
    /// Opens the database at `url`. Nothing is read yet: the handle only
    /// remembers where the database lives.
    pub fn open(url: String) -> (db: Database)
        ensures
            db.url@ == url@,
    {
        Database { url }
    }

    /// Closes the handle. The handle holds no resources of its own.
    pub fn close(&self) {
    }
}

/// The outcome of running a statement: a result with no rows and no columns
/// until execution is handed to a work queue.
pub struct ResultSet {}

impl ResultSet {
    /// Waits for the execution behind this result to complete. Execution is
    /// immediate, so there is nothing to wait for.
    pub fn wait(&self) {
    }

    /// The number of rows in the result.
    pub fn row_count(&self) -> (n: i32)
        ensures
            n == 0,
    {
        0
    }

    /// The number of columns in the result.
    pub fn column_count(&self) -> (n: i32)
        ensures
            n == 0,
    {
        0
    }
}

} // verus!
