//! A per-client fair scheduler that sits between a database server's
//! front-ends and its pool of workers, with the small database handle types
//! that go with it.

pub mod database;
pub mod hrana;
pub mod channel;
pub mod scheduler;
