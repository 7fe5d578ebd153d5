//! The derived SQLite index: its identity guard, the locked connection
//! settings, integrity and statistics reports, the sync input model, and the
//! query result types with the row logic of the agenda and dashboard.
//!
//! Every SQL statement runs outside this library; what is decided here is
//! what the statements' results mean.
pub mod agenda;
pub mod connection;
pub mod dashboard;
pub mod identity;
pub mod integrity;
pub mod query;
pub mod stats;
pub mod sync;
