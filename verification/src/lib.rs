//! Work-time ledger.
//!
//! Work sessions are recorded as alternating check-in and check-out stamps
//! in a [`db::Ledger`]. The [`app::App`] guards the transitions between
//! "checked in" and "checked out" and sums the time worked since a given
//! instant.

pub mod app;
pub mod db;
pub mod time;
