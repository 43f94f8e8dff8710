//! Watches a page of vaccination-booking availability: extracts booking
//! records from its markup, keeps a snapshot of what was last seen, reports
//! what is new or changed, and ranks it for display.

pub mod location;
pub mod grammar;
pub mod page;
pub mod snapshot;
pub mod ranking;
pub mod watch;
