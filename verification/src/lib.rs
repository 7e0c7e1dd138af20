//! A depth-first link crawler's traversal engine.
//!
//! The library holds the frontier (visited and pending links), the rule that
//! admits a discovered link, and the decision taken for each fetched page.
//! Fetching and storing are left to the caller, which hands page bodies in and
//! takes the records to store back.

pub mod address;
pub mod collection;
pub mod document;
pub mod error;
pub mod laws;
pub mod links;
