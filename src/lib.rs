//! Resolution of a manifest's version requirements into one consistent set of
//! package versions: the version model, the exact-pin detector, the root
//! requirement builder, and the metadata cache and policy layer that a
//! conflict-driven solver drives.

pub mod error;
pub mod exact;
pub mod laws;
pub mod order;
pub mod package;
pub mod provider;
pub mod resolve;
pub mod root;
pub mod version;
