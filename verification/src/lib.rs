//! Prediction of the Autonomous System path likely to be traversed between two
//! IPv4 endpoints, from a corpus of observed BGP routing announcements and,
//! optionally, inferred AS business relationships.
//!
//! The corpus maps each vantage point ("notifier") to a longest-prefix-match
//! table over IPv4 prefixes; a query joins the two observed paths toward the
//! source and the destination at their deepest shared AS, classifies the
//! joined path against the Gao-Rexford valley-free policy, and returns the
//! shortest acceptable candidate.

pub mod corpus;
pub mod index;
pub mod relations;
pub mod join;
pub mod parse;
pub mod policy;

pub use corpus::ASN;
pub use corpus::HyperPath;
pub use corpus::choose_shortest_path;
pub use join::build_path;
pub use join::choose_best_option;
pub use join::find_branching_point;
pub use parse::DumpRecord;
pub use parse::LoadError;
pub use parse::parse_dump_line;
pub use parse::parse_ipv4;
pub use parse::parse_relation_line;
pub use policy::ASRelation;
pub use policy::PathType;
pub use policy::append_relation;
