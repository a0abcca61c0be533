//! Serving core for a binary word-vector model: a verified parser for the
//! undelimited binary dump, the lookup table it builds, the ranking order used by
//! nearest-neighbour queries, and the decision logic of the single worker that
//! owns the table.

pub mod header;
pub mod records;
pub mod format;
pub mod table;
pub mod model;
pub mod ranking;
pub mod worker;
pub mod vocab;
