//! Small verified utilities: a terminal element renderer, insertion into a
//! sorted vector, directed-graph reachability, substring search, and a
//! cartesian-product cursor.

pub mod algos;
pub mod product;
pub mod search;
pub mod tui;
