//! Number-theoretic predicates over machine integers, a small composer that
//! combines them by name, range scanners, and two grid traversals (spiral and
//! raster) that plot which cells carry a prime index.

pub mod composer;
pub mod divisibility;
pub mod primality;
pub mod grid;
pub mod scanner;
