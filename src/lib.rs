//! Finds every set of five five-letter words whose twenty-five letters are
//! all distinct, working on 26-bit letter masks.
pub mod mask;
pub mod search;
pub mod solver;
