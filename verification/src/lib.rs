use vstd::prelude::*;

pub mod chars;
pub mod cli;
pub mod config;
pub mod deploy;
pub mod display;
pub mod duration;
pub mod entry;
pub mod errors;
pub mod filter;
pub mod insights;
pub mod kamal;
pub mod ordering;
pub mod pool;
pub mod resolver;
pub mod timefmt;

verus! {

} // verus!
