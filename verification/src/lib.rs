use vstd::prelude::*;

pub mod text;
pub mod paths;
pub mod phash;
pub mod grouping;
pub mod sort;
pub mod model;
pub mod similarity;
pub mod vhash;
pub mod hash;
pub mod archive;
pub mod dupes;
pub mod reader;
pub mod scanner;
pub mod hash_cache;
pub mod collector;
pub mod filter;
pub mod scan;
pub mod session;
pub mod byte_range;
pub mod requests;
pub mod csv_tabs;

verus! {

} // verus!
