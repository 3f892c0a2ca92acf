use vstd::prelude::*;

pub mod aisle;
pub mod filter;
pub mod flood;
pub mod image;
pub mod incise;
pub mod libs;
pub mod ocr;

verus! {

} // verus!
