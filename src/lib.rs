use vstd::prelude::*;

pub mod grammar;
pub mod laws;
pub mod lexer;
pub mod report;
pub mod token;

verus! {

} // verus!
