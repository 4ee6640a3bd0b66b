use vstd::prelude::*;

pub mod equiv;
pub mod inst;
pub mod interp;
pub mod lower;
pub mod stmt;
pub mod symex;

verus! {

} // verus!
