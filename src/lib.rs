use vstd::prelude::*;

pub mod text;
pub mod trace;

verus! {

} // verus!
