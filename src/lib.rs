use vstd::prelude::*;

pub mod days;
pub mod text;

verus! {

} // verus!
