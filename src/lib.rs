use vstd::prelude::*;

pub mod avatars;
pub mod principal;
pub mod text;
pub mod tickets;
pub mod token;

verus! {

} // verus!
