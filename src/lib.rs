use vstd::prelude::*;

pub mod accounts;
pub mod codec;
pub mod error;
pub mod events;
pub mod maps;

verus! {

} // verus!
