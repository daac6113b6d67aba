//! A streaming Base64 decoder, verified against a model of the four-symbol
//! decode state machine, with the laws that model satisfies.
use vstd::prelude::*;

pub mod base64;
pub mod float;
pub mod model;
pub mod source;

verus! {

} // verus!
