//! Intel HEX decoding: a record producer and a converter that turns the
//! records into the flat binary image they describe.
use vstd::prelude::*;

pub mod binary_reader;
pub mod reader;
pub mod record;

verus! {

} // verus!
