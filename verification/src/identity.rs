//! The identity of an encoding.

use vstd::prelude::*;

verus! {

/// An opaque token that says which encoding a converter belongs to. The
/// registry of encodings hands it out; the converters only carry it.
#[derive(Clone, Copy, Debug, PartialEq, Eq, Structural)]
pub struct Encoding {
    pub id: u32,
}

} // verus!
