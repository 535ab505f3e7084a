//! The error taxonomy shared by every fallible operation of the crate.

use vstd::prelude::*;

verus! {

/// Why a catalog or chunk operation was refused.
///
/// The variants mirror the failure classes of the catalog engine: an entry,
/// file or fragment that is not present (`NotFound`), input whose shape is
/// wrong (`InvalidData`), a request that the catalog state refuses
/// (`InvalidInput`), and a destination without room for the image
/// (`OutOfMemory`).
#[derive(Clone, Copy, Debug, PartialEq, Eq, Structural)]
pub enum UlError {
    NotFound,
    InvalidData,
    InvalidInput,
    OutOfMemory,
}

} // verus!
