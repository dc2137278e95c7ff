//! The failures a write operation can report.

use vstd::prelude::*;

verus! {

/// Why a write operation stopped. Whatever the variant, the output written
/// so far must be discarded by the caller.
#[derive(Debug, Copy, Clone, PartialEq, Eq, Hash, Structural)]
pub enum WriteError {
    /// The operation is not allowed in the writer's current state.
    OutOfOrder,
    /// The sink refused a write or a flush.
    Io,
    /// A page producer, a compressor or the footer serializer failed to
    /// produce output that can be written.
    Encoding,
}

} // verus!
