//! The collaborator that serializes the statistics of a column chunk.

use vstd::prelude::*;

verus! {

/// Serializes the statistics and page index of a column chunk.
///
/// The model is a function from the chunk's place in the file to bytes. An
/// implementation outside verified code keeps the default body of the spec
/// function; nothing is then proved about it.
pub trait StatisticsBuilder {
    /// The serialized statistics of the chunk of column `column` whose
    /// pages take `size` bytes from file offset `start` on.
    open spec fn serialized(&self, column: nat, start: nat, size: nat) -> Seq<u8> {
        Seq::empty()
    }

    /// Serializes the statistics of the chunk of column `column` whose
    /// pages take `size` bytes from file offset `start` on.
    fn chunk_statistics(&self, column: usize, start: u64, size: u64) -> (bytes: Vec<u8>)
        ensures
            bytes@ == self.serialized(column as nat, start as nat, size as nat),
    ;
}

/// Has no statistics for any chunk.
#[derive(Debug, Copy, Clone)]
pub struct NoStatistics;

impl StatisticsBuilder for NoStatistics {
    open spec fn serialized(&self, column: nat, start: nat, size: nat) -> Seq<u8> {
        Seq::empty()
    }

    fn chunk_statistics(&self, column: usize, start: u64, size: u64) -> (bytes: Vec<u8>) {
        Vec::new()
    }
}

} // verus!
