//! The unit of column data that the writer moves.

use vstd::prelude::*;

verus! {

/// An encoded and compressed page, as a page producer hands it over.
///
/// The writer never looks into the payload: it copies the bytes to the sink
/// and counts them.
#[derive(Debug)]
pub struct CompressedPage {
    buffer: Vec<u8>,
    uncompressed_size: usize,
}

impl View for CompressedPage {
    type V = Seq<u8>;

    /// The bytes that represent the page in a file.
    closed spec fn view(&self) -> Seq<u8> {
        self.buffer@
    }
}

impl CompressedPage {
    /// The length that the payload had before compression.
    pub closed spec fn spec_uncompressed_size(&self) -> usize {
        self.uncompressed_size
    }

    /// A page with the payload `buffer`, which was `uncompressed_size` bytes
    /// long before compression.
    pub fn new(buffer: Vec<u8>, uncompressed_size: usize) -> (page: Self)
        ensures
            page@ == buffer@,
            page.spec_uncompressed_size() == uncompressed_size,
    {
        CompressedPage { buffer, uncompressed_size }
    }

    /// The bytes that represent the page in a file.
    pub fn buffer(&self) -> (bytes: &[u8])
        ensures
            bytes@ == self@,
    {
        self.buffer.as_slice()
    }

    /// The number of bytes the page takes in a file.
    pub fn compressed_size(&self) -> (size: usize)
        ensures
            size == self@.len(),
    {
        self.buffer.len()
    }

    /// The length that the payload had before compression.
    #[verifier::when_used_as_spec(spec_uncompressed_size)]
    pub fn uncompressed_size(&self) -> (size: usize)
        ensures
            size == self.spec_uncompressed_size(),
    {
        self.uncompressed_size
    }
}

} // verus!
