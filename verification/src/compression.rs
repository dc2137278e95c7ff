//! Compressing a page with a codec of the caller's choice.

use vstd::prelude::*;
use vstd::slice::slice_to_vec;
use crate::dyn_iter::{LazyIter, StreamingIter};
use crate::error::WriteError;
use crate::page::CompressedPage;

verus! {

/// An encoded page before compression.
#[derive(Debug)]
pub struct Page {
    buffer: Vec<u8>,
}

impl View for Page {
    type V = Seq<u8>;

    /// The encoded bytes of the page.
    closed spec fn view(&self) -> Seq<u8> {
        self.buffer@
    }
}

impl Page {
    /// A page with the encoded bytes `buffer`.
    pub fn new(buffer: Vec<u8>) -> (page: Self)
        ensures
            page@ == buffer@,
    {
        Page { buffer }
    }

    /// The encoded bytes of the page.
    pub fn buffer(&self) -> (bytes: &[u8])
        ensures
            bytes@ == self@,
    {
        self.buffer.as_slice()
    }
}

/// The refusal of a codec to compress what it was handed.
#[derive(Debug, Copy, Clone, PartialEq, Eq, Hash, Structural)]
pub struct CodecError;

/// A compression codec.
///
/// The model is a function from input to output, and the set of inputs
/// that the codec rejects. An implementation outside verified code keeps
/// the default bodies of the spec functions; nothing is then proved about
/// it.
pub trait Codec {
    /// Whether the codec refuses to compress `input`.
    open spec fn rejects(&self, input: Seq<u8>) -> bool {
        false
    }

    /// What the codec makes of an `input` that it does not reject.
    open spec fn compressed(&self, input: Seq<u8>) -> Seq<u8> {
        input
    }

    /// Compresses `input`.
    fn compress(&self, input: &[u8]) -> (outcome: Result<Vec<u8>, CodecError>)
        ensures
            match outcome {
                Ok(output) => !self.rejects(input@) && output@ == self.compressed(input@),
                Err(_) => self.rejects(input@),
            },
    ;
}

/// The codec that leaves its input as it is.
#[derive(Debug, Copy, Clone)]
pub struct Uncompressed;

impl Codec for Uncompressed {
    open spec fn rejects(&self, input: Seq<u8>) -> bool {
        false
    }

    open spec fn compressed(&self, input: Seq<u8>) -> Seq<u8> {
        input
    }

    fn compress(&self, input: &[u8]) -> (outcome: Result<Vec<u8>, CodecError>) {
        Ok(slice_to_vec(input))
    }
}

/// Compresses `page` with `codec`. The outcome depends on the page and the
/// codec alone. A page that the codec rejects is an encoding error.
pub fn compress<C: Codec>(page: Page, codec: &C) -> (outcome: Result<CompressedPage, WriteError>)
    ensures
        match outcome {
            Ok(compressed) => {
                &&& !codec.rejects(page@)
                &&& compressed@ == codec.compressed(page@)
                &&& compressed.spec_uncompressed_size() == page@.len()
            },
            Err(e) => e == WriteError::Encoding && codec.rejects(page@),
        },
{
    match codec.compress(page.buffer()) {
        Ok(buffer) => Ok(CompressedPage::new(buffer, page.buffer().len())),
        Err(_) => Err(WriteError::Encoding),
    }
}

/// What becomes of one outcome of a producer of pages when its pages are
/// compressed with `codec`: a failure of the producer and a page that the
/// codec rejects are both encoding errors.
pub open spec fn compressed_outcome<C: Codec, E>(codec: &C, outcome: Result<Page, E>) -> Result<
    Seq<u8>,
    WriteError,
> {
    match outcome {
        Ok(page) => if codec.rejects(page@) {
            Err(WriteError::Encoding)
        } else {
            Ok(codec.compressed(page@))
        },
        Err(_) => Err(WriteError::Encoding),
    }
}

/// A stream of compressed pages, made page by page from a producer of
/// uncompressed ones.
pub struct Compressor<I, C> {
    pages: I,
    codec: C,
    current: Option<CompressedPage>,
}

impl<I, C, E> Compressor<I, C> where I: LazyIter<Item = Result<Page, E>>, C: Codec {
    /// The producer whose pages the stream compresses.
    pub closed spec fn source(&self) -> I {
        self.pages
    }

    /// The codec that the stream compresses with.
    pub closed spec fn codec(&self) -> C {
        self.codec
    }

    /// A stream of the pages of `pages`, each compressed with `codec`.
    pub fn new(pages: I, codec: C) -> (stream: Self)
        ensures
            stream.source() == pages,
            stream.codec() == codec,
            stream.current() is None,
            stream.remaining() == pages.remaining().map_values(
                |outcome: Result<Page, E>| compressed_outcome(&codec, outcome),
            ),
    {
        Compressor { pages, codec, current: None }
    }
}

impl<I, C, E> StreamingIter for Compressor<I, C> where
    I: LazyIter<Item = Result<Page, E>>,
    C: Codec,
 {
    type Item = CompressedPage;

    type Error = WriteError;

    closed spec fn current(&self) -> Option<Seq<u8>> {
        match self.current {
            Some(page) => Some(page@),
            None => None,
        }
    }

    closed spec fn remaining(&self) -> Seq<Result<Seq<u8>, WriteError>> {
        self.pages.remaining().map_values(
            |outcome: Result<Page, E>| compressed_outcome(&self.codec, outcome),
        )
    }

    fn advance(&mut self) -> (outcome: Result<(), WriteError>) {
        let ghost before = self.pages.remaining();
        let next = self.pages.next();
        proof {
            if next is Some {
                assert(self.remaining() =~= old(self).remaining().skip(1));
            }
        }
        match next {
            None => {
                self.current = None;
                Ok(())
            },
            Some(Err(_)) => {
                self.current = None;
                Err(WriteError::Encoding)
            },
            Some(Ok(page)) => match compress(page, &self.codec) {
                Ok(compressed) => {
                    self.current = Some(compressed);
                    Ok(())
                },
                Err(e) => {
                    self.current = None;
                    Err(e)
                },
            },
        }
    }

    fn get(&self) -> (item: Option<&CompressedPage>) {
        self.current.as_ref()
    }
}

} // verus!
