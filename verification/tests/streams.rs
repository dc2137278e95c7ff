use parquet_writer::{
    compress, Codec, CodecError, CompressedPage, Compressor, DynIter, DynStreamingIterator,
    LazyIter, Page, StreamingIter, Uncompressed, VecIter, VecStreamingIter, WriteError,
};

#[test]
fn vec_iter_yields_first_to_last_then_none() {
    let mut iter = VecIter::new(vec![10, 20, 30]);
    assert_eq!(iter.next(), Some(10));
    assert_eq!(iter.next(), Some(20));
    assert_eq!(iter.next(), Some(30));
    assert_eq!(iter.next(), None);
    assert_eq!(iter.next(), None);
}

#[test]
fn vec_iter_of_nothing_is_exhausted() {
    let mut iter: VecIter<u8> = VecIter::new(Vec::new());
    assert_eq!(iter.next(), None);
}

#[test]
fn dyn_iter_erases_the_producer() {
    let mut iters: Vec<DynIter<'static, u8>> =
        vec![Box::new(VecIter::new(vec![1, 2])), Box::new(Countdown(2))];
    assert_eq!(iters[0].next(), Some(1));
    assert_eq!(iters[1].next(), Some(1));
    assert_eq!(iters[0].next(), Some(2));
    assert_eq!(iters[1].next(), Some(0));
    assert_eq!(iters[0].next(), None);
    assert_eq!(iters[1].next(), None);
}

/// Counts down to zero, computing each item when asked.
struct Countdown(u8);

impl LazyIter for Countdown {
    type Item = u8;

    fn next(&mut self) -> Option<u8> {
        if self.0 == 0 {
            None
        } else {
            self.0 -= 1;
            Some(self.0)
        }
    }
}

#[test]
fn streaming_iter_has_no_item_before_the_first_advance() {
    let stream: VecStreamingIter<CompressedPage, String> =
        VecStreamingIter::new(vec![Ok(CompressedPage::new(vec![1], 1))]);
    assert!(stream.get().is_none());
}

#[test]
fn streaming_iter_lends_items_in_order() {
    let mut stream: VecStreamingIter<CompressedPage, String> = VecStreamingIter::new(vec![
        Ok(CompressedPage::new(vec![1, 2], 5)),
        Ok(CompressedPage::new(vec![3], 7)),
    ]);
    assert_eq!(stream.advance(), Ok(()));
    assert_eq!(stream.get().unwrap().buffer(), &[1, 2][..]);
    assert_eq!(stream.get().unwrap().compressed_size(), 2);
    assert_eq!(stream.get().unwrap().uncompressed_size(), 5);
    assert_eq!(stream.advance(), Ok(()));
    assert_eq!(stream.get().unwrap().buffer(), &[3][..]);
    assert_eq!(stream.advance(), Ok(()));
    assert!(stream.get().is_none());
    assert_eq!(stream.advance(), Ok(()));
    assert!(stream.get().is_none());
}

#[test]
fn streaming_iter_reports_the_error_it_holds() {
    let mut stream: VecStreamingIter<CompressedPage, String> = VecStreamingIter::new(vec![
        Ok(CompressedPage::new(vec![1], 1)),
        Err("broken".to_string()),
        Ok(CompressedPage::new(vec![2], 1)),
    ]);
    assert_eq!(stream.advance(), Ok(()));
    assert_eq!(stream.advance(), Err("broken".to_string()));
    assert!(stream.get().is_none());
}

#[test]
fn dyn_streaming_iterator_erases_the_producer() {
    let mut stream: DynStreamingIterator<'static, CompressedPage, String> =
        Box::new(VecStreamingIter::new(vec![Ok(CompressedPage::new(vec![9], 1))]));
    assert_eq!(stream.advance(), Ok(()));
    assert_eq!(stream.get().unwrap().buffer(), &[9][..]);
    assert_eq!(stream.advance(), Ok(()));
    assert!(stream.get().is_none());
}

#[test]
fn uncompressed_codec_leaves_the_bytes() {
    assert_eq!(Uncompressed.compress(&[1, 2, 3]), Ok(vec![1, 2, 3]));
    assert_eq!(Uncompressed.compress(&[]), Ok(Vec::new()));
}

#[test]
fn compress_keeps_the_uncompressed_size() {
    let page = compress(Page::new(vec![4, 4, 4, 4]), &RunLength).unwrap();
    assert_eq!(page.buffer(), &[4, 4][..]);
    assert_eq!(page.compressed_size(), 2);
    assert_eq!(page.uncompressed_size(), 4);
}

#[test]
fn compress_with_the_uncompressed_codec() {
    let page = compress(Page::new(vec![1, 2, 3]), &Uncompressed).unwrap();
    assert_eq!(page.buffer(), &[1, 2, 3][..]);
    assert_eq!(page.uncompressed_size(), 3);
}

#[test]
fn compress_turns_a_rejection_into_an_encoding_error() {
    let outcome = compress(Page::new(vec![1, 2]), &RunLength);
    assert_eq!(outcome.err(), Some(WriteError::Encoding));
}

#[test]
fn compress_is_deterministic() {
    let first = compress(Page::new(vec![7, 7, 7]), &RunLength).unwrap();
    let second = compress(Page::new(vec![7, 7, 7]), &RunLength).unwrap();
    assert_eq!(first.buffer(), second.buffer());
}

/// Compresses a run of one byte to the length of the run and the byte;
/// rejects everything else.
struct RunLength;

impl Codec for RunLength {
    fn compress(&self, input: &[u8]) -> Result<Vec<u8>, CodecError> {
        match input.first() {
            Some(&first) if input.iter().all(|&b| b == first) && input.len() < 256 => {
                Ok(vec![input.len() as u8, first])
            }
            _ => Err(CodecError),
        }
    }
}

#[test]
fn compressor_compresses_page_by_page() {
    let pages: Vec<Result<Page, String>> =
        vec![Ok(Page::new(vec![5, 5, 5])), Ok(Page::new(vec![6]))];
    let mut stream = Compressor::new(VecIter::new(pages), RunLength);
    assert!(stream.get().is_none());
    assert_eq!(stream.advance(), Ok(()));
    assert_eq!(stream.get().unwrap().buffer(), &[3, 5][..]);
    assert_eq!(stream.get().unwrap().uncompressed_size(), 3);
    assert_eq!(stream.advance(), Ok(()));
    assert_eq!(stream.get().unwrap().buffer(), &[1, 6][..]);
    assert_eq!(stream.advance(), Ok(()));
    assert!(stream.get().is_none());
}

#[test]
fn compressor_fails_where_the_codec_rejects() {
    let pages: Vec<Result<Page, String>> =
        vec![Ok(Page::new(vec![5, 5])), Ok(Page::new(vec![1, 2]))];
    let mut stream = Compressor::new(VecIter::new(pages), RunLength);
    assert_eq!(stream.advance(), Ok(()));
    assert_eq!(stream.advance(), Err(WriteError::Encoding));
    assert!(stream.get().is_none());
}

#[test]
fn compressor_fails_where_the_producer_fails() {
    let pages: Vec<Result<Page, String>> = vec![Err("no page".to_string())];
    let mut stream = Compressor::new(VecIter::new(pages), Uncompressed);
    assert_eq!(stream.advance(), Err(WriteError::Encoding));
}

#[test]
fn compressed_pages_go_to_a_row_group_as_they_are_made() {
    let first: Vec<Result<Page, String>> =
        vec![Ok(Page::new(vec![8, 8, 8, 8])), Ok(Page::new(vec![9]))];
    let second: Vec<Result<Page, String>> = vec![Ok(Page::new(vec![1, 2, 3]))];
    let columns: Vec<Result<DynStreamingIterator<'static, CompressedPage, WriteError>, WriteError>> = vec![
        Ok(Box::new(Compressor::new(VecIter::new(first), RunLength))),
        Ok(Box::new(Compressor::new(VecIter::new(second), Uncompressed))),
    ];
    let mut sink: Vec<u8> = Vec::new();
    let (record, end) = parquet_writer::write_row_group(
        &mut sink,
        0,
        VecIter::new(columns),
        parquet_writer::WriteOptions {
            write_statistics: false,
            version: parquet_writer::Version::V1,
        },
        &parquet_writer::NoStatistics,
    )
    .unwrap();
    assert_eq!(sink, vec![4, 8, 1, 9, 1, 2, 3]);
    assert_eq!(end, 7);
    assert_eq!(record.get(0).unwrap().size, 4);
    assert_eq!(record.get(1).unwrap().start, 4);
}

#[test]
fn a_page_that_the_codec_rejects_fails_the_row_group() {
    let pages: Vec<Result<Page, String>> =
        vec![Ok(Page::new(vec![8, 8])), Ok(Page::new(vec![1, 2])), Ok(Page::new(vec![3]))];
    let columns: Vec<Result<DynStreamingIterator<'static, CompressedPage, WriteError>, WriteError>> =
        vec![Ok(Box::new(Compressor::new(VecIter::new(pages), RunLength)))];
    let mut sink: Vec<u8> = Vec::new();
    let outcome = parquet_writer::write_row_group(
        &mut sink,
        0,
        VecIter::new(columns),
        parquet_writer::WriteOptions {
            write_statistics: false,
            version: parquet_writer::Version::V1,
        },
        &parquet_writer::NoStatistics,
    );
    assert_eq!(outcome.err(), Some(WriteError::Encoding));
    assert_eq!(sink, vec![2, 8]);
}
