//! Writing one row group: the pages of every column in turn, and the record
//! of where each column chunk came to lie.

use vstd::prelude::*;
use crate::dyn_iter::{LazyIter, StreamingIter};
use crate::error::WriteError;
use crate::layout::{
    attempted_bytes, chunk_spans, chunks_bytes, column_bytes, column_fails, inline_bytes,
    inline_statistics, lemma_section_grows, pages_model, placed_span, row_group_bytes,
    row_group_fails, row_group_model, row_group_spans, section_bytes,
};
use crate::options::{Version, WriteOptions};
use crate::page::CompressedPage;
use crate::sink::{lemma_partly_appended, partly_appended, Sink};
use crate::statistics::StatisticsBuilder;

verus! {

/// Where one column chunk lies in the file.
#[derive(Debug, Copy, Clone, PartialEq, Eq, Hash, Structural)]
pub struct ChunkOffsets {
    /// The file offset of the first byte of the chunk's first page.
    pub start: u64,
    /// The number of bytes that the chunk's pages take.
    pub size: u64,
    /// The file offset of the chunk's serialized statistics.
    pub statistics_start: u64,
    /// The number of bytes that the chunk's serialized statistics take;
    /// zero where none were written.
    pub statistics_size: u64,
}

/// The mathematical form of [`ChunkOffsets`]: the same four numbers, without
/// the bound of a machine integer.
pub struct ChunkSpan {
    /// The file offset of the first byte of the chunk's first page.
    pub start: nat,
    /// The number of bytes that the chunk's pages take.
    pub size: nat,
    /// The file offset of the chunk's serialized statistics.
    pub statistics_start: nat,
    /// The number of bytes that the chunk's serialized statistics take.
    pub statistics_size: nat,
}

impl View for ChunkOffsets {
    type V = ChunkSpan;

    open spec fn view(&self) -> ChunkSpan {
        ChunkSpan {
            start: self.start as nat,
            size: self.size as nat,
            statistics_start: self.statistics_start as nat,
            statistics_size: self.statistics_size as nat,
        }
    }
}

/// The offsets record of one row group: an entry for each column chunk, in
/// column order.
#[derive(Debug)]
pub struct ColumnOffsetsMetadata {
    chunks: Vec<ChunkOffsets>,
}

impl View for ColumnOffsetsMetadata {
    type V = Seq<ChunkSpan>;

    open spec fn view(&self) -> Seq<ChunkSpan> {
        self.entries().map_values(|chunk: ChunkOffsets| chunk@)
    }
}

impl ColumnOffsetsMetadata {
    /// The entries of the record, in column order.
    pub closed spec fn entries(&self) -> Seq<ChunkOffsets> {
        self.chunks@
    }

    /// The record of a row group without columns.
    pub fn new() -> (record: Self)
        ensures
            record@ == Seq::<ChunkSpan>::empty(),
            record.entries() == Seq::<ChunkOffsets>::empty(),
    {
        let record = ColumnOffsetsMetadata { chunks: Vec::new() };
        assert(record@ =~= Seq::<ChunkSpan>::empty());
        record
    }

    /// The number of column chunks recorded.
    pub fn len(&self) -> (len: usize)
        ensures
            len == self@.len(),
            len == self.entries().len(),
    {
        self.chunks.len()
    }

    /// The entry of column `column`, if the record has one.
    pub fn get(&self, column: usize) -> (entry: Option<ChunkOffsets>)
        ensures
            column < self@.len() ==> entry == Some(self.entries()[column as int]),
            column >= self@.len() ==> entry is None,
    {
        if column < self.chunks.len() {
            Some(self.chunks[column])
        } else {
            None
        }
    }

    /// The entries of the record, in column order.
    pub fn chunks(&self) -> (entries: &[ChunkOffsets])
        ensures
            entries@ == self.entries(),
    {
        self.chunks.as_slice()
    }
}

/// Writes the pages of one column chunk to `sink`, in the order in which
/// `pages` yields them, and returns the number of bytes they take.
///
/// `offset` is the file offset at which the sink stands. The first failure
/// of `pages` or of the sink ends the call: the pages before it are in the
/// sink, nothing after them.
pub fn write_column_chunk<W: Sink, S: StreamingIter<Item = CompressedPage>>(
    sink: &mut W,
    offset: u64,
    pages: &mut S,
) -> (outcome: Result<u64, WriteError>)
    requires
        offset <= old(sink).written().len(),
    ensures
        partly_appended(
            old(sink).written(),
            final(sink).written(),
            column_bytes(pages_model(old(pages).remaining())),
        ),
        final(sink).reliable() == old(sink).reliable(),
        match outcome {
            Ok(size) => {
                &&& !column_fails(pages_model(old(pages).remaining()))
                &&& final(sink).written() == old(sink).written() + column_bytes(
                    pages_model(old(pages).remaining()),
                )
                &&& size == column_bytes(pages_model(old(pages).remaining())).len()
                &&& offset + size <= u64::MAX
            },
            Err(WriteError::Encoding) => {
                &&& column_fails(pages_model(old(pages).remaining()))
                &&& final(sink).written() == old(sink).written() + column_bytes(
                    pages_model(old(pages).remaining()),
                )
            },
            Err(WriteError::Io) => !old(sink).reliable(),
            Err(WriteError::OutOfOrder) => false,
        },
{
    let ghost column = pages_model(pages.remaining());
    let ghost before = sink.written();
    let mut size: u64 = 0;
    loop
        invariant
            before == old(sink).written(),
            column == pages_model(old(pages).remaining()),
            offset + size <= sink.written().len(),
            offset + size <= u64::MAX,
            sink.written().len() - size == before.len(),
            sink.reliable() == old(sink).reliable(),
            before.is_prefix_of(sink.written()),
            sink.written() + column_bytes(pages_model(pages.remaining())) == before
                + column_bytes(column),
            size + column_bytes(pages_model(pages.remaining())).len() == column_bytes(
                column,
            ).len(),
            column_fails(pages_model(pages.remaining())) == column_fails(column),
        decreases pages.remaining().len(),
    {
        let ghost outcomes = pages.remaining();
        let ghost written = sink.written();
        match pages.advance() {
            Err(_) => {
                assert(pages_model(outcomes)[0] is None);
                assert(written + Seq::<u8>::empty() =~= written);
                assert(written.skip(before.len() as int) =~= column_bytes(column));
                return Err(WriteError::Encoding);
            },
            Ok(()) => {},
        }
        match pages.get() {
            None => {
                assert(pages_model(outcomes).len() == 0);
                assert(written + Seq::<u8>::empty() =~= written);
                assert(written.skip(before.len() as int) =~= column_bytes(column));
                return Ok(size);
            },
            Some(page) => {
                let bytes = page.buffer();
                proof {
                    assert(pages_model(outcomes)[0] == Some(bytes@));
                    assert(pages_model(pages.remaining()) =~= pages_model(outcomes).skip(1));
                }
                match sink.write_all(bytes) {
                    Err(_) => {
                        proof {
                            let tail = column_bytes(pages_model(outcomes).skip(1));
                            assert(written.skip(before.len() as int) + bytes@ + tail
                                =~= column_bytes(column)) by {
                                assert(written + (bytes@ + tail) == before + column_bytes(column));
                                assert((written + (bytes@ + tail)).skip(before.len() as int)
                                    =~= written.skip(before.len() as int) + bytes@ + tail);
                                assert((before + column_bytes(column)).skip(before.len() as int)
                                    =~= column_bytes(column));
                            }
                            lemma_partly_appended(
                                before,
                                written,
                                sink.written(),
                                bytes@,
                                column_bytes(column),
                            );
                        }
                        return Err(WriteError::Io);
                    },
                    Ok(()) => {},
                }
                proof {
                    assert(sink.written() + column_bytes(pages_model(pages.remaining()))
                        =~= written + column_bytes(pages_model(outcomes)));
                }
                size = size + bytes.len() as u64;
            },
        }
    }
}

/// Writes the statistics section of the chunks in `record` to `sink`, which
/// stands at file offset `offset`, and enters into `record` where the
/// statistics of each chunk came to lie. Returns the file offset after the
/// section.
fn write_statistics_section<W: Sink, B: StatisticsBuilder>(
    sink: &mut W,
    offset: u64,
    record: &mut ColumnOffsetsMetadata,
    statistics: &B,
) -> (outcome: Result<u64, WriteError>)
    requires
        offset <= old(sink).written().len(),
    ensures
        partly_appended(
            old(sink).written(),
            final(sink).written(),
            section_bytes(statistics, old(record)@, old(record)@.len() as int),
        ),
        final(sink).reliable() == old(sink).reliable(),
        match outcome {
            Ok(end) => {
                &&& final(sink).written() == old(sink).written() + section_bytes(
                    statistics,
                    old(record)@,
                    old(record)@.len() as int,
                )
                &&& final(record)@ == Seq::new(
                    old(record)@.len(),
                    |column: int| placed_span(statistics, old(record)@, offset as nat, column),
                )
                &&& end == offset + section_bytes(
                    statistics,
                    old(record)@,
                    old(record)@.len() as int,
                ).len()
            },
            Err(WriteError::Io) => !old(sink).reliable(),
            Err(_) => false,
        },
{
    let ghost before = sink.written();
    let ghost spans = record@;
    let mut cursor: u64 = offset;
    let mut column: usize = 0;
    assert(before + section_bytes(statistics, spans, 0) =~= before);
    while column < record.chunks.len()
        invariant
            before == old(sink).written(),
            spans == old(record)@,
            record@.len() == spans.len(),
            column <= spans.len(),
            sink.reliable() == old(sink).reliable(),
            before.is_prefix_of(sink.written()),
            sink.written() == before + section_bytes(statistics, spans, column as int),
            cursor == offset + section_bytes(statistics, spans, column as int).len(),
            cursor <= sink.written().len(),
            forall|c: int|
                0 <= c < column ==> record@[c] == placed_span(
                    statistics,
                    spans,
                    offset as nat,
                    c,
                ),
            forall|c: int| column <= c < spans.len() ==> record@[c] == spans[c],
        decreases spans.len() - column,
    {
        let ghost written = sink.written();
        let ghost entries = record@;
        let chunk = record.chunks[column];
        assert(chunk@ == entries[column as int]);
        let bytes = statistics.chunk_statistics(column, chunk.start, chunk.size);
        match sink.write_all(bytes.as_slice()) {
            Err(_) => {
                proof {
                    let whole = section_bytes(statistics, spans, spans.len() as int);
                    lemma_section_grows(statistics, spans, column as int + 1, spans.len() as int);
                    assert(written.skip(before.len() as int) + bytes@ =~= section_bytes(
                        statistics,
                        spans,
                        column as int + 1,
                    ));
                    lemma_partly_appended(before, written, sink.written(), bytes@, whole);
                }
                return Err(WriteError::Io);
            },
            Ok(()) => {},
        }
        let placed = ChunkOffsets {
            start: chunk.start,
            size: chunk.size,
            statistics_start: cursor,
            statistics_size: bytes.len() as u64,
        };
        record.chunks.set(column, placed);
        proof {
            assert(placed@ == placed_span(statistics, spans, offset as nat, column as int));
            assert(record@ =~= entries.update(column as int, placed@));
            assert(sink.written() =~= before + section_bytes(
                statistics,
                spans,
                column as int + 1,
            ));
        }
        cursor = cursor + bytes.len() as u64;
        column = column + 1;
    }
    assert(record@ =~= Seq::new(
        spans.len(),
        |c: int| placed_span(statistics, spans, offset as nat, c),
    ));
    assert(sink.written().skip(before.len() as int) =~= section_bytes(
        statistics,
        spans,
        spans.len() as int,
    ));
    Ok(cursor)
}

/// A failure in the middle of a row group leaves a part of what the call
/// set out to write, and nothing else. Here `written` is the sink before the
/// failing step, which set out to append `bytes`; `left` is what was still
/// to come of the chunks `whole`.
proof fn lemma_attempt_goes_on(
    before: Seq<u8>,
    written: Seq<u8>,
    after: Seq<u8>,
    bytes: Seq<u8>,
    left: Seq<u8>,
    whole: Seq<u8>,
    attempted: Seq<u8>,
)
    requires
        before.is_prefix_of(written),
        partly_appended(written, after, bytes),
        bytes.is_prefix_of(left),
        written + left == before + whole,
        whole.is_prefix_of(attempted),
    ensures
        partly_appended(before, after, attempted),
{
    let done = written.skip(before.len() as int);
    assert(written =~= before + done);
    assert(done + left =~= whole) by {
        assert((written + left).skip(before.len() as int) =~= done + left);
        assert((before + whole).skip(before.len() as int) =~= whole);
    }
    assert(done + bytes =~= attempted.subrange(0, (done + bytes).len() as int));
    lemma_partly_appended(before, written, after, bytes, attempted);
}

/// Writes one row group to `sink`, which stands at file offset `offset`:
/// every page of every column, in column order and, within a column, in
/// the order in which its producer yields the pages. Returns the offsets
/// record of the row group and the file offset after it.
///
/// With `write_statistics`, `statistics` is asked for the serialized
/// statistics of each chunk once its pages are written. Version 1 places
/// them directly behind the pages of their chunk; version 2 places them
/// behind the last chunk, in column order.
///
/// The first failure of a producer or of the sink ends the call. What was
/// written before it stays in the sink; the caller must discard the file.
pub fn write_row_group<W, I, S, B>(
    sink: &mut W,
    offset: u64,
    columns: I,
    options: WriteOptions,
    statistics: &B,
) -> (outcome: Result<(ColumnOffsetsMetadata, u64), WriteError>) where
    W: Sink,
    I: LazyIter<Item = Result<S, S::Error>>,
    S: StreamingIter<Item = CompressedPage>,
    B: StatisticsBuilder,

    requires
        offset <= old(sink).written().len(),
    ensures
        partly_appended(
            old(sink).written(),
            final(sink).written(),
            attempted_bytes(
                statistics,
                options,
                row_group_model(columns.remaining()),
                offset as nat,
            ),
        ),
        final(sink).reliable() == old(sink).reliable(),
        match outcome {
            Ok((record, end)) => {
                &&& !row_group_fails(row_group_model(columns.remaining()))
                &&& final(sink).written() == old(sink).written() + row_group_bytes(
                    statistics,
                    options,
                    row_group_model(columns.remaining()),
                    offset as nat,
                )
                &&& record@ == row_group_spans(
                    statistics,
                    options,
                    row_group_model(columns.remaining()),
                    offset as nat,
                )
                &&& end == offset + row_group_bytes(
                    statistics,
                    options,
                    row_group_model(columns.remaining()),
                    offset as nat,
                ).len()
            },
            Err(WriteError::Encoding) => {
                &&& row_group_fails(row_group_model(columns.remaining()))
                &&& final(sink).written() == old(sink).written() + chunks_bytes(
                    statistics,
                    options,
                    row_group_model(columns.remaining()),
                    offset as nat,
                    0,
                )
            },
            Err(WriteError::Io) => !old(sink).reliable(),
            Err(WriteError::OutOfOrder) => false,
        },
{
    let ghost before = sink.written();
    let ghost model = row_group_model(columns.remaining());
    let mut source = columns;
    let mut record = ColumnOffsetsMetadata::new();
    let mut cursor: u64 = offset;
    let inline: bool = options.write_statistics && options.version == Version::V1;
    loop
        invariant_except_break
            before == old(sink).written(),
            model == row_group_model(columns.remaining()),
            inline == inline_statistics(options),
            sink.reliable() == old(sink).reliable(),
            before.is_prefix_of(sink.written()),
            cursor <= sink.written().len(),
            sink.written() + chunks_bytes(
                statistics,
                options,
                row_group_model(source.remaining()),
                cursor as nat,
                record@.len(),
            ) == before + chunks_bytes(statistics, options, model, offset as nat, 0),
            cursor + chunks_bytes(
                statistics,
                options,
                row_group_model(source.remaining()),
                cursor as nat,
                record@.len(),
            ).len() == offset + chunks_bytes(statistics, options, model, offset as nat, 0).len(),
            record@ + chunk_spans(
                statistics,
                options,
                row_group_model(source.remaining()),
                cursor as nat,
                record@.len(),
            ) == chunk_spans(statistics, options, model, offset as nat, 0),
            row_group_fails(row_group_model(source.remaining())) == row_group_fails(model),
        ensures
            before == old(sink).written(),
            sink.reliable() == old(sink).reliable(),
            before.is_prefix_of(sink.written()),
            cursor <= sink.written().len(),
            !row_group_fails(model),
            sink.written() == before + chunks_bytes(statistics, options, model, offset as nat, 0),
            cursor == offset + chunks_bytes(statistics, options, model, offset as nat, 0).len(),
            record@ == chunk_spans(statistics, options, model, offset as nat, 0),
        decreases source.remaining().len(),
    {
        let ghost rest = row_group_model(source.remaining());
        let ghost written = sink.written();
        let ghost spans = record@;
        let index: usize = record.len();
        match source.next() {
            None => {
                proof {
                    assert(rest.len() == 0);
                    assert(written + Seq::<u8>::empty() =~= written);
                    assert(spans + Seq::<ChunkSpan>::empty() =~= spans);
                }
                break ;
            },
            Some(Err(_)) => {
                proof {
                    assert(rest[0] == seq![None::<Seq<u8>>]);
                    assert(column_fails(rest[0]));
                    assert(column_bytes(rest[0]) == Seq::<u8>::empty());
                    assert(written + Seq::<u8>::empty() =~= written);
                    assert(written.skip(before.len() as int) =~= chunks_bytes(
                        statistics,
                        options,
                        model,
                        offset as nat,
                        0,
                    ));
                }
                return Err(WriteError::Encoding);
            },
            Some(Ok(pages)) => {
                let mut pages = pages;
                proof {
                    assert(rest[0] == pages_model(pages.remaining()));
                    assert(row_group_model(source.remaining()) =~= rest.skip(1));
                }
                let size: u64 = match write_column_chunk(sink, cursor, &mut pages) {
                    Ok(size) => size,
                    Err(e) => {
                        proof {
                            lemma_attempt_goes_on(
                                before,
                                written,
                                sink.written(),
                                column_bytes(rest[0]),
                                chunks_bytes(
                                    statistics,
                                    options,
                                    rest,
                                    cursor as nat,
                                    index as nat,
                                ),
                                chunks_bytes(statistics, options, model, offset as nat, 0),
                                attempted_bytes(statistics, options, model, offset as nat),
                            );
                        }
                        return Err(e);
                    },
                };
                let ghost with_pages = sink.written();
                let mut chunk = ChunkOffsets {
                    start: cursor,
                    size,
                    statistics_start: cursor + size,
                    statistics_size: 0,
                };
                let mut end: u64 = cursor + size;
                if inline {
                    let bytes = statistics.chunk_statistics(index, cursor, size);
                    match sink.write_all(bytes.as_slice()) {
                        Err(_) => {
                            proof {
                                let left = chunks_bytes(
                                    statistics,
                                    options,
                                    rest,
                                    cursor as nat,
                                    index as nat,
                                );
                                assert(with_pages + left.skip(size as int) =~= written + left);
                                assert(bytes@.is_prefix_of(left.skip(size as int))) by {
                                    assert(bytes@ =~= left.skip(size as int).subrange(
                                        0,
                                        bytes@.len() as int,
                                    ));
                                }
                                lemma_attempt_goes_on(
                                    before,
                                    with_pages,
                                    sink.written(),
                                    bytes@,
                                    left.skip(size as int),
                                    chunks_bytes(statistics, options, model, offset as nat, 0),
                                    attempted_bytes(statistics, options, model, offset as nat),
                                );
                            }
                            return Err(WriteError::Io);
                        },
                        Ok(()) => {},
                    }
                    chunk.statistics_size = bytes.len() as u64;
                    end = end + bytes.len() as u64;
                }
                record.chunks.push(chunk);
                proof {
                    let extra = inline_bytes(
                        statistics,
                        options,
                        index as nat,
                        cursor as nat,
                        size as nat,
                    );
                    assert(sink.written() == written + column_bytes(rest[0]) + extra) by {
                        assert(with_pages + Seq::<u8>::empty() =~= with_pages);
                    }
                    let tail = chunks_bytes(
                        statistics,
                        options,
                        rest.skip(1),
                        end as nat,
                        index as nat + 1,
                    );
                    assert(chunks_bytes(statistics, options, rest, cursor as nat, index as nat)
                        == column_bytes(rest[0]) + extra + tail);
                    assert(sink.written() + tail =~= written + (column_bytes(rest[0]) + extra
                        + tail));
                    assert(record@ =~= spans.push(chunk@));
                    assert(record@ + chunk_spans(
                        statistics,
                        options,
                        rest.skip(1),
                        end as nat,
                        index as nat + 1,
                    ) =~= spans + chunk_spans(
                        statistics,
                        options,
                        rest,
                        cursor as nat,
                        index as nat,
                    ));
                }
                cursor = end;
            },
        }
    }
    let ghost chunks = sink.written();
    if options.write_statistics && options.version == Version::V2 {
        let ghost spans = record@;
        let outcome = write_statistics_section(sink, cursor, &mut record, statistics);
        proof {
            let section = section_bytes(statistics, spans, spans.len() as int);
            assert(chunks.skip(before.len() as int) + section =~= attempted_bytes(
                statistics,
                options,
                model,
                offset as nat,
            ));
            assert(attempted_bytes(statistics, options, model, offset as nat).is_prefix_of(
                attempted_bytes(statistics, options, model, offset as nat),
            ));
            lemma_partly_appended(
                before,
                chunks,
                sink.written(),
                section,
                attempted_bytes(statistics, options, model, offset as nat),
            );
        }
        match outcome {
            Ok(end) => Ok((record, end)),
            Err(e) => Err(e),
        }
    } else {
        assert(chunks.skip(before.len() as int) =~= attempted_bytes(
            statistics,
            options,
            model,
            offset as nat,
        ));
        Ok((record, cursor))
    }
}

} // verus!
