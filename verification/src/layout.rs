//! The layout of a row group: which bytes it consists of, where each column
//! chunk lies, and what follows from that.
//!
//! The layout is stated over a model of what the producers of a row group
//! yield: for every column the outcome of every advance, a page as its
//! bytes, a failure as `None`.

use vstd::prelude::*;
use crate::dyn_iter::StreamingIter;
use crate::options::{Version, WriteOptions};
use crate::page::CompressedPage;
use crate::row_group::ChunkSpan;
use crate::statistics::StatisticsBuilder;

verus! {

/// What a producer makes of one page: its bytes, or `None` for a failure.
pub type PageModel = Option<Seq<u8>>;

/// What a producer makes of one column: the outcome of every advance.
pub type ColumnModel = Seq<PageModel>;

/// The model of one outcome of a page stream.
pub open spec fn page_model<E>(outcome: Result<Seq<u8>, E>) -> PageModel {
    match outcome {
        Ok(page) => Some(page),
        Err(_) => None,
    }
}

/// The model of the outcomes that a page stream has yet to yield.
pub open spec fn pages_model<E>(outcomes: Seq<Result<Seq<u8>, E>>) -> ColumnModel {
    outcomes.map_values(|outcome: Result<Seq<u8>, E>| page_model(outcome))
}

/// The bytes of the pages of `column` that come before its first failure:
/// of all its pages, if none fails.
pub open spec fn column_bytes(column: ColumnModel) -> Seq<u8>
    decreases column.len(),
{
    if column.len() == 0 {
        Seq::empty()
    } else {
        match column[0] {
            Some(page) => page + column_bytes(column.skip(1)),
            None => Seq::empty(),
        }
    }
}

/// Whether the producer of `column` fails on one of its pages.
pub open spec fn column_fails(column: ColumnModel) -> bool
    decreases column.len(),
{
    if column.len() == 0 {
        false
    } else {
        match column[0] {
            Some(_) => column_fails(column.skip(1)),
            None => true,
        }
    }
}

/// The model of one column of a row group. A column that cannot be opened
/// stands for a column whose first page fails.
pub open spec fn column_model<S: StreamingIter<Item = CompressedPage>>(
    column: Result<S, S::Error>,
) -> ColumnModel {
    match column {
        Ok(pages) => pages_model(pages.remaining()),
        Err(_) => seq![None],
    }
}

/// The model of the columns that a row group has yet to yield.
pub open spec fn row_group_model<S: StreamingIter<Item = CompressedPage>>(
    columns: Seq<Result<S, S::Error>>,
) -> Seq<ColumnModel> {
    columns.map_values(|column: Result<S, S::Error>| column_model(column))
}

/// Whether the statistics of a chunk follow its pages in place.
pub open spec fn inline_statistics(options: WriteOptions) -> bool {
    options.write_statistics && options.version == Version::V1
}

/// Whether the statistics of all chunks follow the last chunk of the row
/// group, as a section of their own.
pub open spec fn deferred_statistics(options: WriteOptions) -> bool {
    options.write_statistics && options.version == Version::V2
}

/// The statistics bytes that follow the pages of a chunk in place.
pub open spec fn inline_bytes<B: StatisticsBuilder>(
    statistics: &B,
    options: WriteOptions,
    column: nat,
    start: nat,
    size: nat,
) -> Seq<u8> {
    if inline_statistics(options) {
        statistics.serialized(column, start, size)
    } else {
        Seq::empty()
    }
}

/// Whether the producer of one of `columns` fails.
pub open spec fn row_group_fails(columns: Seq<ColumnModel>) -> bool
    decreases columns.len(),
{
    if columns.len() == 0 {
        false
    } else {
        column_fails(columns[0]) || row_group_fails(columns.skip(1))
    }
}

/// The bytes of the column chunks of `columns` up to the first failure of a
/// producer, or of all chunks if none fails. The first chunk starts at file
/// offset `offset` and belongs to column `index`. With statistics in place,
/// the statistics of a chunk come between its pages and the next chunk.
pub open spec fn chunks_bytes<B: StatisticsBuilder>(
    statistics: &B,
    options: WriteOptions,
    columns: Seq<ColumnModel>,
    offset: nat,
    index: nat,
) -> Seq<u8>
    decreases columns.len(),
{
    if columns.len() == 0 {
        Seq::empty()
    } else {
        let pages = column_bytes(columns[0]);
        if column_fails(columns[0]) {
            pages
        } else {
            let extra = inline_bytes(statistics, options, index, offset, pages.len());
            pages + extra + chunks_bytes(
                statistics,
                options,
                columns.skip(1),
                offset + pages.len() + extra.len(),
                index + 1,
            )
        }
    }
}

/// The entries of the column chunks of `columns` that come before the first
/// failure of a producer, laid out as [`chunks_bytes`] says. Statistics
/// that are not written in place are not yet accounted for.
pub open spec fn chunk_spans<B: StatisticsBuilder>(
    statistics: &B,
    options: WriteOptions,
    columns: Seq<ColumnModel>,
    offset: nat,
    index: nat,
) -> Seq<ChunkSpan>
    decreases columns.len(),
{
    if columns.len() == 0 || column_fails(columns[0]) {
        Seq::empty()
    } else {
        let size = column_bytes(columns[0]).len();
        let extra = inline_bytes(statistics, options, index, offset, size);
        seq![
            ChunkSpan {
                start: offset,
                size,
                statistics_start: offset + size,
                statistics_size: extra.len(),
            },
        ] + chunk_spans(
            statistics,
            options,
            columns.skip(1),
            offset + size + extra.len(),
            index + 1,
        )
    }
}

/// The statistics section of the first `count` chunks of `spans`: the
/// serialized statistics of each, in column order.
pub open spec fn section_bytes<B: StatisticsBuilder>(
    statistics: &B,
    spans: Seq<ChunkSpan>,
    count: int,
) -> Seq<u8>
    decreases count,
{
    if count <= 0 {
        Seq::empty()
    } else {
        section_bytes(statistics, spans, count - 1) + statistics.serialized(
            (count - 1) as nat,
            spans[count - 1].start,
            spans[count - 1].size,
        )
    }
}

/// The entry of chunk `column` of `spans` once its statistics lie in a
/// statistics section that starts at file offset `section`.
pub open spec fn placed_span<B: StatisticsBuilder>(
    statistics: &B,
    spans: Seq<ChunkSpan>,
    section: nat,
    column: int,
) -> ChunkSpan {
    ChunkSpan {
        start: spans[column].start,
        size: spans[column].size,
        statistics_start: section + section_bytes(statistics, spans, column).len(),
        statistics_size: statistics.serialized(
            column as nat,
            spans[column].start,
            spans[column].size,
        ).len(),
    }
}

/// The bytes of a row group whose producers do not fail, written from file
/// offset `offset` on: the column chunks in column order, each the pages of
/// the column in the order of their arrival; the statistics where the
/// options place them.
pub open spec fn row_group_bytes<B: StatisticsBuilder>(
    statistics: &B,
    options: WriteOptions,
    columns: Seq<ColumnModel>,
    offset: nat,
) -> Seq<u8> {
    let chunks = chunks_bytes(statistics, options, columns, offset, 0);
    if deferred_statistics(options) {
        let spans = chunk_spans(statistics, options, columns, offset, 0);
        chunks + section_bytes(statistics, spans, spans.len() as int)
    } else {
        chunks
    }
}

/// What a call that writes a row group from file offset `offset` on sets
/// out to write: the row group, or, where a producer fails, its chunks up
/// to the failure.
pub open spec fn attempted_bytes<B: StatisticsBuilder>(
    statistics: &B,
    options: WriteOptions,
    columns: Seq<ColumnModel>,
    offset: nat,
) -> Seq<u8> {
    if row_group_fails(columns) {
        chunks_bytes(statistics, options, columns, offset, 0)
    } else {
        row_group_bytes(statistics, options, columns, offset)
    }
}

/// The offsets record of a row group whose producers do not fail, written
/// from file offset `offset` on.
pub open spec fn row_group_spans<B: StatisticsBuilder>(
    statistics: &B,
    options: WriteOptions,
    columns: Seq<ColumnModel>,
    offset: nat,
) -> Seq<ChunkSpan> {
    let spans = chunk_spans(statistics, options, columns, offset, 0);
    if deferred_statistics(options) {
        let section = offset + chunks_bytes(statistics, options, columns, offset, 0).len();
        Seq::new(spans.len(), |column: int| placed_span(statistics, spans, section, column))
    } else {
        spans
    }
}

/// The number of entries is the number of columns.
proof fn lemma_spans_len<B: StatisticsBuilder>(
    statistics: &B,
    options: WriteOptions,
    columns: Seq<ColumnModel>,
    offset: nat,
    index: nat,
)
    requires
        !row_group_fails(columns),
    ensures
        chunk_spans(statistics, options, columns, offset, index).len() == columns.len(),
    decreases columns.len(),
{
    if columns.len() > 0 {
        let size = column_bytes(columns[0]).len();
        let extra = inline_bytes(statistics, options, index, offset, size);
        lemma_spans_len(statistics, options, columns.skip(1), offset + size + extra.len(), index + 1);
    }
}

/// Where the chunk of one column lies among the chunks of its row group.
proof fn lemma_chunk_place<B: StatisticsBuilder>(
    statistics: &B,
    options: WriteOptions,
    columns: Seq<ColumnModel>,
    offset: nat,
    index: nat,
    column: int,
)
    requires
        !row_group_fails(columns),
        0 <= column < columns.len(),
    ensures
        ({
            let spans = chunk_spans(statistics, options, columns, offset, index);
            let bytes = chunks_bytes(statistics, options, columns, offset, index);
            let span = spans[column];
            let extra = inline_bytes(statistics, options, (index + column) as nat, span.start, span.size);
            &&& spans.len() == columns.len()
            &&& span.start >= offset
            &&& span.size == column_bytes(columns[column]).len()
            &&& span.statistics_start == span.start + span.size
            &&& span.statistics_size == extra.len()
            &&& span.start - offset + span.size + extra.len() <= bytes.len()
            &&& bytes.subrange(span.start - offset, span.start - offset + span.size)
                == column_bytes(columns[column])
            &&& bytes.subrange(
                span.start - offset + span.size,
                span.start - offset + span.size + extra.len(),
            ) == extra
        }),
    decreases columns.len(),
{
    let spans = chunk_spans(statistics, options, columns, offset, index);
    let bytes = chunks_bytes(statistics, options, columns, offset, index);
    let pages = column_bytes(columns[0]);
    let extra = inline_bytes(statistics, options, index, offset, pages.len());
    let next = offset + pages.len() + extra.len();
    let rest = columns.skip(1);
    let rest_spans = chunk_spans(statistics, options, rest, next, index + 1);
    let rest_bytes = chunks_bytes(statistics, options, rest, next, index + 1);
    lemma_spans_len(statistics, options, columns, offset, index);
    assert(bytes == pages + extra + rest_bytes);
    if column == 0 {
        assert(bytes.subrange(0, pages.len() as int) =~= pages);
        assert(bytes.subrange(pages.len() as int, (pages.len() + extra.len()) as int) =~= extra);
    } else {
        lemma_chunk_place(statistics, options, rest, next, index + 1, column - 1);
        let span = rest_spans[column - 1];
        assert(spans[column] == span);
        assert(rest[column - 1] == columns[column]);
        let shift = (pages.len() + extra.len()) as int;
        let from = span.start - next;
        let more = inline_bytes(
            statistics,
            options,
            (index + column) as nat,
            span.start,
            span.size,
        );
        assert(bytes.subrange(shift + from, shift + from + span.size) =~= rest_bytes.subrange(
            from,
            from + span.size,
        ));
        assert(bytes.subrange(shift + from + span.size, shift + from + span.size + more.len())
            =~= rest_bytes.subrange(from + span.size, from + span.size + more.len()));
    }
}

/// Whether every entry of `spans` gives the place in `file` at which the
/// pages of its chunk lie: entry by entry, the bytes of `file` in the
/// recorded range are the bytes of `chunks`.
pub open spec fn chunks_lie_as_recorded(
    file: Seq<u8>,
    spans: Seq<ChunkSpan>,
    chunks: Seq<Seq<u8>>,
) -> bool {
    &&& spans.len() == chunks.len()
    &&& forall|column: int|
        0 <= column < spans.len() ==> {
            &&& (#[trigger] spans[column]).start + spans[column].size <= file.len()
            &&& file.subrange(
                spans[column].start as int,
                (spans[column].start + spans[column].size) as int,
            ) == chunks[column]
        }
}

/// The bytes of the pages of each column of a row group whose producers do
/// not fail.
pub open spec fn chunk_contents(columns: Seq<ColumnModel>) -> Seq<Seq<u8>> {
    columns.map_values(|column: ColumnModel| column_bytes(column))
}

/// The recorded offsets are the actual byte ranges: when a row group whose
/// producers do not fail is written at the end of a file, the pages of
/// every column chunk lie in the file exactly where the offsets record of
/// the row group says.
pub proof fn lemma_chunks_lie_as_recorded<B: StatisticsBuilder>(
    statistics: &B,
    options: WriteOptions,
    columns: Seq<ColumnModel>,
    file: Seq<u8>,
)
    requires
        !row_group_fails(columns),
    ensures
        chunks_lie_as_recorded(
            file + row_group_bytes(statistics, options, columns, file.len()),
            row_group_spans(statistics, options, columns, file.len()),
            chunk_contents(columns),
        ),
{
    let offset = file.len();
    let bytes = row_group_bytes(statistics, options, columns, offset);
    let chunks = chunks_bytes(statistics, options, columns, offset, 0);
    let spans = row_group_spans(statistics, options, columns, offset);
    let plain = chunk_spans(statistics, options, columns, offset, 0);
    lemma_spans_len(statistics, options, columns, offset, 0);
    assert forall|column: int| 0 <= column < spans.len() implies {
        &&& (#[trigger] spans[column]).start + spans[column].size <= (file + bytes).len()
        &&& (file + bytes).subrange(
            spans[column].start as int,
            (spans[column].start + spans[column].size) as int,
        ) == chunk_contents(columns)[column]
    } by {
        lemma_chunk_place(statistics, options, columns, offset, 0, column);
        let span = plain[column];
        assert(spans[column].start == span.start && spans[column].size == span.size);
        assert((file + bytes).subrange(
            span.start as int,
            (span.start + span.size) as int,
        ) =~= chunks.subrange(span.start - offset, span.start - offset + span.size));
    }
}

/// The bytes of the pages of `columns`, column by column, up to the first
/// failure of a producer, or of all pages if none fails.
pub open spec fn pages_bytes(columns: Seq<ColumnModel>) -> Seq<u8>
    decreases columns.len(),
{
    if columns.len() == 0 {
        Seq::empty()
    } else if column_fails(columns[0]) {
        column_bytes(columns[0])
    } else {
        column_bytes(columns[0]) + pages_bytes(columns.skip(1))
    }
}

/// A row group without columns takes no bytes, has an empty offsets record
/// and does not fail, whatever the options.
pub proof fn lemma_empty_row_group<B: StatisticsBuilder>(
    statistics: &B,
    options: WriteOptions,
    offset: nat,
)
    ensures
        !row_group_fails(Seq::<ColumnModel>::empty()),
        row_group_bytes(statistics, options, Seq::<ColumnModel>::empty(), offset)
            == Seq::<u8>::empty(),
        row_group_spans(statistics, options, Seq::<ColumnModel>::empty(), offset)
            == Seq::<ChunkSpan>::empty(),
{
    let none = Seq::<ColumnModel>::empty();
    let spans = chunk_spans(statistics, options, none, offset, 0);
    assert(spans.len() == 0);
    assert(section_bytes(statistics, spans, 0) == Seq::<u8>::empty());
    assert(row_group_bytes(statistics, options, none, offset) =~= Seq::<u8>::empty());
    assert(row_group_spans(statistics, options, none, offset) =~= Seq::<ChunkSpan>::empty());
}

/// Without `write_statistics` the chunks of a row group are its pages and
/// nothing else, whatever the statistics builder would serialize.
proof fn lemma_chunks_without_statistics<B: StatisticsBuilder>(
    statistics: &B,
    options: WriteOptions,
    columns: Seq<ColumnModel>,
    offset: nat,
    index: nat,
)
    requires
        !(options.write_statistics && options.version == Version::V1),
    ensures
        chunks_bytes(statistics, options, columns, offset, index) == pages_bytes(columns),
    decreases columns.len(),
{
    if columns.len() > 0 && !column_fails(columns[0]) {
        let pages = column_bytes(columns[0]);
        let extra = inline_bytes(statistics, options, index, offset, pages.len());
        assert(extra == Seq::<u8>::empty());
        lemma_chunks_without_statistics(
            statistics,
            options,
            columns.skip(1),
            offset + pages.len(),
            index + 1,
        );
        assert(pages + extra + pages_bytes(columns.skip(1)) =~= pages + pages_bytes(
            columns.skip(1),
        ));
    }
}

/// With `write_statistics` off, no statistics bytes appear anywhere: what
/// is written of a row group, to its end or to the first failure of a
/// producer, is the bytes of its pages, and no entry of its offsets record
/// counts any statistics.
pub proof fn lemma_no_statistics_written<B: StatisticsBuilder>(
    statistics: &B,
    options: WriteOptions,
    columns: Seq<ColumnModel>,
    offset: nat,
)
    requires
        !options.write_statistics,
    ensures
        chunks_bytes(statistics, options, columns, offset, 0) == pages_bytes(columns),
        row_group_bytes(statistics, options, columns, offset) == pages_bytes(columns),
        forall|column: int|
            0 <= column < row_group_spans(statistics, options, columns, offset).len() ==> (
            #[trigger] row_group_spans(
                statistics,
                options,
                columns,
                offset,
            )[column]).statistics_size == 0,
{
    lemma_chunks_without_statistics(statistics, options, columns, offset, 0);
    let spans = row_group_spans(statistics, options, columns, offset);
    assert forall|column: int| 0 <= column < spans.len() implies (
    #[trigger] spans[column]).statistics_size == 0 by {
        lemma_span_without_statistics(statistics, options, columns, offset, 0, column);
    }
}

/// Without statistics in place, an entry counts no statistics bytes.
proof fn lemma_span_without_statistics<B: StatisticsBuilder>(
    statistics: &B,
    options: WriteOptions,
    columns: Seq<ColumnModel>,
    offset: nat,
    index: nat,
    column: int,
)
    requires
        !(options.write_statistics && options.version == Version::V1),
        0 <= column < chunk_spans(statistics, options, columns, offset, index).len(),
    ensures
        chunk_spans(statistics, options, columns, offset, index)[column].statistics_size == 0,
    decreases columns.len(),
{
    if column > 0 {
        let size = column_bytes(columns[0]).len();
        lemma_span_without_statistics(
            statistics,
            options,
            columns.skip(1),
            offset + size,
            index + 1,
            column - 1,
        );
    }
}

/// A statistics section begins with the section of fewer chunks.
pub proof fn lemma_section_grows<B: StatisticsBuilder>(
    statistics: &B,
    spans: Seq<ChunkSpan>,
    fewer: int,
    count: int,
)
    requires
        0 <= fewer <= count,
    ensures
        section_bytes(statistics, spans, fewer).is_prefix_of(
            section_bytes(statistics, spans, count),
        ),
    decreases count - fewer,
{
    let short = section_bytes(statistics, spans, fewer);
    if fewer < count {
        lemma_section_grows(statistics, spans, fewer + 1, count);
        let longer = section_bytes(statistics, spans, fewer + 1);
        let whole = section_bytes(statistics, spans, count);
        assert(short =~= longer.subrange(0, short.len() as int));
        assert(short =~= whole.subrange(0, short.len() as int));
    } else {
        assert(short =~= short.subrange(0, short.len() as int));
    }
}

/// Where the statistics of one chunk lie in a statistics section.
proof fn lemma_section_place<B: StatisticsBuilder>(
    statistics: &B,
    spans: Seq<ChunkSpan>,
    count: int,
    column: int,
)
    requires
        0 <= column < count,
    ensures
        ({
            let section = section_bytes(statistics, spans, count);
            let from = section_bytes(statistics, spans, column).len() as int;
            let bytes = statistics.serialized(
                column as nat,
                spans[column].start,
                spans[column].size,
            );
            &&& from + bytes.len() <= section.len()
            &&& section.subrange(from, from + bytes.len()) == bytes
        }),
    decreases count,
{
    let section = section_bytes(statistics, spans, count);
    let from = section_bytes(statistics, spans, column).len() as int;
    let bytes = statistics.serialized(column as nat, spans[column].start, spans[column].size);
    if column == count - 1 {
        assert(section.subrange(from, from + bytes.len()) =~= bytes);
    } else {
        lemma_section_place(statistics, spans, count - 1, column);
        let shorter = section_bytes(statistics, spans, count - 1);
        assert(section.subrange(from, from + bytes.len()) =~= shorter.subrange(
            from,
            from + bytes.len(),
        ));
    }
}

/// With `write_statistics` on, the serialized statistics of every chunk lie
/// in the file exactly where the offsets record says: when a row group
/// whose producers do not fail is written at the end of a file, the bytes
/// in the recorded statistics range of each entry are what the statistics
/// builder serializes for that chunk.
pub proof fn lemma_statistics_lie_as_recorded<B: StatisticsBuilder>(
    statistics: &B,
    options: WriteOptions,
    columns: Seq<ColumnModel>,
    file: Seq<u8>,
)
    requires
        options.write_statistics,
        !row_group_fails(columns),
    ensures
        ({
            let written = file + row_group_bytes(statistics, options, columns, file.len());
            let spans = row_group_spans(statistics, options, columns, file.len());
            &&& spans.len() == columns.len()
            &&& forall|column: int|
                0 <= column < spans.len() ==> {
                    let span = #[trigger] spans[column];
                    let bytes = statistics.serialized(column as nat, span.start, span.size);
                    &&& span.statistics_size == bytes.len()
                    &&& span.statistics_start + span.statistics_size <= written.len()
                    &&& written.subrange(
                        span.statistics_start as int,
                        (span.statistics_start + span.statistics_size) as int,
                    ) == bytes
                }
        }),
{
    let offset = file.len();
    let chunks = chunks_bytes(statistics, options, columns, offset, 0);
    let plain = chunk_spans(statistics, options, columns, offset, 0);
    let written = file + row_group_bytes(statistics, options, columns, offset);
    let spans = row_group_spans(statistics, options, columns, offset);
    lemma_spans_len(statistics, options, columns, offset, 0);
    assert forall|column: int| 0 <= column < spans.len() implies {
        let span = #[trigger] spans[column];
        let bytes = statistics.serialized(column as nat, span.start, span.size);
        &&& span.statistics_size == bytes.len()
        &&& span.statistics_start + span.statistics_size <= written.len()
        &&& written.subrange(
            span.statistics_start as int,
            (span.statistics_start + span.statistics_size) as int,
        ) == bytes
    } by {
        let span = spans[column];
        let bytes = statistics.serialized(column as nat, span.start, span.size);
        lemma_chunk_place(statistics, options, columns, offset, 0, column);
        if deferred_statistics(options) {
            let section = section_bytes(statistics, plain, plain.len() as int);
            let from = section_bytes(statistics, plain, column).len() as int;
            lemma_section_place(statistics, plain, plain.len() as int, column);
            assert(written.subrange(
                span.statistics_start as int,
                (span.statistics_start + span.statistics_size) as int,
            ) =~= section.subrange(from, from + bytes.len()));
        } else {
            let from = plain[column].start - offset + plain[column].size;
            assert(written.subrange(
                span.statistics_start as int,
                (span.statistics_start + span.statistics_size) as int,
            ) =~= chunks.subrange(from, from + bytes.len()));
        }
    }
}

/// In version 1 the statistics of a chunk directly follow its pages.
pub proof fn lemma_statistics_in_place<B: StatisticsBuilder>(
    statistics: &B,
    options: WriteOptions,
    columns: Seq<ColumnModel>,
    offset: nat,
)
    requires
        inline_statistics(options),
        !row_group_fails(columns),
    ensures
        forall|column: int|
            0 <= column < row_group_spans(statistics, options, columns, offset).len() ==> {
                let span = #[trigger] row_group_spans(statistics, options, columns, offset)[column];
                span.statistics_start == span.start + span.size
            },
{
    let spans = row_group_spans(statistics, options, columns, offset);
    assert forall|column: int| 0 <= column < spans.len() implies {
        let span = #[trigger] spans[column];
        span.statistics_start == span.start + span.size
    } by {
        lemma_spans_len(statistics, options, columns, offset, 0);
        lemma_chunk_place(statistics, options, columns, offset, 0, column);
    }
}

/// In version 2 no statistics lie among the chunks: the row group is the
/// bytes of its pages followed by the statistics section, and the
/// statistics of every chunk are recorded inside that section.
pub proof fn lemma_statistics_in_section<B: StatisticsBuilder>(
    statistics: &B,
    options: WriteOptions,
    columns: Seq<ColumnModel>,
    offset: nat,
)
    requires
        deferred_statistics(options),
        !row_group_fails(columns),
    ensures
        ({
            let plain = chunk_spans(statistics, options, columns, offset, 0);
            let spans = row_group_spans(statistics, options, columns, offset);
            &&& row_group_bytes(statistics, options, columns, offset) == pages_bytes(columns)
                + section_bytes(statistics, plain, plain.len() as int)
            &&& forall|column: int|
                0 <= column < spans.len() ==> (#[trigger] spans[column]).statistics_start
                    >= offset + pages_bytes(columns).len()
        }),
{
    lemma_chunks_without_statistics(statistics, options, columns, offset, 0);
}

/// A column whose producer first fails on page `page` contributes the
/// bytes of the pages before it and nothing else.
pub proof fn lemma_column_stops_at_failure(column: ColumnModel, page: int)
    requires
        0 <= page < column.len(),
        column[page] is None,
        forall|earlier: int| 0 <= earlier < page ==> column[earlier] is Some,
    ensures
        column_fails(column),
        !column_fails(column.take(page)),
        column_bytes(column) == column_bytes(column.take(page)),
    decreases page,
{
    if page > 0 {
        assert(column[0] is Some);
        lemma_column_stops_at_failure(column.skip(1), page - 1);
        assert(column.take(page).skip(1) =~= column.skip(1).take(page - 1));
        assert(column.take(page)[0] == column[0]);
    }
}

/// A row group whose first failing column is `column` leaves in the file
/// the complete chunks of the columns before it and, of the failing column,
/// the pages before its failure; nothing else.
pub proof fn lemma_row_group_stops_at_failure<B: StatisticsBuilder>(
    statistics: &B,
    options: WriteOptions,
    columns: Seq<ColumnModel>,
    offset: nat,
    index: nat,
    column: int,
)
    requires
        0 <= column < columns.len(),
        column_fails(columns[column]),
        forall|earlier: int| 0 <= earlier < column ==> !column_fails(columns[earlier]),
    ensures
        row_group_fails(columns),
        !row_group_fails(columns.take(column)),
        chunks_bytes(statistics, options, columns, offset, index) == chunks_bytes(
            statistics,
            options,
            columns.take(column),
            offset,
            index,
        ) + column_bytes(columns[column]),
    decreases column,
{
    let whole = chunks_bytes(statistics, options, columns, offset, index);
    let before = chunks_bytes(statistics, options, columns.take(column), offset, index);
    if column == 0 {
        assert(whole =~= before + column_bytes(columns[0]));
    } else {
        assert(!column_fails(columns[0]));
        let pages = column_bytes(columns[0]);
        let extra = inline_bytes(statistics, options, index, offset, pages.len());
        let next = offset + pages.len() + extra.len();
        lemma_row_group_stops_at_failure(
            statistics,
            options,
            columns.skip(1),
            next,
            index + 1,
            column - 1,
        );
        assert(columns.take(column).skip(1) =~= columns.skip(1).take(column - 1));
        assert(columns.take(column)[0] == columns[0]);
        assert(columns.skip(1)[column - 1] == columns[column]);
        assert(whole =~= before + column_bytes(columns[column]));
    }
}

} // verus!
