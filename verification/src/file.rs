//! The writer of one file: the sink, the lifecycle and the running offset.

use vstd::prelude::*;
use crate::dyn_iter::{LazyIter, StreamingIter};
use crate::error::WriteError;
use crate::footer::{
    end_file, footer_bytes, footer_section, magic_bytes, records_view, start_file,
    FooterSerializer,
};
use crate::options::WriteOptions;
use crate::page::CompressedPage;
use crate::layout::{
    attempted_bytes, chunk_contents, chunks_bytes, chunks_lie_as_recorded,
    lemma_chunks_lie_as_recorded, row_group_bytes, row_group_fails, row_group_model,
    row_group_spans,
};
use crate::row_group::{write_row_group, ChunkSpan, ColumnOffsetsMetadata};
use crate::sink::{partly_appended, Sink};
use crate::statistics::StatisticsBuilder;

verus! {

/// Where a writer is in the life of its file. A writer only ever moves
/// forward: from `Initialised` to `Started` to `Finished`.
#[derive(Debug, Copy, Clone, PartialEq, Eq, Hash, Structural)]
pub enum State {
    /// Nothing has been written.
    Initialised,
    /// The header is written; row groups may follow.
    Started,
    /// The footer is written; the file is complete.
    Finished,
}

impl State {
    /// How far a writer in this state has come: a writer never goes back
    /// to a state of a lower rank.
    pub open spec fn rank(self) -> nat {
        match self {
            State::Initialised => 0,
            State::Started => 1,
            State::Finished => 2,
        }
    }
}

/// The parts of `parts` one after another.
pub open spec fn joined(parts: Seq<Seq<u8>>) -> Seq<u8>
    decreases parts.len(),
{
    if parts.len() == 0 {
        Seq::empty()
    } else {
        joined(parts.drop_last()) + parts.last()
    }
}

/// The bytes of a file in state `state` whose row groups are `row_groups`
/// and whose serialized footer is `footer`: the magic; the row groups in
/// the order of their writing; then, for a finished file, the footer, its
/// length and the magic again.
pub open spec fn file_layout(state: State, row_groups: Seq<Seq<u8>>, footer: Seq<u8>) -> Seq<u8> {
    match state {
        State::Initialised => Seq::empty(),
        State::Started => magic_bytes() + joined(row_groups),
        State::Finished => magic_bytes() + joined(row_groups) + footer_section(footer),
    }
}

/// The parts of `parts` and then `part`, one after another.
proof fn lemma_joined_push(parts: Seq<Seq<u8>>, part: Seq<u8>)
    ensures
        joined(parts.push(part)) == joined(parts) + part,
{
    assert(parts.push(part).drop_last() =~= parts);
}

/// What is appended to a file moves no chunk.
proof fn lemma_chunks_stay(
    file: Seq<u8>,
    more: Seq<u8>,
    spans: Seq<ChunkSpan>,
    chunks: Seq<Seq<u8>>,
)
    requires
        chunks_lie_as_recorded(file, spans, chunks),
    ensures
        chunks_lie_as_recorded(file + more, spans, chunks),
{
    assert forall|column: int| 0 <= column < spans.len() implies {
        &&& (#[trigger] spans[column]).start + spans[column].size <= (file + more).len()
        &&& (file + more).subrange(
            spans[column].start as int,
            (spans[column].start + spans[column].size) as int,
        ) == chunks[column]
    } by {
        assert((file + more).subrange(
            spans[column].start as int,
            (spans[column].start + spans[column].size) as int,
        ) =~= file.subrange(
            spans[column].start as int,
            (spans[column].start + spans[column].size) as int,
        ));
    }
}

/// What holds of a sink holds of the file that starts at `origin` in it.
proof fn lemma_partly_appended_from(
    before: Seq<u8>,
    after: Seq<u8>,
    bytes: Seq<u8>,
    origin: int,
)
    requires
        partly_appended(before, after, bytes),
        0 <= origin <= before.len(),
    ensures
        partly_appended(before.skip(origin), after.skip(origin), bytes),
        after.skip(origin) == before.skip(origin) + after.skip(before.len() as int),
{
    assert(before.skip(origin) =~= after.skip(origin).subrange(0, before.len() - origin));
    assert(after.skip(origin).skip(before.len() - origin) =~= after.skip(before.len() as int));
    assert(after.skip(origin) =~= before.skip(origin) + after.skip(before.len() as int));
}

/// Writes one file to a sink that it owns.
pub struct FileWriter<W: Sink> {
    sink: W,
    options: WriteOptions,
    state: State,
    offset: u64,
    row_groups: Vec<ColumnOffsetsMetadata>,
    // The length that the sink had when the writer took it over.
    origin: Ghost<nat>,
    // The bytes of each row group written, as they went to the sink.
    written_groups: Ghost<Seq<Seq<u8>>>,
    // The bytes of the pages of each chunk of each row group written.
    written_chunks: Ghost<Seq<Seq<Seq<u8>>>>,
    // The serialized footer, once the file is finished.
    written_footer: Ghost<Seq<u8>>,
}

impl<W: Sink> FileWriter<W> {
    /// What holds of every writer, whatever came of its operations: the
    /// sink holds at least the bytes that the running offset counts.
    pub closed spec fn wf(&self) -> bool {
        self.origin@ + self.offset <= self.sink.written().len()
    }

    /// The state of the writer.
    pub closed spec fn spec_state(&self) -> State {
        self.state
    }

    /// The options that the writer was made with.
    pub closed spec fn spec_options(&self) -> WriteOptions {
        self.options
    }

    /// The file offset at which the next row group starts.
    pub closed spec fn spec_offset(&self) -> u64 {
        self.offset
    }

    /// The offsets records of the row groups written, in mathematical form.
    pub closed spec fn records(&self) -> Seq<Seq<ChunkSpan>> {
        records_view(self.row_groups@)
    }

    /// Every byte that the sink has accepted, from this writer or before.
    pub closed spec fn sink_bytes(&self) -> Seq<u8> {
        self.sink.written()
    }

    /// Whether the sink accepts every write and every flush.
    pub closed spec fn reliable(&self) -> bool {
        self.sink.reliable()
    }

    /// Whether every byte of the file has reached its destination.
    pub closed spec fn flushed(&self) -> bool {
        self.sink.flushed()
    }

    /// The bytes of the file: what the sink has accepted since the writer
    /// took it over.
    pub closed spec fn file(&self) -> Seq<u8> {
        self.sink.written().skip(self.origin@ as int)
    }

    /// The bytes of each row group written, as they went to the sink.
    pub closed spec fn row_groups(&self) -> Seq<Seq<u8>> {
        self.written_groups@
    }

    /// The bytes of the pages of each chunk of each row group written.
    pub closed spec fn chunks(&self) -> Seq<Seq<Seq<u8>>> {
        self.written_chunks@
    }

    /// The serialized footer of a finished file.
    pub closed spec fn footer(&self) -> Seq<u8> {
        self.written_footer@
    }

    /// Whether the writer and its file agree: the file has the layout of
    /// its state, the running offset is the length of the file, and every
    /// recorded chunk lies in the file where its entry says. A new writer
    /// is in step with its file, and every operation that succeeds keeps it
    /// so.
    pub open spec fn in_step(&self) -> bool {
        &&& self.spec_offset() == self.file().len()
        &&& self.file() == file_layout(self.spec_state(), self.row_groups(), self.footer())
        &&& self.records().len() == self.chunks().len()
        &&& self.records().len() == self.row_groups().len()
        &&& self.spec_state() == State::Initialised ==> self.records().len() == 0
        &&& forall|group: int|
            0 <= group < self.records().len() ==> chunks_lie_as_recorded(
                self.file(),
                #[trigger] self.records()[group],
                self.chunks()[group],
            )
    }

    /// The recorded offsets are the actual byte ranges: in a writer that is
    /// in step with its file, whatever row groups were appended, the pages
    /// of every column chunk lie in the file exactly where the offsets
    /// record of their row group says.
    pub proof fn lemma_offsets_are_byte_ranges(&self, group: int, column: int)
        requires
            self.in_step(),
            0 <= group < self.records().len(),
            0 <= column < self.records()[group].len(),
        ensures
            column < self.chunks()[group].len(),
            self.records()[group][column].start + self.records()[group][column].size
                <= self.file().len(),
            self.file().subrange(
                self.records()[group][column].start as int,
                (self.records()[group][column].start + self.records()[group][column].size) as int,
            ) == self.chunks()[group][column],
    {
        let spans = self.records()[group];
        assert(chunks_lie_as_recorded(self.file(), spans, self.chunks()[group]));
        assert(spans[column].start + spans[column].size <= self.file().len());
    }

    /// The layout of a finished file: the magic, the row groups in the
    /// order of their writing, the footer, its length and the magic again;
    /// and the running offset is the size of the file.
    pub proof fn lemma_finished_file(&self)
        requires
            self.in_step(),
            self.spec_state() == State::Finished,
        ensures
            self.file() == magic_bytes() + joined(self.row_groups()) + footer_section(
                self.footer(),
            ),
            self.spec_offset() == self.file().len(),
    {
    }

    /// The file does not depend on the sink: two writers in step with their
    /// files, in the same state, that were handed the same row groups and
    /// the same footer hold the same file, byte for byte, whatever sink
    /// each of them writes to.
    pub proof fn lemma_file_is_independent_of_sink<V: Sink>(&self, other: &FileWriter<V>)
        requires
            self.in_step(),
            other.in_step(),
            self.spec_state() == other.spec_state(),
            self.row_groups() == other.row_groups(),
            self.footer() == other.footer(),
        ensures
            self.file() == other.file(),
            self.spec_offset() == other.spec_offset(),
    {
    }

    /// A writer for a new file that goes to `sink`.
    pub fn new(sink: W, options: WriteOptions) -> (writer: Self)
        ensures
            writer.spec_state() == State::Initialised,
            writer.spec_options() == options,
            writer.spec_offset() == 0,
            writer.sink_bytes() == sink.written(),
            writer.reliable() == sink.reliable(),
            writer.file() == Seq::<u8>::empty(),
            writer.records() == Seq::<Seq<ChunkSpan>>::empty(),
            writer.wf(),
            writer.in_step(),
    {
        let ghost origin = sink.written().len();
        let writer = FileWriter {
            sink,
            options,
            state: State::Initialised,
            offset: 0,
            row_groups: Vec::new(),
            origin: Ghost(origin),
            written_groups: Ghost(Seq::empty()),
            written_chunks: Ghost(Seq::empty()),
            written_footer: Ghost(Seq::empty()),
        };
        assert(writer.file() =~= Seq::<u8>::empty());
        assert(writer.records() =~= Seq::<Seq<ChunkSpan>>::empty());
        writer
    }

    /// The state of the writer.
    #[verifier::when_used_as_spec(spec_state)]
    pub fn state(&self) -> (state: State)
        ensures
            state == self.spec_state(),
    {
        self.state
    }

    /// The options that the writer was made with.
    #[verifier::when_used_as_spec(spec_options)]
    pub fn options(&self) -> (options: WriteOptions)
        ensures
            options == self.spec_options(),
    {
        self.options
    }

    /// The file offset at which the next row group starts.
    #[verifier::when_used_as_spec(spec_offset)]
    pub fn offset(&self) -> (offset: u64)
        ensures
            offset == self.spec_offset(),
    {
        self.offset
    }

    /// The offsets records of the row groups written.
    pub fn metadata(&self) -> (records: &[ColumnOffsetsMetadata])
        ensures
            records_view(records@) == self.records(),
    {
        self.row_groups.as_slice()
    }

    /// Opens the file: writes the magic.
    ///
    /// A writer that is not `Initialised` refuses: it writes nothing and
    /// stays as it is.
    pub fn start(&mut self) -> (outcome: Result<(), WriteError>)
        requires
            old(self).wf(),
        ensures
            final(self).wf(),
            final(self).spec_options() == old(self).spec_options(),
            final(self).reliable() == old(self).reliable(),
            final(self).records() == old(self).records(),
            old(self).spec_state().rank() <= final(self).spec_state().rank(),
            partly_appended(old(self).file(), final(self).file(), magic_bytes()),
            old(self).spec_state() != State::Initialised ==> {
                &&& outcome == Err::<(), WriteError>(WriteError::OutOfOrder)
                &&& *final(self) == *old(self)
            },
            old(self).spec_state() == State::Initialised ==> match outcome {
                Ok(()) => {
                    &&& final(self).spec_state() == State::Started
                    &&& final(self).file() == old(self).file() + magic_bytes()
                    &&& final(self).spec_offset() == old(self).spec_offset() + 4
                },
                Err(WriteError::Io) => {
                    &&& !old(self).reliable()
                    &&& final(self).spec_state() == State::Initialised
                    &&& final(self).spec_offset() == old(self).spec_offset()
                },
                Err(_) => false,
            },
            old(self).in_step() && outcome is Ok ==> final(self).in_step(),
    {
        match self.state {
            State::Initialised => {},
            _ => {
                assert(self.file().skip(self.file().len() as int) =~= magic_bytes().subrange(
                    0,
                    0,
                ));
                return Err(WriteError::OutOfOrder);
            },
        }
        let ghost before = self.sink.written();
        let outcome = start_file(&mut self.sink);
        proof {
            lemma_partly_appended_from(
                before,
                self.sink.written(),
                magic_bytes(),
                self.origin@ as int,
            );
        }
        match outcome {
            Err(e) => Err(e),
            Ok(size) => {
                self.offset = self.offset + size;
                self.state = State::Started;
                proof {
                    assert(self.file() =~= old(self).file() + magic_bytes());
                    if old(self).in_step() {
                        assert(self.row_groups() =~= Seq::<Seq<u8>>::empty());
                        assert(self.file() =~= magic_bytes() + joined(self.row_groups()));
                    }
                }
                Ok(())
            },
        }
    }

    /// Appends one row group: every page of every column of `columns`, and
    /// the statistics where the options of the writer place them. The
    /// writer keeps the offsets record of the row group for the footer.
    ///
    /// A writer that is not `Started` refuses: it writes nothing, pulls
    /// nothing from `columns` and stays as it is. After a failure of a
    /// producer or of the sink the file is unusable.
    pub fn write<I, S, B>(&mut self, columns: I, statistics: &B) -> (outcome: Result<
        (),
        WriteError,
    >) where
        I: LazyIter<Item = Result<S, S::Error>>,
        S: StreamingIter<Item = CompressedPage>,
        B: StatisticsBuilder,

        requires
            old(self).wf(),
        ensures
            final(self).wf(),
            final(self).spec_options() == old(self).spec_options(),
            final(self).reliable() == old(self).reliable(),
            final(self).spec_state() == old(self).spec_state(),
            partly_appended(
                old(self).file(),
                final(self).file(),
                attempted_bytes(
                    statistics,
                    old(self).spec_options(),
                    row_group_model(columns.remaining()),
                    old(self).spec_offset() as nat,
                ),
            ),
            old(self).spec_state() != State::Started ==> {
                &&& outcome == Err::<(), WriteError>(WriteError::OutOfOrder)
                &&& *final(self) == *old(self)
            },
            old(self).spec_state() == State::Started ==> match outcome {
                Ok(()) => {
                    &&& !row_group_fails(row_group_model(columns.remaining()))
                    &&& final(self).file() == old(self).file() + row_group_bytes(
                        statistics,
                        old(self).spec_options(),
                        row_group_model(columns.remaining()),
                        old(self).spec_offset() as nat,
                    )
                    &&& final(self).records() == old(self).records().push(
                        row_group_spans(
                            statistics,
                            old(self).spec_options(),
                            row_group_model(columns.remaining()),
                            old(self).spec_offset() as nat,
                        ),
                    )
                    &&& final(self).spec_offset() == old(self).spec_offset() + row_group_bytes(
                        statistics,
                        old(self).spec_options(),
                        row_group_model(columns.remaining()),
                        old(self).spec_offset() as nat,
                    ).len()
                    &&& final(self).row_groups() == old(self).row_groups().push(
                        row_group_bytes(
                            statistics,
                            old(self).spec_options(),
                            row_group_model(columns.remaining()),
                            old(self).spec_offset() as nat,
                        ),
                    )
                    &&& final(self).chunks() == old(self).chunks().push(
                        chunk_contents(row_group_model(columns.remaining())),
                    )
                },
                Err(WriteError::Encoding) => {
                    &&& row_group_fails(row_group_model(columns.remaining()))
                    &&& final(self).file() == old(self).file() + chunks_bytes(
                        statistics,
                        old(self).spec_options(),
                        row_group_model(columns.remaining()),
                        old(self).spec_offset() as nat,
                        0,
                    )
                    &&& final(self).records() == old(self).records()
                    &&& final(self).spec_offset() == old(self).spec_offset()
                },
                Err(WriteError::Io) => {
                    &&& !old(self).reliable()
                    &&& final(self).records() == old(self).records()
                    &&& final(self).spec_offset() == old(self).spec_offset()
                },
                Err(WriteError::OutOfOrder) => false,
            },
            old(self).in_step() && outcome is Ok ==> final(self).in_step(),
    {
        let ghost model = row_group_model(columns.remaining());
        match self.state {
            State::Started => {},
            _ => {
                assert(self.file().skip(self.file().len() as int) =~= attempted_bytes(
                    statistics,
                    self.options,
                    model,
                    self.offset as nat,
                ).subrange(0, 0));
                return Err(WriteError::OutOfOrder);
            },
        }
        let ghost before = self.sink.written();
        let outcome = write_row_group(
            &mut self.sink,
            self.offset,
            columns,
            self.options,
            statistics,
        );
        proof {
            lemma_partly_appended_from(
                before,
                self.sink.written(),
                attempted_bytes(statistics, self.options, model, self.offset as nat),
                self.origin@ as int,
            );
        }
        match outcome {
            Err(e) => {
                proof {
                    if e == WriteError::Encoding {
                        assert(self.sink.written().skip(before.len() as int) =~= chunks_bytes(
                            statistics,
                            self.options,
                            model,
                            self.offset as nat,
                            0,
                        ));
                    }
                }
                Err(e)
            },
            Ok((record, end)) => {
                let ghost bytes = row_group_bytes(
                    statistics,
                    self.options,
                    model,
                    self.offset as nat,
                );
                let ghost records = self.row_groups@;
                self.row_groups.push(record);
                self.offset = end;
                self.written_groups = Ghost(self.written_groups@.push(bytes));
                self.written_chunks = Ghost(self.written_chunks@.push(chunk_contents(model)));
                proof {
                    assert(self.file() =~= old(self).file() + bytes);
                    assert(records_view(records.push(record)) =~= records_view(records).push(
                        record@,
                    ));
                    if old(self).in_step() {
                        lemma_joined_push(old(self).row_groups(), bytes);
                        assert(self.file() =~= magic_bytes() + joined(self.row_groups()));
                        lemma_chunks_lie_as_recorded(
                            statistics,
                            self.options,
                            model,
                            old(self).file(),
                        );
                        assert forall|group: int|
                            0 <= group < self.records().len() implies chunks_lie_as_recorded(
                            self.file(),
                            #[trigger] self.records()[group],
                            self.chunks()[group],
                        ) by {
                            if group < old(self).records().len() {
                                assert(self.records()[group] == old(self).records()[group]);
                                lemma_chunks_stay(
                                    old(self).file(),
                                    bytes,
                                    old(self).records()[group],
                                    old(self).chunks()[group],
                                );
                            }
                        }
                    }
                }
                Ok(())
            },
        }
    }

    /// Closes the file: has `serializer` serialize the footer from the
    /// offsets records kept, writes it, its length and the magic, and
    /// flushes the sink. Returns the size of the file.
    ///
    /// A writer that is not `Started` refuses: it writes nothing and stays
    /// as it is. A writer whose footer cannot be written stays `Started`.
    pub fn end<F: FooterSerializer>(&mut self, serializer: &F) -> (outcome: Result<
        u64,
        WriteError,
    >)
        requires
            old(self).wf(),
        ensures
            final(self).wf(),
            final(self).spec_options() == old(self).spec_options(),
            final(self).reliable() == old(self).reliable(),
            final(self).records() == old(self).records(),
            final(self).row_groups() == old(self).row_groups(),
            final(self).chunks() == old(self).chunks(),
            old(self).spec_state().rank() <= final(self).spec_state().rank(),
            partly_appended(
                old(self).file(),
                final(self).file(),
                footer_section(
                    serializer.serialized(
                        old(self).spec_options().version.number(),
                        old(self).records(),
                    ),
                ),
            ),
            old(self).spec_state() != State::Started ==> {
                &&& outcome == Err::<u64, WriteError>(WriteError::OutOfOrder)
                &&& *final(self) == *old(self)
            },
            old(self).spec_state() == State::Started ==> match outcome {
                Ok(size) => {
                    &&& final(self).spec_state() == State::Finished
                    &&& final(self).footer() == serializer.serialized(
                        old(self).spec_options().version.number(),
                        old(self).records(),
                    )
                    &&& final(self).footer().len() <= u32::MAX
                    &&& final(self).file() == old(self).file() + footer_section(
                        final(self).footer(),
                    )
                    &&& size == old(self).spec_offset() + footer_section(
                        final(self).footer(),
                    ).len()
                    &&& final(self).spec_offset() == size
                    &&& final(self).flushed()
                },
                Err(WriteError::Encoding) => {
                    &&& serializer.serialized(
                        old(self).spec_options().version.number(),
                        old(self).records(),
                    ).len() > u32::MAX
                    &&& final(self).file() == old(self).file()
                    &&& final(self).spec_state() == State::Started
                    &&& final(self).spec_offset() == old(self).spec_offset()
                },
                Err(WriteError::Io) => {
                    &&& !old(self).reliable()
                    &&& final(self).spec_state() == State::Started
                    &&& final(self).spec_offset() == old(self).spec_offset()
                },
                Err(WriteError::OutOfOrder) => false,
            },
            old(self).in_step() && outcome is Ok ==> final(self).in_step(),
    {
        let ghost footer = footer_bytes(serializer, self.options.version, self.row_groups@);
        match self.state {
            State::Started => {},
            _ => {
                assert(self.file().skip(self.file().len() as int) =~= footer_section(
                    footer,
                ).subrange(0, 0));
                return Err(WriteError::OutOfOrder);
            },
        }
        let ghost before = self.sink.written();
        let outcome = end_file(
            &mut self.sink,
            serializer,
            self.options.version,
            self.row_groups.as_slice(),
        );
        proof {
            lemma_partly_appended_from(
                before,
                self.sink.written(),
                footer_section(footer),
                self.origin@ as int,
            );
        }
        match outcome {
            Err(e) => Err(e),
            Ok(size) => {
                self.offset = self.offset + size;
                self.state = State::Finished;
                self.written_footer = Ghost(footer);
                proof {
                    assert(self.file() =~= old(self).file() + footer_section(footer));
                    if old(self).in_step() {
                        assert forall|group: int|
                            0 <= group < self.records().len() implies chunks_lie_as_recorded(
                            self.file(),
                            #[trigger] self.records()[group],
                            self.chunks()[group],
                        ) by {
                            lemma_chunks_stay(
                                old(self).file(),
                                footer_section(footer),
                                old(self).records()[group],
                                old(self).chunks()[group],
                            );
                        }
                    }
                }
                Ok(self.offset)
            },
        }
    }

    /// Gives the sink back.
    pub fn into_inner(self) -> (sink: W)
        ensures
            sink.written() == self.sink_bytes(),
            sink.reliable() == self.reliable(),
            sink.flushed() == self.flushed(),
    {
        self.sink
    }
}

} // verus!
