//! The frame of a file: the magic that opens it; the serialized footer, its
//! length and the magic that close it; and the metadata sidecar.

use vstd::prelude::*;
use crate::error::WriteError;
use crate::options::Version;
use crate::row_group::{ChunkSpan, ColumnOffsetsMetadata};
use crate::sink::{lemma_partly_appended, partly_appended, Sink};

verus! {

/// The four bytes that open and close every file: `PAR1`.
pub const MAGIC: [u8; 4] = [0x50, 0x41, 0x52, 0x31];

/// The magic as a sequence of bytes.
pub open spec fn magic_bytes() -> Seq<u8> {
    seq![0x50u8, 0x41u8, 0x52u8, 0x31u8]
}

/// The number of bytes that follow the serialized footer: its length and
/// the magic.
pub const TRAILER_SIZE: u64 = 8;

/// The four bytes of `length`, least significant first.
pub open spec fn length_bytes(length: nat) -> Seq<u8> {
    seq![
        (length % 256) as u8,
        (length / 256 % 256) as u8,
        (length / 65536 % 256) as u8,
        (length / 16777216 % 256) as u8,
    ]
}

/// What ends a file whose serialized footer is `footer`: the footer, its
/// length in four bytes, least significant first, and the magic.
pub open spec fn footer_section(footer: Seq<u8>) -> Seq<u8> {
    footer + length_bytes(footer.len()) + magic_bytes()
}

/// The offsets records of the row groups of a file, in mathematical form.
pub open spec fn records_view(records: Seq<ColumnOffsetsMetadata>) -> Seq<Seq<ChunkSpan>> {
    records.map_values(|record: ColumnOffsetsMetadata| record@)
}

/// The collaborator that serializes the footer of a file.
///
/// The model is a function from the version number and the offsets records
/// to bytes. An implementation outside verified code keeps the default body
/// of the spec function; nothing is then proved about it.
pub trait FooterSerializer {
    /// The serialized footer of a file of version `version` whose row
    /// groups have the offsets records `row_groups`.
    open spec fn serialized(&self, version: int, row_groups: Seq<Seq<ChunkSpan>>) -> Seq<u8> {
        Seq::empty()
    }

    /// Serializes the footer of a file of version `version` whose row
    /// groups have the offsets records `row_groups`.
    fn serialize(&self, version: i32, row_groups: &[ColumnOffsetsMetadata]) -> (footer: Vec<u8>)
        ensures
            footer@ == self.serialized(version as int, records_view(row_groups@)),
    ;
}

/// The eight bytes that follow a serialized footer of `length` bytes.
fn trailer(length: u32) -> (bytes: [u8; 8])
    ensures
        bytes@ == length_bytes(length as nat) + magic_bytes(),
{
    let bytes = [
        (length % 256) as u8,
        (length / 256 % 256) as u8,
        (length / 65536 % 256) as u8,
        (length / 16777216 % 256) as u8,
        MAGIC[0],
        MAGIC[1],
        MAGIC[2],
        MAGIC[3],
    ];
    assert(bytes@ =~= length_bytes(length as nat) + magic_bytes());
    bytes
}

/// Opens a file: writes the magic to `sink`. Returns the number of bytes
/// written.
pub fn start_file<W: Sink>(sink: &mut W) -> (outcome: Result<u64, WriteError>)
    ensures
        partly_appended(old(sink).written(), final(sink).written(), magic_bytes()),
        final(sink).reliable() == old(sink).reliable(),
        match outcome {
            Ok(size) => {
                &&& final(sink).written() == old(sink).written() + magic_bytes()
                &&& final(sink).written().len() <= u64::MAX
                &&& size == 4
            },
            Err(WriteError::Io) => !old(sink).reliable(),
            Err(_) => false,
        },
{
    let magic = MAGIC;
    assert(magic@ =~= magic_bytes());
    let outcome = sink.write_all(magic.as_slice());
    assert(outcome is Ok ==> sink.written().skip(old(sink).written().len() as int)
        =~= magic_bytes());
    match outcome {
        Ok(()) => Ok(4),
        Err(_) => Err(WriteError::Io),
    }
}

/// The serialized footer of a file of version `version` whose row groups
/// have the offsets records `row_groups`.
pub open spec fn footer_bytes<F: FooterSerializer>(
    serializer: &F,
    version: Version,
    row_groups: Seq<ColumnOffsetsMetadata>,
) -> Seq<u8> {
    serializer.serialized(version.number(), records_view(row_groups))
}

/// Closes a file: has `serializer` serialize the footer from the offsets
/// records of the row groups written, writes it to `sink`, then its length
/// and the magic, and flushes the sink. Returns the number of bytes
/// written.
///
/// A footer whose length does not fit in four bytes cannot be framed: the
/// call then fails with an encoding error and writes nothing.
pub fn end_file<W: Sink, F: FooterSerializer>(
    sink: &mut W,
    serializer: &F,
    version: Version,
    row_groups: &[ColumnOffsetsMetadata],
) -> (outcome: Result<u64, WriteError>)
    ensures
        partly_appended(
            old(sink).written(),
            final(sink).written(),
            footer_section(footer_bytes(serializer, version, row_groups@)),
        ),
        final(sink).reliable() == old(sink).reliable(),
        match outcome {
            Ok(size) => {
                &&& footer_bytes(serializer, version, row_groups@).len() <= u32::MAX
                &&& final(sink).written() == old(sink).written() + footer_section(
                    footer_bytes(serializer, version, row_groups@),
                )
                &&& size == footer_section(footer_bytes(serializer, version, row_groups@)).len()
                &&& final(sink).written().len() <= u64::MAX
                &&& final(sink).flushed()
            },
            Err(WriteError::Encoding) => {
                &&& footer_bytes(serializer, version, row_groups@).len() > u32::MAX
                &&& final(sink).written() == old(sink).written()
            },
            Err(WriteError::Io) => !old(sink).reliable(),
            Err(WriteError::OutOfOrder) => false,
        },
{
    let ghost before = sink.written();
    let footer = serializer.serialize(i32::from(version), row_groups);
    let ghost section = footer_section(footer@);
    if footer.len() > 0xffff_ffff {
        assert(before.skip(before.len() as int) =~= section.subrange(0, 0));
        return Err(WriteError::Encoding);
    }
    let length: u32 = footer.len() as u32;
    match sink.write_all(footer.as_slice()) {
        Err(_) => {
            proof {
                assert(before.skip(before.len() as int) + footer@ =~= section.subrange(
                    0,
                    footer@.len() as int,
                ));
                lemma_partly_appended(before, before, sink.written(), footer@, section);
            }
            return Err(WriteError::Io);
        },
        Ok(()) => {},
    }
    let ghost with_footer = sink.written();
    let closing = trailer(length);
    match sink.write_all(closing.as_slice()) {
        Err(_) => {
            proof {
                assert(with_footer.skip(before.len() as int) + closing@ =~= section);
                assert(section =~= section.subrange(0, section.len() as int));
                lemma_partly_appended(before, with_footer, sink.written(), closing@, section);
            }
            return Err(WriteError::Io);
        },
        Ok(()) => {},
    }
    assert(sink.written() =~= before + section);
    assert(sink.written().skip(before.len() as int) =~= section);
    assert(section =~= section.subrange(0, section.len() as int));
    match sink.flush() {
        Err(_) => Err(WriteError::Io),
        Ok(()) => Ok(length as u64 + TRAILER_SIZE),
    }
}

/// The bytes of the metadata sidecar of a file of version `version` whose
/// row groups have the offsets records `row_groups`.
pub open spec fn sidecar_bytes<F: FooterSerializer>(
    serializer: &F,
    version: Version,
    row_groups: Seq<ColumnOffsetsMetadata>,
) -> Seq<u8> {
    footer_section(footer_bytes(serializer, version, row_groups))
}

/// Writes the metadata of a file whose data lie elsewhere: to `sink` goes
/// what [`end_file`] writes for the same serializer, version and offsets
/// records, and nothing else. Returns the number of bytes written.
pub fn write_metadata_sidecar<W: Sink, F: FooterSerializer>(
    sink: &mut W,
    serializer: &F,
    version: Version,
    row_groups: &[ColumnOffsetsMetadata],
) -> (outcome: Result<u64, WriteError>)
    ensures
        partly_appended(
            old(sink).written(),
            final(sink).written(),
            sidecar_bytes(serializer, version, row_groups@),
        ),
        final(sink).reliable() == old(sink).reliable(),
        match outcome {
            Ok(size) => {
                &&& footer_bytes(serializer, version, row_groups@).len() <= u32::MAX
                &&& final(sink).written() == old(sink).written() + sidecar_bytes(
                    serializer,
                    version,
                    row_groups@,
                )
                &&& size == sidecar_bytes(serializer, version, row_groups@).len()
                &&& final(sink).written().len() <= u64::MAX
            },
            Err(WriteError::Encoding) => {
                &&& footer_bytes(serializer, version, row_groups@).len() > u32::MAX
                &&& final(sink).written() == old(sink).written()
            },
            Err(WriteError::Io) => !old(sink).reliable(),
            Err(WriteError::OutOfOrder) => false,
        },
{
    end_file(sink, serializer, version, row_groups)
}

/// The metadata sidecar and the end of the file are the same bytes: what
/// [`end_file`] appends to a file that holds `data`, and what
/// [`write_metadata_sidecar`] appends to a sink that holds `other`, for the
/// same serializer, version and offsets records, do not differ in any byte.
pub proof fn lemma_sidecar_is_file_end<F: FooterSerializer>(
    serializer: &F,
    version: Version,
    row_groups: Seq<ColumnOffsetsMetadata>,
    data: Seq<u8>,
    other: Seq<u8>,
)
    ensures
        (data + footer_section(footer_bytes(serializer, version, row_groups))).skip(
            data.len() as int,
        ) == (other + sidecar_bytes(serializer, version, row_groups)).skip(other.len() as int),
{
    let end = footer_section(footer_bytes(serializer, version, row_groups));
    assert((data + end).skip(data.len() as int) =~= end);
    assert((other + end).skip(other.len() as int) =~= end);
}

} // verus!
