//! A footer that lists the offsets records in fixed-width fields.

use vstd::prelude::*;
use crate::footer::{records_view, FooterSerializer};
use crate::row_group::{ChunkOffsets, ChunkSpan, ColumnOffsetsMetadata};

verus! {

/// The `width` least significant bytes of `value`, least significant first.
pub open spec fn le_bytes(value: nat, width: nat) -> Seq<u8>
    decreases width,
{
    if width == 0 {
        Seq::empty()
    } else {
        seq![(value % 256) as u8] + le_bytes(value / 256, (width - 1) as nat)
    }
}

/// The number that stands for `version` in four bytes: `version` itself, or
/// its two's complement if it is negative.
pub open spec fn version_field(version: int) -> nat {
    if version < 0 {
        (version + 0x1_0000_0000) as nat
    } else {
        version as nat
    }
}

/// The fields of one entry: start, size, start of the statistics, size of
/// the statistics, eight bytes each.
pub open spec fn entry_bytes(span: ChunkSpan) -> Seq<u8> {
    le_bytes(span.start, 8) + le_bytes(span.size, 8) + le_bytes(span.statistics_start, 8)
        + le_bytes(span.statistics_size, 8)
}

/// The fields of the first `count` entries of `spans`.
pub open spec fn entries_bytes(spans: Seq<ChunkSpan>, count: int) -> Seq<u8>
    decreases count,
{
    if count <= 0 {
        Seq::empty()
    } else {
        entries_bytes(spans, count - 1) + entry_bytes(spans[count - 1])
    }
}

/// One offsets record: the number of its entries in eight bytes, then the
/// entries.
pub open spec fn record_bytes(spans: Seq<ChunkSpan>) -> Seq<u8> {
    le_bytes(spans.len(), 8) + entries_bytes(spans, spans.len() as int)
}

/// The first `count` records of `row_groups`.
pub open spec fn records_bytes(row_groups: Seq<Seq<ChunkSpan>>, count: int) -> Seq<u8>
    decreases count,
{
    if count <= 0 {
        Seq::empty()
    } else {
        records_bytes(row_groups, count - 1) + record_bytes(row_groups[count - 1])
    }
}

/// The plain footer: the version in four bytes, the number of row groups in
/// eight, then the offsets record of each row group. Every number is written
/// least significant byte first.
pub open spec fn plain_footer(version: int, row_groups: Seq<Seq<ChunkSpan>>) -> Seq<u8> {
    le_bytes(version_field(version), 4) + le_bytes(row_groups.len(), 8) + records_bytes(
        row_groups,
        row_groups.len() as int,
    )
}

/// Appends the `width` least significant bytes of `value` to `out`, least
/// significant first.
fn put_le(out: &mut Vec<u8>, value: u64, width: usize)
    ensures
        final(out)@ == old(out)@ + le_bytes(value as nat, width as nat),
{
    let ghost before = out@;
    let mut rest: u64 = value;
    let mut left: usize = width;
    assert(before + le_bytes(value as nat, width as nat) =~= before + le_bytes(
        rest as nat,
        left as nat,
    ));
    while left > 0
        invariant
            out@ + le_bytes(rest as nat, left as nat) == before + le_bytes(
                value as nat,
                width as nat,
            ),
        decreases left,
    {
        let ghost so_far = out@;
        out.push((rest % 256) as u8);
        proof {
            assert(out@ + le_bytes((rest / 256) as nat, (left - 1) as nat) =~= so_far + le_bytes(
                rest as nat,
                left as nat,
            ));
        }
        rest = rest / 256;
        left = left - 1;
    }
    assert(out@ + Seq::<u8>::empty() =~= out@);
}

/// Appends one offsets record to `out`.
fn put_record(out: &mut Vec<u8>, record: &ColumnOffsetsMetadata)
    ensures
        final(out)@ == old(out)@ + record_bytes(record@),
{
    let ghost before = out@;
    let entries = record.chunks();
    put_le(out, entries.len() as u64, 8);
    let ghost head = out@;
    let mut column: usize = 0;
    assert(head + entries_bytes(record@, 0) =~= head);
    while column < entries.len()
        invariant
            column <= entries@.len(),
            entries@ == record.entries(),
            out@ == head + entries_bytes(record@, column as int),
        decreases entries@.len() - column,
    {
        let ghost so_far = out@;
        let entry: ChunkOffsets = entries[column];
        assert(entry@ == record@[column as int]);
        put_le(out, entry.start, 8);
        put_le(out, entry.size, 8);
        put_le(out, entry.statistics_start, 8);
        put_le(out, entry.statistics_size, 8);
        assert(out@ =~= so_far + entry_bytes(entry@));
        column = column + 1;
        assert(out@ =~= head + entries_bytes(record@, column as int));
    }
    assert(out@ =~= before + record_bytes(record@));
}

/// Serializes a footer that holds the version and the offsets records, and
/// nothing of a schema: for files whose readers know the schema, and for
/// looking at what a writer recorded.
#[derive(Debug, Copy, Clone)]
pub struct PlainFooter;

impl FooterSerializer for PlainFooter {
    open spec fn serialized(&self, version: int, row_groups: Seq<Seq<ChunkSpan>>) -> Seq<u8> {
        plain_footer(version, row_groups)
    }

    fn serialize(&self, version: i32, row_groups: &[ColumnOffsetsMetadata]) -> (footer: Vec<u8>) {
        let ghost records = records_view(row_groups@);
        let mut footer: Vec<u8> = Vec::new();
        let field: u64 = if version < 0 {
            (version as i64 + 0x1_0000_0000) as u64
        } else {
            version as u64
        };
        put_le(&mut footer, field, 4);
        put_le(&mut footer, row_groups.len() as u64, 8);
        let ghost head = footer@;
        let mut group: usize = 0;
        assert(head + records_bytes(records, 0) =~= head);
        while group < row_groups.len()
            invariant
                group <= row_groups@.len(),
                records == records_view(row_groups@),
                footer@ == head + records_bytes(records, group as int),
            decreases row_groups@.len() - group,
        {
            let ghost so_far = footer@;
            put_record(&mut footer, &row_groups[group]);
            assert(row_groups@[group as int]@ == records[group as int]);
            group = group + 1;
            assert(footer@ =~= head + records_bytes(records, group as int));
        }
        assert(footer@ =~= plain_footer(version as int, records));
        footer
    }
}

} // verus!
