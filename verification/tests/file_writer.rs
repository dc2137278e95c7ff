use parquet_writer::{
    end_file, start_file, write_metadata_sidecar, ChunkOffsets, ColumnOffsetsMetadata,
    CompressedPage, DynStreamingIterator, FileWriter, FooterSerializer, NoStatistics, PlainFooter,
    RowGroupIter, Sink, SinkError, State, StatisticsBuilder, VecIter, VecStreamingIter, Version,
    WriteError, WriteOptions, MAGIC,
};

fn page(bytes: &[u8]) -> Result<CompressedPage, String> {
    Ok(CompressedPage::new(bytes.to_vec(), bytes.len()))
}

fn failure() -> Result<CompressedPage, String> {
    Err("the producer failed".to_string())
}

fn column(
    pages: Vec<Result<CompressedPage, String>>,
) -> Result<DynStreamingIterator<'static, CompressedPage, String>, String> {
    Ok(Box::new(VecStreamingIter::new(pages)))
}

fn row_group(
    columns: Vec<Result<DynStreamingIterator<'static, CompressedPage, String>, String>>,
) -> RowGroupIter<'static, String> {
    Box::new(VecIter::new(columns))
}

fn plain(write_statistics: bool, version: Version) -> WriteOptions {
    WriteOptions { write_statistics, version }
}

/// A footer of a fixed number of bytes, all of them `0xF0`.
struct Filler(usize);

impl FooterSerializer for Filler {
    fn serialize(&self, _version: i32, _row_groups: &[ColumnOffsetsMetadata]) -> Vec<u8> {
        vec![0xF0; self.0]
    }
}

/// The statistics of a chunk: the column number and the size of the chunk.
struct TwoBytes;

impl StatisticsBuilder for TwoBytes {
    fn chunk_statistics(&self, column: usize, _start: u64, size: u64) -> Vec<u8> {
        vec![0xA0 + column as u8, size as u8]
    }
}

/// Counts the calls it receives and refuses the writes from a given call
/// on; keeps what it accepted.
struct Counting {
    bytes: Vec<u8>,
    writes: usize,
    flushes: usize,
    refuse_from: usize,
    refuse_flush: bool,
}

fn counting(refuse_from: usize) -> Counting {
    Counting { bytes: Vec::new(), writes: 0, flushes: 0, refuse_from, refuse_flush: false }
}

impl Sink for Counting {
    fn write_all(&mut self, bytes: &[u8]) -> Result<(), SinkError> {
        self.writes += 1;
        if self.writes >= self.refuse_from {
            Err(SinkError)
        } else {
            self.bytes.extend_from_slice(bytes);
            Ok(())
        }
    }

    fn flush(&mut self) -> Result<(), SinkError> {
        self.flushes += 1;
        if self.refuse_flush {
            Err(SinkError)
        } else {
            Ok(())
        }
    }
}

#[test]
fn the_magic_is_par1() {
    assert_eq!(&MAGIC, b"PAR1");
}

#[test]
fn start_file_writes_the_magic() {
    let mut sink = vec![1, 2];
    assert_eq!(start_file(&mut sink), Ok(4));
    assert_eq!(sink, vec![1, 2, b'P', b'A', b'R', b'1']);
}

#[test]
fn start_file_reports_a_refusing_sink() {
    let mut sink = counting(1);
    assert_eq!(start_file(&mut sink), Err(WriteError::Io));
}

#[test]
fn end_file_writes_footer_length_and_magic() {
    let mut sink = vec![9];
    assert_eq!(end_file(&mut sink, &Filler(3), Version::V1, &[]), Ok(11));
    assert_eq!(sink, vec![9, 0xF0, 0xF0, 0xF0, 3, 0, 0, 0, b'P', b'A', b'R', b'1']);
}

#[test]
fn footer_length_is_little_endian() {
    let mut sink: Vec<u8> = Vec::new();
    assert_eq!(end_file(&mut sink, &Filler(0x01_02_03), Version::V1, &[]), Ok(0x01_02_03 + 8));
    assert_eq!(&sink[0x01_02_03..], &[0x03, 0x02, 0x01, 0x00, b'P', b'A', b'R', b'1'][..]);
}

#[test]
fn an_empty_footer_has_length_zero() {
    let mut sink: Vec<u8> = Vec::new();
    assert_eq!(end_file(&mut sink, &Filler(0), Version::V2, &[]), Ok(8));
    assert_eq!(sink, vec![0, 0, 0, 0, b'P', b'A', b'R', b'1']);
}

#[test]
fn end_file_flushes_the_sink() {
    let mut sink = counting(usize::MAX);
    assert_eq!(end_file(&mut sink, &Filler(1), Version::V1, &[]), Ok(9));
    assert_eq!(sink.writes, 2);
    assert_eq!(sink.flushes, 1);
}

#[test]
fn end_file_reports_a_sink_that_refuses_the_footer() {
    let mut sink = counting(1);
    assert_eq!(end_file(&mut sink, &Filler(1), Version::V1, &[]), Err(WriteError::Io));
}

#[test]
fn end_file_reports_a_sink_that_refuses_the_trailer() {
    let mut sink = counting(2);
    assert_eq!(end_file(&mut sink, &Filler(1), Version::V1, &[]), Err(WriteError::Io));
    assert_eq!(sink.bytes, vec![0xF0]);
}

#[test]
fn end_file_reports_a_sink_that_refuses_to_flush() {
    let mut sink = counting(usize::MAX);
    sink.refuse_flush = true;
    assert_eq!(end_file(&mut sink, &Filler(1), Version::V1, &[]), Err(WriteError::Io));
}

#[test]
fn plain_footer_lists_version_and_records() {
    let mut sink: Vec<u8> = vec![0; 0x0102];
    let group = row_group(vec![column(vec![page(&[1, 2, 3])])]);
    let (record, _) = parquet_writer::write_row_group(
        &mut sink,
        0x0102,
        group,
        plain(false, Version::V1),
        &NoStatistics,
    )
    .unwrap();
    let footer = PlainFooter.serialize(2, &[record, ColumnOffsetsMetadata::new()]);
    let mut expected = vec![2, 0, 0, 0];
    expected.extend_from_slice(&[2, 0, 0, 0, 0, 0, 0, 0]);
    expected.extend_from_slice(&[1, 0, 0, 0, 0, 0, 0, 0]);
    expected.extend_from_slice(&[0x02, 0x01, 0, 0, 0, 0, 0, 0]);
    expected.extend_from_slice(&[3, 0, 0, 0, 0, 0, 0, 0]);
    expected.extend_from_slice(&[0x05, 0x01, 0, 0, 0, 0, 0, 0]);
    expected.extend_from_slice(&[0, 0, 0, 0, 0, 0, 0, 0]);
    expected.extend_from_slice(&[0, 0, 0, 0, 0, 0, 0, 0]);
    assert_eq!(footer, expected);
}

#[test]
fn plain_footer_of_no_row_groups() {
    assert_eq!(PlainFooter.serialize(1, &[]), vec![1, 0, 0, 0, 0, 0, 0, 0, 0, 0, 0, 0]);
}

#[test]
fn plain_footer_writes_a_negative_version_in_twos_complement() {
    assert_eq!(&PlainFooter.serialize(-2, &[])[..4], &[0xFE, 0xFF, 0xFF, 0xFF][..]);
}

#[test]
fn a_new_writer_is_initialised() {
    let options = plain(true, Version::V2);
    let writer = FileWriter::new(vec![5, 5], options);
    assert_eq!(writer.state(), State::Initialised);
    assert_eq!(writer.options(), options);
    assert_eq!(writer.offset(), 0);
    assert!(writer.metadata().is_empty());
    assert_eq!(writer.into_inner(), vec![5, 5]);
}

#[test]
fn a_whole_file_has_the_layout_of_the_format() {
    let mut writer = FileWriter::new(Vec::new(), plain(false, Version::V1));
    assert_eq!(writer.start(), Ok(()));
    assert_eq!(writer.state(), State::Started);
    assert_eq!(writer.offset(), 4);
    let first =
        row_group(vec![column(vec![page(&[1, 2, 3]), page(&[4])]), column(vec![page(&[5, 6])])]);
    assert_eq!(writer.write(first, &NoStatistics), Ok(()));
    assert_eq!(writer.offset(), 10);
    let second = row_group(vec![column(vec![page(&[7])])]);
    assert_eq!(writer.write(second, &NoStatistics), Ok(()));
    assert_eq!(writer.offset(), 11);
    assert_eq!(writer.state(), State::Started);
    assert_eq!(writer.end(&Filler(2)), Ok(21));
    assert_eq!(writer.state(), State::Finished);
    assert_eq!(writer.offset(), 21);
    let mut expected = b"PAR1".to_vec();
    expected.extend_from_slice(&[1, 2, 3, 4, 5, 6, 7]);
    expected.extend_from_slice(&[0xF0, 0xF0, 2, 0, 0, 0]);
    expected.extend_from_slice(b"PAR1");
    assert_eq!(writer.into_inner(), expected);
}

#[test]
fn a_file_without_row_groups_is_header_and_footer() {
    let mut writer = FileWriter::new(Vec::new(), plain(false, Version::V1));
    writer.start().unwrap();
    assert_eq!(writer.end(&PlainFooter), Ok(24));
    let mut expected = b"PAR1".to_vec();
    expected.extend_from_slice(&[1, 0, 0, 0, 0, 0, 0, 0, 0, 0, 0, 0]);
    expected.extend_from_slice(&[12, 0, 0, 0]);
    expected.extend_from_slice(b"PAR1");
    assert_eq!(writer.into_inner(), expected);
}

#[test]
fn the_footer_is_serialized_from_the_version_and_the_records_kept() {
    let mut writer = FileWriter::new(Vec::new(), plain(false, Version::V2));
    writer.start().unwrap();
    writer.write(row_group(vec![column(vec![page(&[1, 2])])]), &NoStatistics).unwrap();
    writer.write(row_group(Vec::new()), &NoStatistics).unwrap();
    let expected_footer = PlainFooter.serialize(2, writer.metadata());
    assert_eq!(expected_footer.len(), 4 + 8 + (8 + 32) + 8);
    writer.end(&PlainFooter).unwrap();
    let file = writer.into_inner();
    assert_eq!(&file[6..6 + expected_footer.len()], &expected_footer[..]);
    assert_eq!(file.len(), 6 + expected_footer.len() + 8);
}

#[test]
fn recorded_offsets_are_the_byte_ranges_of_the_chunks() {
    let contents: Vec<Vec<Vec<Vec<u8>>>> = vec![
        vec![vec![vec![1, 2, 3], vec![4]], vec![], vec![vec![5, 6]]],
        vec![],
        vec![vec![vec![], vec![7, 8, 9, 10]], vec![vec![11]]],
    ];
    for options in [plain(false, Version::V1), plain(true, Version::V1), plain(true, Version::V2)] {
        let mut writer = FileWriter::new(vec![0xEE; 3], options);
        writer.start().unwrap();
        for group in &contents {
            let columns =
                group.iter().map(|pages| column(pages.iter().map(|p| page(p)).collect())).collect();
            assert_eq!(writer.write(row_group(columns), &TwoBytes), Ok(()));
        }
        let records: Vec<Vec<ChunkOffsets>> =
            writer.metadata().iter().map(|record| record.chunks().to_vec()).collect();
        let size = writer.end(&PlainFooter).unwrap();
        let sink = writer.into_inner();
        let file = &sink[3..];
        assert_eq!(size as usize, file.len());
        assert_eq!(records.len(), contents.len());
        for (record, group) in records.iter().zip(&contents) {
            assert_eq!(record.len(), group.len());
            for (chunk, pages) in record.iter().zip(group) {
                let from = chunk.start as usize;
                let to = from + chunk.size as usize;
                assert_eq!(&file[from..to], &pages.concat()[..]);
            }
        }
    }
}

#[test]
fn start_twice_is_out_of_order() {
    let mut writer = FileWriter::new(counting(usize::MAX), plain(false, Version::V1));
    assert_eq!(writer.start(), Ok(()));
    assert_eq!(writer.start(), Err(WriteError::OutOfOrder));
    assert_eq!(writer.state(), State::Started);
    assert_eq!(writer.offset(), 4);
    let sink = writer.into_inner();
    assert_eq!(sink.writes, 1);
    assert_eq!(sink.bytes, b"PAR1".to_vec());
}

#[test]
fn write_before_start_is_out_of_order() {
    let mut writer = FileWriter::new(counting(usize::MAX), plain(false, Version::V1));
    let group = row_group(vec![column(vec![page(&[1])])]);
    assert_eq!(writer.write(group, &NoStatistics), Err(WriteError::OutOfOrder));
    assert_eq!(writer.state(), State::Initialised);
    assert_eq!(writer.offset(), 0);
    assert!(writer.metadata().is_empty());
    let sink = writer.into_inner();
    assert_eq!(sink.writes, 0);
    assert_eq!(sink.flushes, 0);
    assert!(sink.bytes.is_empty());
}

#[test]
fn end_before_start_is_out_of_order() {
    let mut writer = FileWriter::new(counting(usize::MAX), plain(false, Version::V1));
    assert_eq!(writer.end(&Filler(1)), Err(WriteError::OutOfOrder));
    assert_eq!(writer.state(), State::Initialised);
    let sink = writer.into_inner();
    assert_eq!(sink.writes, 0);
    assert_eq!(sink.flushes, 0);
}

#[test]
fn every_operation_after_end_is_out_of_order() {
    let mut writer = FileWriter::new(counting(usize::MAX), plain(false, Version::V1));
    writer.start().unwrap();
    writer.end(&Filler(1)).unwrap();
    assert_eq!(writer.start(), Err(WriteError::OutOfOrder));
    let group = row_group(vec![column(vec![page(&[1])])]);
    assert_eq!(writer.write(group, &NoStatistics), Err(WriteError::OutOfOrder));
    assert_eq!(writer.end(&Filler(1)), Err(WriteError::OutOfOrder));
    assert_eq!(writer.state(), State::Finished);
    assert_eq!(writer.offset(), 13);
    let sink = writer.into_inner();
    assert_eq!(sink.writes, 3);
    assert_eq!(sink.flushes, 1);
    assert_eq!(sink.bytes.len(), 13);
}

#[test]
fn a_refused_row_group_is_not_pulled_from() {
    let mut writer = FileWriter::new(Vec::new(), plain(false, Version::V1));
    let mut pulled = 0;
    {
        let group: RowGroupIter<'_, String> = Box::new(Watched { pulled: &mut pulled });
        assert_eq!(writer.write(group, &NoStatistics), Err(WriteError::OutOfOrder));
    }
    assert_eq!(pulled, 0);
}

/// A row group that counts how often it is asked for a column.
struct Watched<'a> {
    pulled: &'a mut usize,
}

impl<'a> parquet_writer::LazyIter for Watched<'a> {
    type Item = Result<DynStreamingIterator<'a, CompressedPage, String>, String>;

    fn next(&mut self) -> Option<Self::Item> {
        *self.pulled += 1;
        None
    }
}

#[test]
fn a_failing_producer_leaves_the_file_unfinished() {
    let mut writer = FileWriter::new(Vec::new(), plain(false, Version::V1));
    writer.start().unwrap();
    let group = row_group(vec![
        column(vec![page(&[1, 1])]),
        column(vec![page(&[2]), page(&[3, 3]), failure(), page(&[4])]),
        column(vec![page(&[5])]),
    ]);
    assert_eq!(writer.write(group, &NoStatistics), Err(WriteError::Encoding));
    assert_eq!(writer.state(), State::Started);
    assert_eq!(writer.offset(), 4);
    assert!(writer.metadata().is_empty());
    assert_eq!(writer.into_inner(), vec![b'P', b'A', b'R', b'1', 1, 1, 2, 3, 3]);
}

#[test]
fn a_refusing_sink_fails_the_start() {
    let mut writer = FileWriter::new(counting(1), plain(false, Version::V1));
    assert_eq!(writer.start(), Err(WriteError::Io));
    assert_eq!(writer.state(), State::Initialised);
    assert_eq!(writer.offset(), 0);
}

#[test]
fn a_refusing_sink_fails_the_row_group() {
    let mut writer = FileWriter::new(counting(3), plain(false, Version::V1));
    writer.start().unwrap();
    let group = row_group(vec![column(vec![page(&[1]), page(&[2]), page(&[3])])]);
    assert_eq!(writer.write(group, &NoStatistics), Err(WriteError::Io));
    assert_eq!(writer.state(), State::Started);
    assert!(writer.metadata().is_empty());
    assert_eq!(writer.into_inner().bytes, vec![b'P', b'A', b'R', b'1', 1]);
}

#[test]
fn a_refusing_sink_fails_the_end() {
    let mut writer = FileWriter::new(counting(2), plain(false, Version::V1));
    writer.start().unwrap();
    assert_eq!(writer.end(&Filler(1)), Err(WriteError::Io));
    assert_eq!(writer.state(), State::Started);
}

#[test]
fn the_sidecar_is_the_end_of_the_file() {
    for options in [plain(false, Version::V1), plain(true, Version::V1), plain(true, Version::V2)] {
        let mut writer = FileWriter::new(Vec::new(), options);
        writer.start().unwrap();
        let first = row_group(vec![column(vec![page(&[1, 2])]), column(vec![page(&[3])])]);
        writer.write(first, &TwoBytes).unwrap();
        let second = row_group(vec![column(vec![page(&[4])])]);
        writer.write(second, &TwoBytes).unwrap();
        let payload = writer.offset() as usize;
        let mut sidecar: Vec<u8> = Vec::new();
        let sidecar_size =
            write_metadata_sidecar(&mut sidecar, &PlainFooter, options.version, writer.metadata())
                .unwrap();
        let size = writer.end(&PlainFooter).unwrap();
        let file = writer.into_inner();
        assert_eq!(sidecar_size as usize, sidecar.len());
        assert_eq!(size as usize, payload + sidecar.len());
        assert_eq!(&file[payload..], &sidecar[..]);
        assert_ne!(&sidecar[..4], b"PAR1");
    }
}

#[test]
fn the_sidecar_holds_footer_length_and_magic_only() {
    let mut sidecar: Vec<u8> = Vec::new();
    assert_eq!(write_metadata_sidecar(&mut sidecar, &Filler(2), Version::V1, &[]), Ok(10));
    assert_eq!(sidecar, vec![0xF0, 0xF0, 2, 0, 0, 0, b'P', b'A', b'R', b'1']);
}

#[test]
fn the_sidecar_reports_a_refusing_sink() {
    let mut sink = counting(1);
    assert_eq!(
        write_metadata_sidecar(&mut sink, &Filler(2), Version::V1, &[]),
        Err(WriteError::Io)
    );
}

#[test]
fn statistics_follow_the_options_of_the_writer() {
    let mut v1 = FileWriter::new(Vec::new(), plain(true, Version::V1));
    v1.start().unwrap();
    let group = row_group(vec![column(vec![page(&[1, 2])]), column(vec![page(&[3])])]);
    assert_eq!(v1.write(group, &TwoBytes), Ok(()));
    assert_eq!(&v1.into_inner()[4..], &[1, 2, 0xA0, 2, 3, 0xA1, 1][..]);

    let mut v2 = FileWriter::new(Vec::new(), plain(true, Version::V2));
    v2.start().unwrap();
    let group = row_group(vec![column(vec![page(&[1, 2])]), column(vec![page(&[3])])]);
    assert_eq!(v2.write(group, &TwoBytes), Ok(()));
    assert_eq!(
        v2.metadata()[0].chunks(),
        &[
            ChunkOffsets { start: 4, size: 2, statistics_start: 7, statistics_size: 2 },
            ChunkOffsets { start: 6, size: 1, statistics_start: 9, statistics_size: 2 },
        ][..]
    );
    assert_eq!(&v2.into_inner()[4..], &[1, 2, 3, 0xA0, 2, 0xA1, 1][..]);

    let mut off = FileWriter::new(Vec::new(), plain(false, Version::V2));
    off.start().unwrap();
    let group = row_group(vec![column(vec![page(&[1, 2])]), column(vec![page(&[3])])]);
    assert_eq!(off.write(group, &TwoBytes), Ok(()));
    assert_eq!(&off.into_inner()[4..], &[1, 2, 3][..]);
}

#[test]
fn the_file_does_not_depend_on_the_sink() {
    for options in [plain(false, Version::V1), plain(true, Version::V1), plain(true, Version::V2)] {
        let mut buffered = FileWriter::new(Vec::new(), options);
        let mut counted = FileWriter::new(counting(usize::MAX), options);
        buffered.start().unwrap();
        counted.start().unwrap();
        for _ in 0..2 {
            let group = row_group(vec![column(vec![page(&[1, 2]), page(&[3])]), column(vec![])]);
            buffered.write(group, &TwoBytes).unwrap();
            let group = row_group(vec![column(vec![page(&[1, 2]), page(&[3])]), column(vec![])]);
            counted.write(group, &TwoBytes).unwrap();
        }
        assert_eq!(buffered.end(&PlainFooter), counted.end(&PlainFooter));
        assert_eq!(buffered.offset(), counted.offset());
        assert_eq!(buffered.into_inner(), counted.into_inner().bytes);
    }
}

#[test]
fn each_page_is_one_write_to_the_sink() {
    let mut writer = FileWriter::new(counting(usize::MAX), plain(false, Version::V1));
    writer.start().unwrap();
    let group = row_group(vec![column(vec![page(&[1]), page(&[2])]), column(vec![page(&[3])])]);
    writer.write(group, &NoStatistics).unwrap();
    assert_eq!(writer.into_inner().writes, 1 + 3);
}
