//! Writer side of a columnar table-file format.
//!
//! A file is the magic, zero or more row groups, the serialized footer, the
//! length of the footer in four bytes and the magic again. A row group is
//! the chunks of its columns, one after another; a chunk is the pages of
//! one column in the order in which their producer yields them. The writer
//! copies the pages to a sink and records, for every chunk, the byte range
//! that it occupies, so that the footer can point a reader at each chunk.
//!
//! The pieces, leaves first:
//!
//! - [`dyn_iter`]: lazy, single-pass, fallible sequences, from which a row
//!   group is pulled, and their type-erased forms; [`memory`] holds the
//!   sequences whose items lie ready in a vector.
//! - [`compression`]: compressing a page with a codec of the caller's
//!   choice, one page or a stream of pages.
//! - [`sink`]: the byte destination, and what is known of a sink after a
//!   write that failed.
//! - [`layout`]: the bytes of a row group and the place of every chunk in
//!   it, as mathematics, with the laws that follow.
//! - [`row_group`]: writing one row group.
//! - [`footer`]: opening and closing a file, and the metadata sidecar;
//!   [`plain_footer`] is a footer serializer without a schema.
//! - [`file`]: the writer of one file, which owns the sink, enforces the
//!   order of the operations and keeps the running offset.
//!
//! Value encoding, statistics, codecs and the encoding of the footer belong
//! to collaborators, which the writer meets as traits: [`StreamingIter`],
//! [`StatisticsBuilder`], [`Codec`], [`FooterSerializer`], [`Sink`].

pub mod compression;
pub mod dyn_iter;
pub mod error;
pub mod file;
pub mod footer;
pub mod layout;
pub mod memory;
pub mod options;
pub mod page;
pub mod plain_footer;
pub mod row_group;
pub mod sink;
pub mod statistics;

pub use compression::{compress, Codec, CodecError, Compressor, Page, Uncompressed};
pub use dyn_iter::{DynIter, DynStreamingIterator, LazyIter, RowGroupIter, StreamingIter};
pub use error::WriteError;
pub use file::{FileWriter, State};
pub use footer::{end_file, start_file, write_metadata_sidecar, FooterSerializer, MAGIC};
pub use memory::{VecIter, VecStreamingIter};
pub use options::{Version, WriteOptions};
pub use page::CompressedPage;
pub use plain_footer::PlainFooter;
pub use row_group::{write_column_chunk, write_row_group, ChunkOffsets, ColumnOffsetsMetadata};
pub use sink::{Sink, SinkError};
pub use statistics::{NoStatistics, StatisticsBuilder};
