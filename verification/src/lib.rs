//! Decoding of the commit (`segments_N`) and segment-metadata (`.si`) files of a
//! segment-oriented search index into validated in-memory structures.
//!
//! Nothing here opens a file. The caller finds the newest commit with
//! `get_last_commit_generation`, starts reading it with
//! `SegmentInfos::read_commit`, and hands over the bytes of each file that the
//! reading asks for until it is done.

pub mod buffer;
pub mod checksum;
pub mod commit;
pub mod directory_reader;
pub mod error;
pub mod file_names;
pub mod header;
pub mod lucene_90;
pub mod segment_info;
pub mod util;

pub use commit::Codec;
pub use commit::CommitReader;
pub use commit::FileEvent;
pub use commit::SegmentInfos;
pub use commit::Step;
pub use directory_reader::IndexInput;
pub use error::SegmentReadError;
pub use file_names::get_generation_from_segments_file_name;
pub use file_names::get_last_commit_generation;
pub use file_names::get_segment_file_name;
pub use file_names::IndexFileNames;
pub use header::HeaderError;
pub use lucene_90::Lucene90SegmentInfoFormat;
pub use segment_info::SegmentInfo;
pub use segment_info::SegmentRef;
