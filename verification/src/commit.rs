//! The commit file, `segments` or `segments_<generation>`: what it holds, how
//! it is decoded, and how a whole commit is read file by file.
//!
//! The file holds, in this order: the codec magic and header; the commit's id;
//! the generation's suffix; the version that wrote the commit and the major
//! version that created the index; the commit's version counter and its name
//! counter; the number of segments and the oldest version among them; for
//! every segment its name, id and codec; and the footer.
//!
//! Between two segment entries the segment's own metadata file is decoded, so
//! reading a commit needs files that are only known as the reading goes on.
//! The library opens no file. `SegmentInfos::read_commit` and
//! `CommitReader::resume` instead say which file they need next, and take its
//! bytes when the caller has them.

use crate::directory_reader::IndexInput;
use crate::directory_reader::ID_LENGTH;
use crate::error::lifted;
use crate::error::SegmentReadError;
use crate::file_names::generation_suffix;
use crate::file_names::lemma_generation_suffix_is_short;
use crate::file_names::get_generation_suffix;
use crate::file_names::get_segment_file_name;
use crate::file_names::segments_file_name;
use crate::header::check_footer;
use crate::header::encode_footer;
use crate::header::encode_header;
use crate::header::lemma_footer_detects_byte;
use crate::header::lemma_footer_round_trip;
use crate::header::lemma_header_round_trip;
use crate::header::lemma_parse_header_advances;
use crate::header::parse_footer;
use crate::header::parse_header_no_magic;
use crate::header::parse_magic;
use crate::lucene_90::encode_segment_info;
use crate::lucene_90::lemma_segment_info_round_trip;
use crate::lucene_90::parse_segment_info;
use crate::lucene_90::segment_info_fits;
use crate::lucene_90::SI_VERSION_CURRENT;
use crate::lucene_90::Lucene90SegmentInfoFormat;
use crate::segment_info::SegmentInfo;
use crate::segment_info::SegmentInfoView;
use crate::segment_info::SegmentRef;
use crate::segment_info::SegmentRefView;
use crate::util::encode_varint;
use crate::util::encode_vstring;
use crate::util::is_suffix;
use crate::util::lemma_bytes_round_trip;
use crate::util::lemma_concat_assoc;
use crate::util::lemma_vint_round_trip;
use crate::util::lemma_vlong_round_trip;
use crate::util::lemma_vstring_round_trip;
use crate::util::text_fits;
use crate::util::lemma_parse_advances;
use crate::util::lemma_suffix_of_suffix;
use crate::util::parse_byte;
use crate::util::parse_bytes;
use crate::util::parse_vint;
use crate::util::parse_vlong;
use crate::util::parse_vstring;
use crate::util::same_bytes;
use vstd::prelude::*;
use vstd::string::StringSliceAdditionalSpecFns;
use vstd::utf8::encode_utf8;
use vstd::utf8::is_ascii_chars;
use vstd::utf8::is_ascii_chars_encode_utf8;

verus! {

/// What all codecs share.
pub struct Codec {}

impl Codec {
    /// The number that every index file starts with.
    pub const MAGIC: u32 = 0x3fd7_6c17;

    /// The codec name in the header of a commit file.
    pub const SEGMENTS_CODEC: &'static str = "segments";
}

/// The views of a sequence of segment entries.
pub open spec fn ref_views(v: Seq<SegmentRef>) -> Seq<SegmentRefView> {
    v.map_values(|r: SegmentRef| r@)
}

/// The views of a sequence of segment metadata.
pub open spec fn info_views(v: Seq<SegmentInfo>) -> Seq<SegmentInfoView> {
    v.map_values(|s: SegmentInfo| s@)
}

/// A commit as a mathematical value.
pub struct SegmentInfosView {
    pub format_version: u32,
    pub id: Seq<u8>,
    pub generation: u64,
    pub lucene_version: (u32, u32, u32),
    pub index_created_version: u32,
    pub version: u64,
    pub counter: u64,
    pub num_segments: u32,
    pub min_segment_lucene_version: (u32, u32, u32),
    pub segment_refs: Seq<SegmentRefView>,
    pub segments: Seq<SegmentInfoView>,
}

impl SegmentInfosView {
    /// The commit with one more segment.
    pub open spec fn with_segment(self, entry: SegmentRefView, info: SegmentInfoView) -> Self {
        SegmentInfosView {
            segment_refs: self.segment_refs.push(entry),
            segments: self.segments.push(info),
            ..self
        }
    }

    /// What holds of a commit while its segments are being read: the id has
    /// its length, the versions agree with each other, and the segments read
    /// so far are as many as their entries, not more than the commit
    /// announced, and each what its entry says.
    pub open spec fn wf_so_far(&self) -> bool {
        &&& self.id.len() == ID_LENGTH
        &&& SegmentInfos::MIN_VERSION <= self.format_version <= SegmentInfos::CURRENT_VERSION
        &&& SegmentInfos::MIN_VERSION <= self.index_created_version <= self.lucene_version.0
        &&& self.segment_refs.len() == self.segments.len()
        &&& self.segments.len() <= self.num_segments
        &&& forall|i: int|
            0 <= i < self.segments.len() ==> {
                &&& (#[trigger] self.segments[i]).wf()
                &&& self.segments[i].name == self.segment_refs[i].name
                &&& self.segments[i].id == self.segment_refs[i].id
            }
    }

    /// What holds of a commit that was read: `wf_so_far`, with all the
    /// segments that the commit announced.
    pub open spec fn wf(&self) -> bool {
        self.wf_so_far() && self.segments.len() == self.num_segments
    }
}

/// One commit of the index: a consistent view of the index at one point in
/// time, made of counters and of the segments that belong to it.
#[derive(Debug)]
pub struct SegmentInfos {
    /// The format version of the commit file.
    pub format_version: u32,
    /// The commit's id, `ID_LENGTH` bytes.
    pub id: Vec<u8>,
    /// The commit's generation, which its file name ends with.
    pub generation: u64,
    /// The version that wrote the commit: major, minor, patch.
    pub lucene_version: (u32, u32, u32),
    /// The major version that created the index.
    pub index_created_version: u32,
    /// Counts the changes made to the index.
    pub version: u64,
    /// Names the next segment.
    pub counter: u64,
    /// The number of segments that the commit announced.
    pub num_segments: u32,
    /// The oldest version among the segments.
    pub min_segment_lucene_version: (u32, u32, u32),
    /// The commit's entries for its segments, in the commit's order.
    pub segment_refs: Vec<SegmentRef>,
    /// The metadata of the segments, in the same order.
    pub segments: Vec<SegmentInfo>,
}

impl View for SegmentInfos {
    type V = SegmentInfosView;

    open spec fn view(&self) -> SegmentInfosView {
        SegmentInfosView {
            format_version: self.format_version,
            id: self.id@,
            generation: self.generation,
            lucene_version: self.lucene_version,
            index_created_version: self.index_created_version,
            version: self.version,
            counter: self.counter,
            num_segments: self.num_segments,
            min_segment_lucene_version: self.min_segment_lucene_version,
            segment_refs: ref_views(self.segment_refs@),
            segments: info_views(self.segments@),
        }
    }
}

/// The suffix in the header of a commit file: its length as one byte, then
/// that many bytes, which have to be the UTF-8 bytes of `expected`.
pub open spec fn parse_suffix(s: Seq<u8>, expected: Seq<char>) -> (
    Result<(), SegmentReadError>,
    Seq<u8>,
) {
    let length = lifted(parse_byte(s));
    let suffix = lifted(parse_bytes(length.1, length.0->Ok_0 as nat));
    if length.0 is Err {
        (Err(length.0->Err_0), length.1)
    } else if suffix.0 is Err {
        (Err(suffix.0->Err_0), suffix.1)
    } else if suffix.0->Ok_0 != encode_utf8(expected) {
        (Err(SegmentReadError::SuffixMismatch), suffix.1)
    } else {
        (Ok(()), suffix.1)
    }
}

/// A version in a commit file: major, minor and patch, each a variable-length
/// integer.
pub open spec fn parse_lucene_version(s: Seq<u8>) -> (
    Result<(u32, u32, u32), SegmentReadError>,
    Seq<u8>,
) {
    let major = lifted(parse_vint(s));
    let minor = lifted(parse_vint(major.1));
    let patch = lifted(parse_vint(minor.1));
    if major.0 is Err {
        (Err(major.0->Err_0), major.1)
    } else if minor.0 is Err {
        (Err(minor.0->Err_0), minor.1)
    } else if patch.0 is Err {
        (Err(patch.0->Err_0), patch.1)
    } else {
        (Ok((major.0->Ok_0, minor.0->Ok_0, patch.0->Ok_0)), patch.1)
    }
}

/// The versions of a commit: the version that wrote it, then one byte for the
/// major version that created the index. That byte may neither exceed the
/// major version that wrote the commit nor fall below `MIN_VERSION`.
pub open spec fn parse_versions(s: Seq<u8>) -> (
    Result<((u32, u32, u32), u32), SegmentReadError>,
    Seq<u8>,
) {
    let written = parse_lucene_version(s);
    let created = lifted(parse_byte(written.1));
    if written.0 is Err {
        (Err(written.0->Err_0), written.1)
    } else if created.0 is Err {
        (Err(created.0->Err_0), created.1)
    } else if created.0->Ok_0 > written.0->Ok_0.0 {
        (Err(SegmentReadError::CorruptedIndex), created.1)
    } else if created.0->Ok_0 < SegmentInfos::MIN_VERSION {
        (Err(SegmentReadError::CorruptedIndex), created.1)
    } else {
        (Ok((written.0->Ok_0, created.0->Ok_0 as u32)), created.1)
    }
}

/// A commit file up to its first segment entry: the commit of generation
/// `generation` without its segments.
pub open spec fn parse_commit_head(s: Seq<u8>, generation: u64) -> (
    Result<SegmentInfosView, SegmentReadError>,
    Seq<u8>,
) {
    let magic = lifted(parse_magic(s));
    let format = lifted(
        parse_header_no_magic(
            magic.1,
            Codec::SEGMENTS_CODEC@,
            SegmentInfos::MIN_VERSION,
            SegmentInfos::CURRENT_VERSION,
        ),
    );
    let id = lifted(parse_bytes(format.1, ID_LENGTH as nat));
    let suffix = parse_suffix(id.1, generation_suffix(generation));
    let versions = parse_versions(suffix.1);
    let version = lifted(parse_vlong(versions.1));
    let counter = lifted(parse_vlong(version.1));
    let count = lifted(parse_vint(counter.1));
    let oldest = parse_lucene_version(count.1);
    if magic.0 is Err {
        (Err(magic.0->Err_0), magic.1)
    } else if format.0 is Err {
        (Err(format.0->Err_0), format.1)
    } else if id.0 is Err {
        (Err(id.0->Err_0), id.1)
    } else if suffix.0 is Err {
        (Err(suffix.0->Err_0), suffix.1)
    } else if versions.0 is Err {
        (Err(versions.0->Err_0), versions.1)
    } else if version.0 is Err {
        (Err(version.0->Err_0), version.1)
    } else if counter.0 is Err {
        (Err(counter.0->Err_0), counter.1)
    } else if count.0 is Err {
        (Err(count.0->Err_0), count.1)
    } else if oldest.0 is Err {
        (Err(oldest.0->Err_0), oldest.1)
    } else {
        (
            Ok(
                SegmentInfosView {
                    format_version: format.0->Ok_0,
                    id: id.0->Ok_0,
                    generation,
                    lucene_version: versions.0->Ok_0.0,
                    index_created_version: versions.0->Ok_0.1,
                    version: version.0->Ok_0,
                    counter: counter.0->Ok_0,
                    num_segments: count.0->Ok_0,
                    min_segment_lucene_version: oldest.0->Ok_0,
                    segment_refs: Seq::empty(),
                    segments: Seq::empty(),
                },
            ),
            oldest.1,
        )
    }
}

/// The entry of one segment in a commit file: name, id and codec name.
pub open spec fn parse_segment_ref(s: Seq<u8>) -> (
    Result<SegmentRefView, SegmentReadError>,
    Seq<u8>,
) {
    let name = lifted(parse_vstring(s));
    let id = lifted(parse_bytes(name.1, ID_LENGTH as nat));
    let codec_name = lifted(parse_vstring(id.1));
    if name.0 is Err {
        (Err(name.0->Err_0), name.1)
    } else if id.0 is Err {
        (Err(id.0->Err_0), id.1)
    } else if codec_name.0 is Err {
        (Err(codec_name.0->Err_0), codec_name.1)
    } else {
        (
            Ok(SegmentRefView { name: name.0->Ok_0, id: id.0->Ok_0, codec_name: codec_name.0->Ok_0 }),
            codec_name.1,
        )
    }
}

/// What came of opening a file.
#[derive(Debug)]
pub enum FileEvent {
    /// The file was opened and these are its bytes.
    Opened(Vec<u8>),
    /// There is no file of that name.
    NotFound,
    /// The file is there but could not be read.
    Failed,
}

/// What came of opening a file, as a mathematical value.
pub enum FileEventView {
    Opened(Seq<u8>),
    NotFound,
    Failed,
}

impl View for FileEvent {
    type V = FileEventView;

    open spec fn view(&self) -> FileEventView {
        match self {
            FileEvent::Opened(bytes) => FileEventView::Opened(bytes@),
            FileEvent::NotFound => FileEventView::NotFound,
            FileEvent::Failed => FileEventView::Failed,
        }
    }
}

/// Where the reading of a commit stands while it waits for a file.
#[derive(Debug)]
pub enum CommitReader {
    /// Nothing has been read; the commit file of `generation` is awaited.
    Commit { generation: u64 },
    /// The commit file has been read up to and including the entry `pending`;
    /// the metadata file of that segment is awaited.
    Segment { input: IndexInput, commit: SegmentInfos, pending: SegmentRef },
}

/// Where the reading of a commit stands, as a mathematical value: of the
/// commit file `data`, `rest` has not been read yet.
pub enum CommitReaderView {
    Commit { generation: u64 },
    Segment { data: Seq<u8>, rest: Seq<u8>, commit: SegmentInfosView, pending: SegmentRefView },
}

impl View for CommitReader {
    type V = CommitReaderView;

    open spec fn view(&self) -> CommitReaderView {
        match self {
            CommitReader::Commit { generation } => CommitReaderView::Commit {
                generation: *generation,
            },
            CommitReader::Segment { input, commit, pending } => CommitReaderView::Segment {
                data: input.data(),
                rest: input.remaining(),
                commit: commit@,
                pending: pending@,
            },
        }
    }
}

/// How the reading of a commit goes on.
#[derive(Debug)]
pub enum Step {
    /// The file `file_name` is needed; `reader` takes what comes of opening it.
    Open { file_name: String, reader: CommitReader },
    /// The commit has been read.
    Done(SegmentInfos),
    /// The commit cannot be read.
    Failed(SegmentReadError),
}

/// How the reading of a commit goes on, as a mathematical value.
pub enum StepView {
    Open { file_name: Seq<char>, reader: CommitReaderView },
    Done(SegmentInfosView),
    Failed(SegmentReadError),
}

impl View for Step {
    type V = StepView;

    open spec fn view(&self) -> StepView {
        match self {
            Step::Open { file_name, reader } => StepView::Open {
                file_name: file_name@,
                reader: reader@,
            },
            Step::Done(commit) => StepView::Done(commit@),
            Step::Failed(e) => StepView::Failed(*e),
        }
    }
}

/// The name of the metadata file of the segment named `segment_name`.
pub open spec fn segment_info_file_name(segment_name: Seq<char>) -> Seq<char> {
    segment_name + "."@ + Lucene90SegmentInfoFormat::SI_EXTENSION@
}

/// How reading goes on when `rest` is left of the commit file `data` and
/// `commit` holds the segments read so far. With all segments read, the footer
/// decides. Else the next entry is read, and the metadata file of its segment
/// is asked for.
pub open spec fn proceed(data: Seq<u8>, rest: Seq<u8>, commit: SegmentInfosView) -> StepView {
    if commit.segments.len() >= commit.num_segments {
        match parse_footer(data, rest).0 {
            Ok(_) => StepView::Done(commit),
            Err(e) => StepView::Failed(e),
        }
    } else {
        let entry = parse_segment_ref(rest);
        match entry.0 {
            Ok(pending) => StepView::Open {
                file_name: segment_info_file_name(pending.name),
                reader: CommitReaderView::Segment { data, rest: entry.1, commit, pending },
            },
            Err(e) => StepView::Failed(e),
        }
    }
}

/// How reading goes on from `reader` when `event` came of opening the file
/// that it waited for. A file that is not there, or cannot be read, ends the
/// reading. The bytes of the commit file are decoded up to the first segment
/// entry; the bytes of a metadata file are decoded as the metadata of the
/// segment waited for, which joins the commit; either way reading then
/// proceeds in the commit file.
pub open spec fn resumed(reader: CommitReaderView, event: FileEventView) -> StepView {
    match event {
        FileEventView::NotFound => StepView::Failed(SegmentReadError::NotFound),
        FileEventView::Failed => StepView::Failed(SegmentReadError::Io),
        FileEventView::Opened(bytes) => match reader {
            CommitReaderView::Commit { generation } => {
                let head = parse_commit_head(bytes, generation);
                match head.0 {
                    Ok(commit) => proceed(bytes, head.1, commit),
                    Err(e) => StepView::Failed(e),
                }
            },
            CommitReaderView::Segment { data, rest, commit, pending } => {
                match parse_segment_info(bytes, pending) {
                    Ok(info) => proceed(data, rest, commit.with_segment(pending, info)),
                    Err(e) => StepView::Failed(e),
                }
            },
        },
    }
}

/// The bytes of the suffix of generation `generation`: its length as one byte,
/// then its UTF-8 bytes.
pub open spec fn encode_suffix(generation: u64) -> Seq<u8> {
    let text = encode_utf8(generation_suffix(generation));
    seq![text.len() as u8] + text
}

/// The bytes of a version in a commit file.
pub open spec fn encode_lucene_version(v: (u32, u32, u32)) -> Seq<u8> {
    encode_varint(v.0 as nat) + encode_varint(v.1 as nat) + encode_varint(v.2 as nat)
}

/// The bytes of the entry of one segment.
pub open spec fn encode_segment_ref(entry: SegmentRefView) -> Seq<u8> {
    encode_vstring(entry.name) + entry.id + encode_vstring(entry.codec_name)
}

/// The bytes of the entries of segments, one after the other.
pub open spec fn encode_segment_refs(entries: Seq<SegmentRefView>) -> Seq<u8>
    decreases entries.len(),
{
    if entries.len() == 0 {
        Seq::empty()
    } else {
        encode_segment_ref(entries[0]) + encode_segment_refs(entries.drop_first())
    }
}

/// The bytes of a commit file up to its first segment entry.
pub open spec fn encode_commit_head(commit: SegmentInfosView) -> Seq<u8> {
    encode_header(Codec::SEGMENTS_CODEC@, commit.format_version) + commit.id + encode_suffix(
        commit.generation,
    ) + encode_lucene_version(commit.lucene_version) + seq![commit.index_created_version as u8]
        + encode_varint(commit.version as nat) + encode_varint(commit.counter as nat)
        + encode_varint(commit.num_segments as nat) + encode_lucene_version(
        commit.min_segment_lucene_version,
    )
}

/// The bytes of the commit file of `commit`.
pub open spec fn encode_commit(commit: SegmentInfosView) -> Seq<u8> {
    let content = encode_commit_head(commit) + encode_segment_refs(commit.segment_refs);
    content + encode_footer(content)
}

/// The metadata files of the segments of `commit`, in the commit's order, as
/// they come when they are opened.
pub open spec fn encode_segments(commit: SegmentInfosView) -> Seq<FileEventView> {
    Seq::new(
        commit.segments.len(),
        |i: int|
            FileEventView::Opened(
                encode_segment_info(
                    commit.segments[i],
                    commit.segment_refs[i].codec_name,
                    SI_VERSION_CURRENT,
                ),
            ),
    )
}

/// The commit can be written: the major version that created the index fits
/// one byte, the counters are below 2^63, and every segment's entry and
/// metadata can be written.
pub open spec fn commit_fits(commit: SegmentInfosView) -> bool {
    &&& commit.index_created_version <= u8::MAX
    &&& commit.version < 0x8000_0000_0000_0000
    &&& commit.counter < 0x8000_0000_0000_0000
    &&& forall|i: int|
        0 <= i < commit.segment_refs.len() ==> text_fits((#[trigger] commit.segment_refs[i]).name)
            && text_fits(commit.segment_refs[i].codec_name)
    &&& forall|i: int|
        0 <= i < commit.segments.len() ==> segment_info_fits(#[trigger] commit.segments[i])
}

/// `commit` with only the first `k` of its segments.
pub open spec fn first_segments(commit: SegmentInfosView, k: int) -> SegmentInfosView {
    SegmentInfosView {
        segment_refs: commit.segment_refs.take(k),
        segments: commit.segments.take(k),
        ..commit
    }
}

/// A version of a commit file that is written and then read comes back as it
/// was.
pub proof fn lemma_lucene_version_round_trip(v: (u32, u32, u32), tail: Seq<u8>)
    ensures
        parse_lucene_version(encode_lucene_version(v) + tail) == (
            Ok::<(u32, u32, u32), SegmentReadError>(v),
            tail,
        ),
{
    let minor = encode_varint(v.1 as nat);
    let patch = encode_varint(v.2 as nat);
    assert(encode_lucene_version(v) + tail =~= encode_varint(v.0 as nat) + (minor + (patch
        + tail)));
    lemma_vint_round_trip(v.0, minor + (patch + tail));
    lemma_vint_round_trip(v.1, patch + tail);
    lemma_vint_round_trip(v.2, tail);
}

/// The suffix of a generation that is written and then read is accepted as
/// the suffix of that generation.
pub proof fn lemma_suffix_round_trip(generation: u64, tail: Seq<u8>)
    ensures
        parse_suffix(encode_suffix(generation) + tail, generation_suffix(generation)) == (
            Ok::<(), SegmentReadError>(()),
            tail,
        ),
{
    let suffix = generation_suffix(generation);
    let text = encode_utf8(suffix);
    lemma_generation_suffix_is_short(generation);
    assert(is_ascii_chars(suffix));
    is_ascii_chars_encode_utf8(suffix);
    let s = encode_suffix(generation) + tail;
    assert(s.skip(1) =~= text + tail);
    lemma_bytes_round_trip(text, tail);
}

/// The entry of a segment that is written and then read comes back as it
/// was.
pub proof fn lemma_segment_ref_round_trip(entry: SegmentRefView, tail: Seq<u8>)
    requires
        entry.id.len() == ID_LENGTH,
        text_fits(entry.name),
        text_fits(entry.codec_name),
    ensures
        parse_segment_ref(encode_segment_ref(entry) + tail) == (
            Ok::<SegmentRefView, SegmentReadError>(entry),
            tail,
        ),
{
    let codec = encode_vstring(entry.codec_name);
    assert(encode_segment_ref(entry) + tail =~= encode_vstring(entry.name) + (entry.id + (codec
        + tail)));
    lemma_vstring_round_trip(entry.name, entry.id + (codec + tail));
    lemma_bytes_round_trip(entry.id, codec + tail);
    lemma_vstring_round_trip(entry.codec_name, tail);
}

/// The bytes of a commit file up to its first segment entry, followed by
/// `tail`.
spec fn encode_commit_head_before(commit: SegmentInfosView, tail: Seq<u8>) -> Seq<u8> {
    encode_header(Codec::SEGMENTS_CODEC@, commit.format_version) + (commit.id + (encode_suffix(
        commit.generation,
    ) + (encode_lucene_version(commit.lucene_version) + (seq![commit.index_created_version as u8]
        + (encode_varint(commit.version as nat) + (encode_varint(commit.counter as nat) + (
    encode_varint(commit.num_segments as nat) + (encode_lucene_version(
        commit.min_segment_lucene_version,
    ) + tail))))))))
}

#[verifier::rlimit(50)]
proof fn lemma_commit_head_before(commit: SegmentInfosView, tail: Seq<u8>)
    ensures
        encode_commit_head(commit) + tail == encode_commit_head_before(commit, tail),
{
    let e9 = encode_lucene_version(commit.min_segment_lucene_version);
    let e8 = encode_varint(commit.num_segments as nat);
    let e7 = encode_varint(commit.counter as nat);
    let e6 = encode_varint(commit.version as nat);
    let e5 = seq![commit.index_created_version as u8];
    let e4 = encode_lucene_version(commit.lucene_version);
    let e3 = encode_suffix(commit.generation);
    let e2 = commit.id;
    let e1 = encode_header(Codec::SEGMENTS_CODEC@, commit.format_version);
    let t8 = e9 + tail;
    let t7 = e8 + t8;
    let t6 = e7 + t7;
    let t5 = e6 + t6;
    let t4 = e5 + t5;
    let t3 = e4 + t4;
    let t2 = e3 + t3;
    let c2 = e1 + e2;
    let c3 = c2 + e3;
    let c4 = c3 + e4;
    let c5 = c4 + e5;
    let c6 = c5 + e6;
    let c7 = c6 + e7;
    let c8 = c7 + e8;
    lemma_concat_assoc(c8, e9, tail);
    lemma_concat_assoc(c7, e8, t8);
    lemma_concat_assoc(c6, e7, t7);
    lemma_concat_assoc(c5, e6, t6);
    lemma_concat_assoc(c4, e5, t5);
    lemma_concat_assoc(c3, e4, t4);
    lemma_concat_assoc(c2, e3, t3);
    lemma_concat_assoc(e1, e2, t2);
}

#[verifier::rlimit(50)]
proof fn lemma_commit_head_round_trip(commit: SegmentInfosView, tail: Seq<u8>)
    requires
        commit.wf_so_far(),
        commit_fits(commit),
    ensures
        parse_commit_head(encode_commit_head_before(commit, tail), commit.generation) == (
            Ok::<SegmentInfosView, SegmentReadError>(first_segments(commit, 0)),
            tail,
        ),
{
    let t8 = encode_lucene_version(commit.min_segment_lucene_version) + tail;
    let t7 = encode_varint(commit.num_segments as nat) + t8;
    let t6 = encode_varint(commit.counter as nat) + t7;
    let t5 = encode_varint(commit.version as nat) + t6;
    let t4 = seq![commit.index_created_version as u8] + t5;
    let t3 = encode_lucene_version(commit.lucene_version) + t4;
    let t2 = encode_suffix(commit.generation) + t3;
    let t1 = commit.id + t2;
    let data = encode_header(Codec::SEGMENTS_CODEC@, commit.format_version) + t1;
    let magic = lifted(parse_magic(data));
    let format = lifted(
        parse_header_no_magic(
            magic.1,
            Codec::SEGMENTS_CODEC@,
            SegmentInfos::MIN_VERSION,
            SegmentInfos::CURRENT_VERSION,
        ),
    );
    assert(magic.0 is Ok && format == (Ok::<u32, SegmentReadError>(commit.format_version), t1))
        by {
        reveal_strlit("segments");
        assert(is_ascii_chars(Codec::SEGMENTS_CODEC@));
        is_ascii_chars_encode_utf8(Codec::SEGMENTS_CODEC@);
        lemma_header_round_trip(
            Codec::SEGMENTS_CODEC@,
            commit.format_version,
            SegmentInfos::MIN_VERSION,
            SegmentInfos::CURRENT_VERSION,
            t1,
        );
    }
    let id = lifted(parse_bytes(format.1, ID_LENGTH as nat));
    assert(id == (Ok::<Seq<u8>, SegmentReadError>(commit.id), t2)) by {
        lemma_bytes_round_trip(commit.id, t2);
    }
    let suffix = parse_suffix(id.1, generation_suffix(commit.generation));
    assert(suffix == (Ok::<(), SegmentReadError>(()), t3)) by {
        lemma_suffix_round_trip(commit.generation, t3);
    }
    let versions = parse_versions(suffix.1);
    assert(versions == (
        Ok::<((u32, u32, u32), u32), SegmentReadError>(
            (commit.lucene_version, commit.index_created_version),
        ),
        t5,
    )) by {
        lemma_lucene_version_round_trip(commit.lucene_version, t4);
        assert(t4.skip(1) =~= t5);
    }
    let version = lifted(parse_vlong(versions.1));
    assert(version == (Ok::<u64, SegmentReadError>(commit.version), t6)) by {
        lemma_vlong_round_trip(commit.version, t6);
    }
    let counter = lifted(parse_vlong(version.1));
    assert(counter == (Ok::<u64, SegmentReadError>(commit.counter), t7)) by {
        lemma_vlong_round_trip(commit.counter, t7);
    }
    let count = lifted(parse_vint(counter.1));
    assert(count == (Ok::<u32, SegmentReadError>(commit.num_segments), t8)) by {
        lemma_vint_round_trip(commit.num_segments, t8);
    }
    let oldest = parse_lucene_version(count.1);
    assert(oldest == (
        Ok::<(u32, u32, u32), SegmentReadError>(commit.min_segment_lucene_version),
        tail,
    )) by {
        lemma_lucene_version_round_trip(commit.min_segment_lucene_version, tail);
    }
    assert(first_segments(commit, 0).segment_refs =~= Seq::<SegmentRefView>::empty());
    assert(first_segments(commit, 0).segments =~= Seq::<SegmentInfoView>::empty());
}

/// What is left of a written commit file from its `k`-th segment entry on,
/// where `content` is the file without its footer.
spec fn rest_from(commit: SegmentInfosView, content: Seq<u8>, k: int) -> Seq<u8> {
    encode_segment_refs(commit.segment_refs.skip(k)) + encode_footer(content)
}

/// The reader that waits for the metadata file of the `k`-th segment of a
/// written commit.
spec fn reader_at(commit: SegmentInfosView, content: Seq<u8>, k: int) -> CommitReaderView {
    CommitReaderView::Segment {
        data: content + encode_footer(content),
        rest: rest_from(commit, content, k + 1),
        commit: first_segments(commit, k),
        pending: commit.segment_refs[k],
    }
}

/// Reading a written commit on from its `k`-th segment entry asks for the
/// metadata file of the `k`-th segment.
#[verifier::rlimit(50)]
proof fn lemma_entry_round_trip(commit: SegmentInfosView, content: Seq<u8>, k: int)
    requires
        commit.wf(),
        commit_fits(commit),
        0 <= k < commit.segments.len(),
    ensures
        proceed(
            content + encode_footer(content),
            rest_from(commit, content, k),
            first_segments(commit, k),
        ) == (StepView::Open {
            file_name: segment_info_file_name(commit.segment_refs[k].name),
            reader: reader_at(commit, content, k),
        }),
{
    let entries = commit.segment_refs.skip(k);
    let entry = commit.segment_refs[k];
    let others = rest_from(commit, content, k + 1);
    assert(entries[0] == entry);
    assert(entries.drop_first() =~= commit.segment_refs.skip(k + 1));
    assert(rest_from(commit, content, k) =~= encode_segment_ref(entry) + others);
    assert(commit.segments[k].wf());
    lemma_segment_ref_round_trip(entry, others);
}

/// The written metadata file of the `k`-th segment of a commit is accepted
/// by the reader that waits for it, and the segment joins the commit.
#[verifier::rlimit(50)]
proof fn lemma_segment_joins(commit: SegmentInfosView, content: Seq<u8>, k: int)
    requires
        commit.wf(),
        commit_fits(commit),
        0 <= k < commit.segments.len(),
    ensures
        resumed(reader_at(commit, content, k), encode_segments(commit)[k]) == proceed(
            content + encode_footer(content),
            rest_from(commit, content, k + 1),
            first_segments(commit, k + 1),
        ),
{
    let entry = commit.segment_refs[k];
    let info = commit.segments[k];
    let so_far = first_segments(commit, k);
    assert(info.wf());
    assert(entry == (SegmentRefView { name: info.name, id: info.id, codec_name: entry.codec_name }));
    lemma_segment_info_round_trip(info, entry.codec_name, SI_VERSION_CURRENT);
    assert(so_far.with_segment(entry, info).segment_refs =~= commit.segment_refs.take(k + 1));
    assert(so_far.with_segment(entry, info).segments =~= commit.segments.take(k + 1));
}

/// Reading a written commit on from its `k`-th segment entry, with the
/// written metadata files of the segments from the `k`-th on, ends with the
/// commit.
#[verifier::rlimit(50)]
proof fn lemma_rest_round_trip(commit: SegmentInfosView, content: Seq<u8>, k: int)
    requires
        commit.wf(),
        commit_fits(commit),
        0 <= k <= commit.segments.len(),
    ensures
        read_with(
            proceed(
                content + encode_footer(content),
                rest_from(commit, content, k),
                first_segments(commit, k),
            ),
            encode_segments(commit).skip(k),
        ) == StepView::Done(commit),
    decreases commit.segments.len() - k,
{
    let files = encode_segments(commit).skip(k);
    if k == commit.segments.len() {
        assert(first_segments(commit, k).segment_refs =~= commit.segment_refs);
        assert(first_segments(commit, k).segments =~= commit.segments);
        assert(rest_from(commit, content, k) =~= encode_footer(content));
        lemma_footer_round_trip(content);
    } else {
        lemma_entry_round_trip(commit, content, k);
        lemma_segment_joins(commit, content, k);
        assert(files[0] == encode_segments(commit)[k]);
        assert(files.drop_first() =~= encode_segments(commit).skip(k + 1));
        lemma_rest_round_trip(commit, content, k + 1);
    }
}

/// The written commit file is accepted up to its first segment entry by the
/// reader that waits for it.
#[verifier::rlimit(50)]
proof fn lemma_head_joins(commit: SegmentInfosView, content: Seq<u8>)
    requires
        commit.wf(),
        commit_fits(commit),
        content == encode_commit_head(commit) + encode_segment_refs(commit.segment_refs),
    ensures
        encode_commit(commit) == content + encode_footer(content),
        resumed(
            CommitReaderView::Commit { generation: commit.generation },
            FileEventView::Opened(encode_commit(commit)),
        ) == proceed(
            content + encode_footer(content),
            rest_from(commit, content, 0),
            first_segments(commit, 0),
        ),
{
    let entries = encode_segment_refs(commit.segment_refs);
    let footer = encode_footer(content);
    lemma_concat_assoc(encode_commit_head(commit), entries, footer);
    lemma_commit_head_before(commit, entries + footer);
    lemma_commit_head_round_trip(commit, entries + footer);
    assert(commit.segment_refs.skip(0) =~= commit.segment_refs);
}

/// Law of the round trip, for commits: what is written as a commit file and
/// as the metadata files of its segments, and then read, comes back as it was.
/// So the bytes that come of writing a commit are the bytes that come of
/// writing what was read from them.
#[verifier::rlimit(50)]
pub proof fn lemma_commit_round_trip(commit: SegmentInfosView)
    requires
        commit.wf(),
        commit_fits(commit),
    ensures
        read_with(
            first_step(commit.generation),
            seq![FileEventView::Opened(encode_commit(commit))] + encode_segments(commit),
        ) == StepView::Done(commit),
{
    let content = encode_commit_head(commit) + encode_segment_refs(commit.segment_refs);
    let files = encode_segments(commit);
    let all = seq![FileEventView::Opened(encode_commit(commit))] + files;
    assert(all[0] == FileEventView::Opened(encode_commit(commit)));
    assert(all.drop_first() =~= files);
    assert(files.skip(0) =~= files);
    lemma_head_joins(commit, content);
    lemma_rest_round_trip(commit, content, 0);
}

/// How reading ends up when the files that it asks for come in the order of
/// `files`: every file asked for is answered by the next of `files`, until
/// reading is done, has failed, or `files` has run out.
pub open spec fn read_with(step: StepView, files: Seq<FileEventView>) -> StepView
    decreases files.len(),
{
    match step {
        StepView::Open { file_name, reader } => if files.len() == 0 {
            step
        } else {
            read_with(resumed(reader, files[0]), files.drop_first())
        },
        _ => step,
    }
}

/// The first step of reading the commit of generation `generation`.
pub open spec fn first_step(generation: u64) -> StepView {
    StepView::Open {
        file_name: segments_file_name(generation),
        reader: CommitReaderView::Commit { generation },
    }
}

/// Some suffix of `data` is accepted as the footer of `data`.
pub open spec fn has_footer(data: Seq<u8>) -> bool {
    exists|rest: Seq<u8>| is_suffix(rest, data) && (#[trigger] parse_footer(data, rest)).0 is Ok
}

/// `step` is a step in the reading of the commit file `data`: if it waits
/// for a file, it has read a part of `data` and nothing else; if it is done,
/// the footer of `data` was accepted.
pub open spec fn reads_file(step: StepView, data: Seq<u8>) -> bool {
    match step {
        StepView::Open { file_name, reader } => match reader {
            CommitReaderView::Commit { generation } => false,
            CommitReaderView::Segment { data: d, rest, commit, pending } => d == data && is_suffix(
                rest,
                data,
            ),
        },
        StepView::Done(commit) => has_footer(data),
        StepView::Failed(e) => true,
    }
}

/// What is left after a part of a commit file is a suffix of what was there
/// before it.
#[verifier::rlimit(50)]
pub proof fn lemma_parse_commit_advances(s: Seq<u8>, generation: u64)
    ensures
        is_suffix(parse_suffix(s, generation_suffix(generation)).1, s),
        is_suffix(parse_lucene_version(s).1, s),
        is_suffix(parse_versions(s).1, s),
        is_suffix(parse_segment_ref(s).1, s),
        is_suffix(parse_commit_head(s, generation).1, s),
{
    lemma_parse_part_advances(s, generation_suffix(generation));
    let magic = lifted(parse_magic(s));
    lemma_parse_header_advances(
        s,
        Codec::SEGMENTS_CODEC@,
        SegmentInfos::MIN_VERSION,
        SegmentInfos::CURRENT_VERSION,
    );
    lemma_parse_header_advances(
        magic.1,
        Codec::SEGMENTS_CODEC@,
        SegmentInfos::MIN_VERSION,
        SegmentInfos::CURRENT_VERSION,
    );
    let format = lifted(
        parse_header_no_magic(
            magic.1,
            Codec::SEGMENTS_CODEC@,
            SegmentInfos::MIN_VERSION,
            SegmentInfos::CURRENT_VERSION,
        ),
    );
    lemma_suffix_of_suffix(format.1, magic.1, s);
    lemma_parse_advances(format.1, ID_LENGTH as nat);
    let id = lifted(parse_bytes(format.1, ID_LENGTH as nat));
    lemma_suffix_of_suffix(id.1, format.1, s);
    let suffix = parse_suffix(id.1, generation_suffix(generation));
    lemma_parse_part_advances(id.1, generation_suffix(generation));
    lemma_suffix_of_suffix(suffix.1, id.1, s);
    let versions = parse_versions(suffix.1);
    lemma_parse_part_advances(suffix.1, generation_suffix(generation));
    lemma_suffix_of_suffix(versions.1, suffix.1, s);
    let version = lifted(parse_vlong(versions.1));
    lemma_parse_advances(versions.1, 0);
    lemma_suffix_of_suffix(version.1, versions.1, s);
    let counter = lifted(parse_vlong(version.1));
    lemma_parse_advances(version.1, 0);
    lemma_suffix_of_suffix(counter.1, version.1, s);
    let count = lifted(parse_vint(counter.1));
    lemma_parse_advances(counter.1, 0);
    lemma_suffix_of_suffix(count.1, counter.1, s);
    let oldest = parse_lucene_version(count.1);
    lemma_parse_part_advances(count.1, generation_suffix(generation));
    lemma_suffix_of_suffix(oldest.1, count.1, s);
}

proof fn lemma_parse_part_advances(s: Seq<u8>, expected: Seq<char>)
    ensures
        is_suffix(parse_suffix(s, expected).1, s),
        is_suffix(parse_lucene_version(s).1, s),
        is_suffix(parse_versions(s).1, s),
        is_suffix(parse_segment_ref(s).1, s),
{
    lemma_parse_suffix_advances(s, expected);
    lemma_parse_lucene_version_advances(s);
    let written = parse_lucene_version(s);
    lemma_parse_advances(written.1, 0);
    lemma_suffix_of_suffix(parse_byte(written.1).1, written.1, s);
    lemma_parse_segment_ref_advances(s);
}

proof fn lemma_parse_suffix_advances(s: Seq<u8>, expected: Seq<char>)
    ensures
        is_suffix(parse_suffix(s, expected).1, s),
{
    lemma_parse_advances(s, 0);
    let length = lifted(parse_byte(s));
    lemma_parse_advances(length.1, length.0->Ok_0 as nat);
    lemma_suffix_of_suffix(parse_bytes(length.1, length.0->Ok_0 as nat).1, length.1, s);
}

proof fn lemma_parse_lucene_version_advances(s: Seq<u8>)
    ensures
        is_suffix(parse_lucene_version(s).1, s),
{
    lemma_parse_advances(s, 0);
    let major = lifted(parse_vint(s));
    lemma_parse_advances(major.1, 0);
    let minor = lifted(parse_vint(major.1));
    lemma_parse_advances(minor.1, 0);
    let patch = lifted(parse_vint(minor.1));
    lemma_suffix_of_suffix(minor.1, major.1, s);
    lemma_suffix_of_suffix(patch.1, minor.1, s);
}

proof fn lemma_parse_segment_ref_advances(s: Seq<u8>)
    ensures
        is_suffix(parse_segment_ref(s).1, s),
{
    lemma_parse_advances(s, 0);
    let name = lifted(parse_vstring(s));
    lemma_parse_advances(name.1, ID_LENGTH as nat);
    let id = lifted(parse_bytes(name.1, ID_LENGTH as nat));
    lemma_suffix_of_suffix(id.1, name.1, s);
    lemma_parse_advances(id.1, 0);
    lemma_suffix_of_suffix(parse_vstring(id.1).1, id.1, s);
}

/// Reading that goes on in a commit file stays in that file.
pub proof fn lemma_proceed_reads_file(data: Seq<u8>, rest: Seq<u8>, commit: SegmentInfosView)
    requires
        is_suffix(rest, data),
    ensures
        reads_file(proceed(data, rest, commit), data),
{
    lemma_parse_commit_advances(rest, 0);
    lemma_suffix_of_suffix(parse_segment_ref(rest).1, rest, data);
}

/// However the files come, reading that has begun in a commit file stays in
/// that file: it is done only where the file's footer was accepted.
#[verifier::rlimit(50)]
pub proof fn lemma_read_with_reads_file(step: StepView, files: Seq<FileEventView>, data: Seq<u8>)
    requires
        reads_file(step, data),
    ensures
        reads_file(read_with(step, files), data),
    decreases files.len(),
{
    if let StepView::Open { file_name, reader } = step {
        if files.len() > 0 {
            if let CommitReaderView::Segment { data: d, rest, commit, pending } = reader {
                if let FileEventView::Opened(bytes) = files[0] {
                    if let Ok(info) = parse_segment_info(bytes, pending) {
                        lemma_proceed_reads_file(data, rest, commit.with_segment(pending, info));
                    }
                }
                lemma_read_with_reads_file(resumed(reader, files[0]), files.drop_first(), data);
            }
        }
    }
}

/// No change of a single byte goes unnoticed: where a commit was read from
/// the commit file `data`, no commit is read from the same bytes with one byte
/// before the footer changed, whatever the segments' files hold.
#[verifier::rlimit(50)]
pub proof fn lemma_commit_detects_byte(
    generation: u64,
    data: Seq<u8>,
    files: Seq<FileEventView>,
    i: int,
    b: u8,
    other_files: Seq<FileEventView>,
)
    requires
        read_with(first_step(generation), seq![FileEventView::Opened(data)] + files) is Done,
        0 <= i < data.len() - 8,
        b != data[i],
    ensures
        !(read_with(
            first_step(generation),
            seq![FileEventView::Opened(data.update(i, b))] + other_files,
        ) is Done),
{
    let changed = data.update(i, b);
    lemma_read_of_commit_file(generation, data, files);
    lemma_read_of_commit_file(generation, changed, other_files);
    let end = read_with(first_step(generation), seq![FileEventView::Opened(changed)] + other_files);
    if end is Done {
        let rest = choose|rest: Seq<u8>|
            is_suffix(rest, data) && (#[trigger] parse_footer(data, rest)).0 is Ok;
        let changed_rest = choose|rest: Seq<u8>|
            is_suffix(rest, changed) && (#[trigger] parse_footer(changed, rest)).0 is Ok;
        lemma_footer_detects_byte(data, rest, i, b, changed_rest);
    }
}

/// Reading a commit from the commit file `data` stays in that file.
#[verifier::rlimit(50)]
pub proof fn lemma_read_of_commit_file(generation: u64, data: Seq<u8>, files: Seq<FileEventView>)
    ensures
        reads_file(
            read_with(first_step(generation), seq![FileEventView::Opened(data)] + files),
            data,
        ),
{
    let all = seq![FileEventView::Opened(data)] + files;
    assert(all.drop_first() =~= files);
    let head = parse_commit_head(data, generation);
    lemma_parse_commit_advances(data, generation);
    if let Ok(commit) = head.0 {
        lemma_proceed_reads_file(data, head.1, commit);
    }
    lemma_read_with_reads_file(
        resumed(CommitReaderView::Commit { generation }, all[0]),
        files,
        data,
    );
}

impl CommitReader {
    /// A reader that waits for a metadata file has a commit that still lacks
    /// a segment, and an entry with an id of the right length.
    pub open spec fn wf(&self) -> bool {
        match self {
            CommitReader::Commit { generation } => true,
            CommitReader::Segment { input, commit, pending } => {
                &&& input.wf()
                &&& commit@.wf_so_far()
                &&& commit@.segments.len() < commit.num_segments
                &&& pending.id@.len() == ID_LENGTH
            },
        }
    }

    /// Takes what came of opening the file that the reader waited for, and
    /// says how reading goes on.
#[verifier::rlimit(50)]
    pub fn resume(self, event: FileEvent) -> (step: Step)
        requires
            self.wf(),
        ensures
            step@ == resumed(self@, event@),
            step.wf(),
    {
        let bytes = match event {
            FileEvent::Opened(bytes) => bytes,
            FileEvent::NotFound => {
                return Step::Failed(SegmentReadError::NotFound);
            },
            FileEvent::Failed => {
                return Step::Failed(SegmentReadError::Io);
            },
        };
        match self {
            CommitReader::Commit { generation } => {
                let mut input = IndexInput::new(bytes);
                match Self::read_head(&mut input, generation) {
                    Ok(commit) => Self::proceed(input, commit),
                    Err(e) => Step::Failed(e),
                }
            },
            CommitReader::Segment { input, commit, pending } => {
                match Lucene90SegmentInfoFormat::read(bytes, &pending) {
                    Ok(info) => {
                        let mut commit = commit;
                        let ghost before = commit@;
                        let ghost entry = pending@;
                        let ghost added = info@;
                        commit.segment_refs.push(pending);
                        commit.segments.push(info);
                        assert(commit@.segment_refs =~= before.segment_refs.push(entry));
                        assert(commit@.segments =~= before.segments.push(added));
                        assert(commit@ == before.with_segment(entry, added));
                        Self::proceed(input, commit)
                    },
                    Err(e) => Step::Failed(e),
                }
            },
        }
    }

    /// Goes on in the commit file after the head or after a segment.
    fn proceed(input: IndexInput, commit: SegmentInfos) -> (step: Step)
        requires
            input.wf(),
            commit@.wf_so_far(),
        ensures
            step@ == proceed(input.data(), input.remaining(), commit@),
            step.wf(),
    {
        let mut input = input;
        if commit.segments.len() >= commit.num_segments as usize {
            match check_footer(&mut input) {
                Ok(_) => Step::Done(commit),
                Err(e) => Step::Failed(e),
            }
        } else {
            match Self::read_segment_ref(&mut input) {
                Ok(pending) => {
                    let file_name = Lucene90SegmentInfoFormat::file_name(pending.name.as_str());
                    Step::Open { file_name, reader: CommitReader::Segment { input, commit, pending } }
                },
                Err(e) => Step::Failed(e),
            }
        }
    }

    /// Reads a version of three variable-length integers.
    fn read_lucene_version(input: &mut IndexInput) -> (res: Result<
        (u32, u32, u32),
        SegmentReadError,
    >)
        requires
            old(input).wf(),
        ensures
            final(input).wf(),
            final(input).data() == old(input).data(),
            (res, final(input).remaining()) == parse_lucene_version(old(input).remaining()),
    {
        let major = input.read_variable_int()?;
        let minor = input.read_variable_int()?;
        let patch = input.read_variable_int()?;
        Ok((major, minor, patch))
    }

    /// Reads the versions of a commit and checks them against each other.
    fn read_versions(input: &mut IndexInput) -> (res: Result<
        ((u32, u32, u32), u32),
        SegmentReadError,
    >)
        requires
            old(input).wf(),
        ensures
            final(input).wf(),
            final(input).data() == old(input).data(),
            (res, final(input).remaining()) == parse_versions(old(input).remaining()),
    {
        let lucene_version = Self::read_lucene_version(input)?;
        let index_created_version = input.read_byte()? as u32;
        if index_created_version > lucene_version.0 {
            return Err(SegmentReadError::CorruptedIndex);
        }
        if index_created_version < SegmentInfos::MIN_VERSION {
            return Err(SegmentReadError::CorruptedIndex);
        }
        Ok((lucene_version, index_created_version))
    }

    /// Reads a commit file up to its first segment entry.
#[verifier::rlimit(50)]
    fn read_head(input: &mut IndexInput, generation: u64) -> (res: Result<
        SegmentInfos,
        SegmentReadError,
    >)
        requires
            old(input).wf(),
        ensures
            final(input).wf(),
            final(input).data() == old(input).data(),
            (crate::util::viewed(res), final(input).remaining()) == parse_commit_head(
                old(input).remaining(),
                generation,
            ),
            res matches Ok(commit) ==> commit@.wf_so_far(),
    {
        input.check_magic()?;
        let format_version = SegmentInfos::check_header(input)?;
        let id = input.read_id()?;
        let suffix = get_generation_suffix(generation);
        SegmentInfos::check_header_suffix(input, suffix.as_str())?;
        let versions = Self::read_versions(input)?;
        let version = input.read_variable_long()?;
        let counter = input.read_variable_long()?;
        let num_segments = input.read_variable_int()?;
        let min_segment_lucene_version = Self::read_lucene_version(input)?;
        let commit = SegmentInfos {
            format_version,
            id,
            generation,
            lucene_version: versions.0,
            index_created_version: versions.1,
            version,
            counter,
            num_segments,
            min_segment_lucene_version,
            segment_refs: Vec::new(),
            segments: Vec::new(),
        };
        assert(commit@.segment_refs =~= Seq::empty());
        assert(commit@.segments =~= Seq::empty());
        Ok(commit)
    }

    /// Reads the entry of one segment.
    fn read_segment_ref(input: &mut IndexInput) -> (res: Result<SegmentRef, SegmentReadError>)
        requires
            old(input).wf(),
        ensures
            final(input).wf(),
            final(input).data() == old(input).data(),
            (crate::util::viewed(res), final(input).remaining()) == parse_segment_ref(
                old(input).remaining(),
            ),
            res matches Ok(entry) ==> entry.id@.len() == ID_LENGTH,
    {
        let name = input.read_variable_string()?;
        let id = input.read_id()?;
        let codec_name = input.read_variable_string()?;
        Ok(SegmentRef { name, id, codec_name })
    }
}

impl Step {
    /// A step that asks for a file has a reader that is fit to take it; a
    /// commit that has been read is whole.
    pub open spec fn wf(&self) -> bool {
        match self {
            Step::Open { file_name, reader } => reader.wf(),
            Step::Done(commit) => commit@.wf(),
            Step::Failed(e) => true,
        }
    }
}

impl SegmentInfos {
    /// Starts reading the commit of generation `generation`: asks for its
    /// commit file.
    pub fn read_commit(generation: u64) -> (step: Step)
        ensures
            step@ == (StepView::Open {
                file_name: segments_file_name(generation),
                reader: CommitReaderView::Commit { generation },
            }),
            step.wf(),
    {
        Step::Open {
            file_name: get_segment_file_name(generation),
            reader: CommitReader::Commit { generation },
        }
    }

    /// The oldest format version of a commit file that is read, and the
    /// oldest major version that may have created the index.
    pub const MIN_VERSION: u32 = 9;

    /// The newest format version of a commit file that is read.
    pub const CURRENT_VERSION: u32 = 10;

    /// Reads the header of a commit file, the magic of which has been read
    /// already, and returns its format version.
    pub fn check_header(index_input: &mut IndexInput) -> (res: Result<u32, SegmentReadError>)
        requires
            old(index_input).wf(),
        ensures
            final(index_input).wf(),
            final(index_input).data() == old(index_input).data(),
            (res, final(index_input).remaining()) == lifted(
                parse_header_no_magic(
                    old(index_input).remaining(),
                    Codec::SEGMENTS_CODEC@,
                    Self::MIN_VERSION,
                    Self::CURRENT_VERSION,
                ),
            ),
    {
        index_input.check_header_no_magic(
            Codec::SEGMENTS_CODEC,
            Self::MIN_VERSION,
            Self::CURRENT_VERSION,
        )
    }

    /// Reads the suffix in the header of a commit file and checks that it is
    /// `expected`.
    pub fn check_header_suffix(index_input: &mut IndexInput, expected: &str) -> (res: Result<
        (),
        SegmentReadError,
    >)
        requires
            old(index_input).wf(),
        ensures
            final(index_input).wf(),
            final(index_input).data() == old(index_input).data(),
            (res, final(index_input).remaining()) == parse_suffix(
                old(index_input).remaining(),
                expected@,
            ),
    {
        let suffix_len = index_input.read_byte()?;
        let suffix = index_input.read_bytes(suffix_len as usize)?;
        if !same_bytes(suffix.as_slice(), expected.as_bytes()) {
            return Err(SegmentReadError::SuffixMismatch);
        }
        Ok(())
    }
}

} // verus!
