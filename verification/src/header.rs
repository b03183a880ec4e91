//! The codec header that opens every index file: a magic number, the name of
//! the codec that wrote the file, and the codec's format version.

use crate::buffer::unread;
use crate::checksum::crc32;
use crate::directory_reader::IndexInput;
use crate::error::lifted;
use crate::error::SegmentReadError;
use crate::util;
use crate::util::is_suffix;
use crate::checksum::lemma_checksum_detects_byte;
use crate::util::encode_be;
use crate::util::encode_vstring;
use crate::util::lemma_int_round_trip;
use crate::util::lemma_parse_advances;
use crate::util::lemma_vstring_round_trip;
use crate::util::text_fits;
use crate::util::lemma_suffix_of_suffix;
use crate::util::parse_int;
use crate::util::parse_vstring;
use bytes::Bytes;
use vstd::prelude::*;

verus! {

/// Why a header, or a primitive value read from a buffer, was refused.
#[derive(Clone, Copy, Debug, PartialEq, Eq, Structural)]
pub enum HeaderError {
    /// The buffer ended before the value did.
    UnexpectedEof,
    /// A string's bytes are not valid UTF-8.
    InvalidUtf8,
    /// A variable-length integer does not fit its width.
    VarIntTooLong,
    /// The file does not start with the codec magic.
    MagicMismatch,
    /// The file was written by another codec than the expected one.
    CodecMismatch,
    /// The format version is below the accepted range.
    VersionTooOld,
    /// The format version is above the accepted range.
    VersionTooNew,
}

/// The number that every index file starts with.
pub const CODEC_MAGIC: u32 = 0x3fd7_6c17;

/// The number that the footer of every index file starts with: the codec magic
/// with every bit inverted.
pub const FOOTER_MAGIC: u32 = 0xc028_93e8;

/// The oldest format version of a commit file that is read.
pub const MIN_VERSION: u32 = 9;

/// The newest format version of a commit file that is read.
pub const CURRENT_VERSION: u32 = 10;

/// The magic: a 32-bit integer that has to be `CODEC_MAGIC`.
pub open spec fn parse_magic(s: Seq<u8>) -> (Result<u32, HeaderError>, Seq<u8>) {
    match parse_int(s) {
        (Ok(magic), rest) => if magic == CODEC_MAGIC {
            (Ok(magic), rest)
        } else {
            (Err(HeaderError::MagicMismatch), rest)
        },
        (Err(e), rest) => (Err(e), rest),
    }
}

/// The header after the magic: the codec's name, which has to be `codec`, and
/// the format version, which has to lie in `min_version..=max_version`. The
/// value is the version.
pub open spec fn parse_header_no_magic(
    s: Seq<u8>,
    codec: Seq<char>,
    min_version: u32,
    max_version: u32,
) -> (Result<u32, HeaderError>, Seq<u8>) {
    match parse_vstring(s) {
        (Ok(name), rest) => if name != codec {
            (Err(HeaderError::CodecMismatch), rest)
        } else {
            match parse_int(rest) {
                (Ok(version), rest) => if version < min_version {
                    (Err(HeaderError::VersionTooOld), rest)
                } else if version > max_version {
                    (Err(HeaderError::VersionTooNew), rest)
                } else {
                    (Ok(version), rest)
                },
                (Err(e), rest) => (Err(e), rest),
            }
        },
        (Err(e), rest) => (Err(e), rest),
    }
}

/// The whole header: magic, codec name and version. The value is the version.
pub open spec fn parse_header(s: Seq<u8>, codec: Seq<char>, min_version: u32, max_version: u32) -> (
    Result<u32, HeaderError>,
    Seq<u8>,
) {
    match parse_magic(s) {
        (Ok(_), rest) => parse_header_no_magic(rest, codec, min_version, max_version),
        (Err(e), rest) => (Err(e), rest),
    }
}

/// Reads the magic and checks it.
pub fn check_magic(bytes: &mut Bytes) -> (res: Result<u32, HeaderError>)
    ensures
        (res, unread(*final(bytes))) == parse_magic(unread(*old(bytes))),
        is_suffix(unread(*final(bytes)), unread(*old(bytes))),
{
    let magic = util::read_int(bytes)?;
    if magic == CODEC_MAGIC {
        Ok(magic)
    } else {
        Err(HeaderError::MagicMismatch)
    }
}

/// Reads a header from its magic on, checks that it names `codec` and returns
/// its format version if that lies in `min_version..=max_version`.
pub fn check_header(bytes: &mut Bytes, codec: &str, min_version: u32, max_version: u32) -> (res:
    Result<u32, HeaderError>)
    ensures
        (res, unread(*final(bytes))) == parse_header(
            unread(*old(bytes)),
            codec@,
            min_version,
            max_version,
        ),
        is_suffix(unread(*final(bytes)), unread(*old(bytes))),
{
    check_magic(bytes)?;
    let ghost middle = unread(*bytes);
    let res = check_header_no_magic(bytes, codec, min_version, max_version);
    proof {
        lemma_suffix_of_suffix(unread(*bytes), middle, unread(*old(bytes)));
    }
    res
}

/// Reads a header whose magic has been read already, checks that it names
/// `codec` and returns its format version if that lies in
/// `min_version..=max_version`.
pub fn check_header_no_magic(
    bytes: &mut Bytes,
    codec: &str,
    min_version: u32,
    max_version: u32,
) -> (res: Result<u32, HeaderError>)
    ensures
        (res, unread(*final(bytes))) == parse_header_no_magic(
            unread(*old(bytes)),
            codec@,
            min_version,
            max_version,
        ),
        is_suffix(unread(*final(bytes)), unread(*old(bytes))),
{
    let name = util::read_variable_string(bytes)?;
    if !util::same_text(name.as_str(), codec) {
        return Err(HeaderError::CodecMismatch);
    }
    let ghost middle = unread(*bytes);
    let r = util::read_int(bytes);
    proof {
        lemma_suffix_of_suffix(unread(*bytes), middle, unread(*old(bytes)));
    }
    let version = r?;
    if version < min_version {
        Err(HeaderError::VersionTooOld)
    } else if version > max_version {
        Err(HeaderError::VersionTooNew)
    } else {
        Ok(version)
    }
}

/// The footer that has to follow a file's content, where `rest` is what is
/// left of the file `data` after the content: `FOOTER_MAGIC`, then the CRC-32
/// checksum of everything before the footer, then nothing more.
pub open spec fn parse_footer(data: Seq<u8>, rest: Seq<u8>) -> (
    Result<(), SegmentReadError>,
    Seq<u8>,
) {
    let magic = lifted(parse_int(rest));
    let stored = lifted(parse_int(magic.1));
    if magic.0 is Err {
        (Err(magic.0->Err_0), magic.1)
    } else if magic.0->Ok_0 != FOOTER_MAGIC {
        (Err(SegmentReadError::ChecksumMismatch), magic.1)
    } else if stored.0 is Err {
        (Err(stored.0->Err_0), stored.1)
    } else if stored.0->Ok_0 != crc32(data.take(data.len() - rest.len())) {
        (Err(SegmentReadError::ChecksumMismatch), stored.1)
    } else if stored.1.len() != 0 {
        (Err(SegmentReadError::ChecksumMismatch), stored.1)
    } else {
        (Ok(()), stored.1)
    }
}

/// What is left after a header, or a part of one, is a suffix of what was
/// there before it.
pub proof fn lemma_parse_header_advances(
    s: Seq<u8>,
    codec: Seq<char>,
    min_version: u32,
    max_version: u32,
)
    ensures
        is_suffix(parse_magic(s).1, s),
        is_suffix(parse_header_no_magic(s, codec, min_version, max_version).1, s),
        is_suffix(parse_header(s, codec, min_version, max_version).1, s),
{
    lemma_parse_advances(s, 0);
    let name = parse_vstring(s);
    lemma_parse_advances(name.1, 0);
    lemma_suffix_of_suffix(parse_int(name.1).1, name.1, s);
    let magic = parse_magic(s);
    lemma_parse_advances(magic.1, 0);
    let inner = parse_vstring(magic.1);
    lemma_parse_advances(inner.1, 0);
    lemma_suffix_of_suffix(parse_int(inner.1).1, inner.1, magic.1);
    lemma_suffix_of_suffix(
        parse_header_no_magic(magic.1, codec, min_version, max_version).1,
        magic.1,
        s,
    );
}

/// The bytes of a header after its magic.
pub open spec fn encode_header_no_magic(codec: Seq<char>, version: u32) -> Seq<u8> {
    encode_vstring(codec) + encode_be(version as nat, 4)
}

/// The bytes of a header.
pub open spec fn encode_header(codec: Seq<char>, version: u32) -> Seq<u8> {
    encode_be(CODEC_MAGIC as nat, 4) + encode_header_no_magic(codec, version)
}

/// The bytes of the footer of a file with the content `content`.
pub open spec fn encode_footer(content: Seq<u8>) -> Seq<u8> {
    encode_be(FOOTER_MAGIC as nat, 4) + encode_be(crc32(content) as nat, 4)
}

/// A header that is written and then read is accepted, with its version, and
/// what follows it is left unread, provided it names the codec that is
/// expected and its version is in the range that is accepted.
pub proof fn lemma_header_round_trip(
    codec: Seq<char>,
    version: u32,
    min_version: u32,
    max_version: u32,
    tail: Seq<u8>,
)
    requires
        text_fits(codec),
        min_version <= version <= max_version,
    ensures
        parse_magic(encode_header(codec, version) + tail) == (
            Ok::<u32, HeaderError>(CODEC_MAGIC),
            encode_header_no_magic(codec, version) + tail,
        ),
        parse_header_no_magic(
            encode_header_no_magic(codec, version) + tail,
            codec,
            min_version,
            max_version,
        ) == (Ok::<u32, HeaderError>(version), tail),
        parse_header(encode_header(codec, version) + tail, codec, min_version, max_version) == (
            Ok::<u32, HeaderError>(version),
            tail,
        ),
{
    let inner = encode_header_no_magic(codec, version);
    assert(encode_header(codec, version) + tail =~= encode_be(CODEC_MAGIC as nat, 4) + (inner
        + tail));
    lemma_int_round_trip(CODEC_MAGIC, inner + tail);
    assert(inner + tail =~= encode_vstring(codec) + (encode_be(version as nat, 4) + tail));
    lemma_vstring_round_trip(codec, encode_be(version as nat, 4) + tail);
    lemma_int_round_trip(version, tail);
}

/// The footer that is written after a content is accepted after that content,
/// and ends the file.
pub proof fn lemma_footer_round_trip(content: Seq<u8>)
    ensures
        parse_footer(content + encode_footer(content), encode_footer(content)) == (
            Ok::<(), SegmentReadError>(()),
            Seq::<u8>::empty(),
        ),
{
    let footer = encode_footer(content);
    let data = content + footer;
    let sum = encode_be(crc32(content) as nat, 4);
    lemma_int_round_trip(FOOTER_MAGIC, sum);
    lemma_int_round_trip(crc32(content), Seq::empty());
    assert(data.take(data.len() - footer.len()) =~= content);
}

/// The footer tells every change of a single byte before it: where a file
/// with an accepted footer is changed in one byte of its content, no footer is
/// accepted at the end of what was changed, wherever the content is taken to
/// end.
pub proof fn lemma_footer_detects_byte(
    data: Seq<u8>,
    rest: Seq<u8>,
    i: int,
    b: u8,
    changed_rest: Seq<u8>,
)
    requires
        is_suffix(rest, data),
        parse_footer(data, rest).0 is Ok,
        0 <= i < data.len() - 8,
        b != data[i],
        is_suffix(changed_rest, data.update(i, b)),
    ensures
        parse_footer(data.update(i, b), changed_rest).0 is Err,
{
    let changed = data.update(i, b);
    if parse_footer(changed, changed_rest).0 is Ok {
        let content = data.len() - 8;
        assert(changed_rest =~= rest);
        assert(changed.take(content) =~= data.take(content).update(i, b));
        lemma_checksum_detects_byte(data.take(content), i, b);
    }
}

/// Reads the footer and checks it against the bytes read before it. To be
/// called when the whole content has been read.
pub fn check_footer(input: &mut IndexInput) -> (res: Result<(), SegmentReadError>)
    requires
        old(input).wf(),
    ensures
        final(input).wf(),
        final(input).data() == old(input).data(),
        (res, final(input).remaining()) == parse_footer(old(input).data(), old(input).remaining()),
{
    let expected = input.checksum_so_far();
    let magic = input.read_magic()?;
    if magic != FOOTER_MAGIC {
        return Err(SegmentReadError::ChecksumMismatch);
    }
    let stored = input.read_int()?;
    if stored != expected {
        return Err(SegmentReadError::ChecksumMismatch);
    }
    if !input.at_end() {
        return Err(SegmentReadError::ChecksumMismatch);
    }
    Ok(())
}

} // verus!
