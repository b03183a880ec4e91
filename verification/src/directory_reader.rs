//! The cursor that the decoders read an index file through.

use crate::buffer;
use crate::buffer::unread;
use crate::checksum::checksum;
use crate::checksum::crc32;
use crate::error::lift;
use crate::error::lifted;
use crate::error::SegmentReadError;
use crate::header;
use crate::header::parse_header_no_magic;
use crate::header::parse_magic;
use crate::util;
use crate::util::parse_byte;
use crate::util::parse_bytes;
use crate::util::parse_int;
use crate::util::parse_long;
use crate::util::parse_string;
use crate::util::parse_vint;
use crate::util::parse_vlong;
use crate::util::parse_vstring;
use crate::util::is_suffix;
use crate::util::lemma_skip_is_suffix;
use crate::util::lemma_suffix_of_suffix;
use crate::util::viewed;
use bytes::Bytes;
use vstd::prelude::*;
use vstd::slice::slice_subrange;

verus! {

/// The length in bytes of the id of a commit or of a segment.
pub const ID_LENGTH: usize = 16;

/// A forward-only reader over the bytes of one index file.
///
/// The file's bytes stay as they are; every read hands out a value from the
/// front of what has not been read yet and moves past it.
#[derive(Debug)]
pub struct IndexInput {
    whole: Bytes,
    rest: Bytes,
}

impl IndexInput {
    /// All the bytes of the file.
    pub closed spec fn data(&self) -> Seq<u8> {
        unread(self.whole)
    }

    /// The bytes that have not been read yet.
    pub closed spec fn remaining(&self) -> Seq<u8> {
        unread(self.rest)
    }

    /// The number of bytes read so far.
    pub open spec fn position(&self) -> int {
        self.data().len() - self.remaining().len()
    }

    /// The bytes read so far.
    pub open spec fn consumed(&self) -> Seq<u8> {
        self.data().take(self.position())
    }

    /// What remains is the file from the position on. Every cursor that `new`
    /// made is so, and every read keeps it so.
    pub open spec fn wf(&self) -> bool {
        is_suffix(self.remaining(), self.data())
    }

    /// A cursor at the start of `bytes`.
    pub fn new(bytes: Vec<u8>) -> (input: IndexInput)
        ensures
            input.wf(),
            input.data() == bytes@,
            input.remaining() == bytes@,
    {
        let whole = buffer::from_vec(bytes);
        let rest = buffer::duplicate(&whole);
        proof {
            lemma_skip_is_suffix(unread(whole), 0);
        }
        IndexInput { whole, rest }
    }

    /// The number of bytes read so far.
    pub fn offset(&self) -> (p: usize)
        requires
            self.wf(),
        ensures
            p == self.position(),
    {
        buffer::remaining(&self.whole) - buffer::remaining(&self.rest)
    }

    /// Reads one byte.
    pub fn read_byte(&mut self) -> (res: Result<u8, SegmentReadError>)
        requires
            old(self).wf(),
        ensures
            final(self).wf(),
            final(self).data() == old(self).data(),
            (res, final(self).remaining()) == lifted(parse_byte(old(self).remaining())),
    {
        let r = util::read_byte(&mut self.rest);
        proof {
            lemma_suffix_of_suffix(self.remaining(), old(self).remaining(), self.data());
        }
        lift(r)
    }

    /// Reads a big-endian 32-bit unsigned integer.
    pub fn read_int(&mut self) -> (res: Result<u32, SegmentReadError>)
        requires
            old(self).wf(),
        ensures
            final(self).wf(),
            final(self).data() == old(self).data(),
            (res, final(self).remaining()) == lifted(parse_int(old(self).remaining())),
    {
        let r = util::read_int(&mut self.rest);
        proof {
            lemma_suffix_of_suffix(self.remaining(), old(self).remaining(), self.data());
        }
        lift(r)
    }

    /// Reads a big-endian 64-bit unsigned integer.
    pub fn read_long(&mut self) -> (res: Result<u64, SegmentReadError>)
        requires
            old(self).wf(),
        ensures
            final(self).wf(),
            final(self).data() == old(self).data(),
            (res, final(self).remaining()) == lifted(parse_long(old(self).remaining())),
    {
        let r = util::read_long(&mut self.rest);
        proof {
            lemma_suffix_of_suffix(self.remaining(), old(self).remaining(), self.data());
        }
        lift(r)
    }

    /// Reads the 32-bit integer that a file, or its footer, starts with. Whether it
    /// is the right one is for the caller to say.
    pub fn read_magic(&mut self) -> (res: Result<u32, SegmentReadError>)
        requires
            old(self).wf(),
        ensures
            final(self).wf(),
            final(self).data() == old(self).data(),
            (res, final(self).remaining()) == lifted(parse_int(old(self).remaining())),
    {
        let r = util::read_int(&mut self.rest);
        proof {
            lemma_suffix_of_suffix(self.remaining(), old(self).remaining(), self.data());
        }
        lift(r)
    }

    /// Reads the 32-bit format version of a header. Whether it is an accepted one
    /// is for the caller to say.
    pub fn read_version(&mut self) -> (res: Result<u32, SegmentReadError>)
        requires
            old(self).wf(),
        ensures
            final(self).wf(),
            final(self).data() == old(self).data(),
            (res, final(self).remaining()) == lifted(parse_int(old(self).remaining())),
    {
        let r = util::read_int(&mut self.rest);
        proof {
            lemma_suffix_of_suffix(self.remaining(), old(self).remaining(), self.data());
        }
        lift(r)
    }

    /// Reads exactly `length` bytes.
    pub fn read_bytes(&mut self, length: usize) -> (res: Result<Vec<u8>, SegmentReadError>)
        requires
            old(self).wf(),
        ensures
            final(self).wf(),
            final(self).data() == old(self).data(),
            (viewed(res), final(self).remaining()) == lifted(parse_bytes(old(self).remaining(), length as nat)),
    {
        let r = util::read_bytes(&mut self.rest, length);
        proof {
            lemma_suffix_of_suffix(self.remaining(), old(self).remaining(), self.data());
        }
        lift(r)
    }

    /// Reads the 16 bytes of an id.
    pub fn read_id(&mut self) -> (res: Result<Vec<u8>, SegmentReadError>)
        requires
            old(self).wf(),
        ensures
            final(self).wf(),
            final(self).data() == old(self).data(),
            (viewed(res), final(self).remaining()) == lifted(parse_bytes(old(self).remaining(), ID_LENGTH as nat)),
    {
        let r = util::read_bytes(&mut self.rest, ID_LENGTH);
        proof {
            lemma_suffix_of_suffix(self.remaining(), old(self).remaining(), self.data());
        }
        lift(r)
    }

    /// Reads a string of exactly `length` bytes of UTF-8.
    pub fn read_string(&mut self, length: usize) -> (res: Result<String, SegmentReadError>)
        requires
            old(self).wf(),
        ensures
            final(self).wf(),
            final(self).data() == old(self).data(),
            (viewed(res), final(self).remaining()) == lifted(parse_string(old(self).remaining(), length as nat)),
    {
        let r = util::read_string(&mut self.rest, length);
        proof {
            lemma_suffix_of_suffix(self.remaining(), old(self).remaining(), self.data());
        }
        lift(r)
    }

    /// Reads a variable-length 32-bit unsigned integer.
    pub fn read_variable_int(&mut self) -> (res: Result<u32, SegmentReadError>)
        requires
            old(self).wf(),
        ensures
            final(self).wf(),
            final(self).data() == old(self).data(),
            (res, final(self).remaining()) == lifted(parse_vint(old(self).remaining())),
    {
        let r = util::read_variable_int(&mut self.rest);
        proof {
            lemma_suffix_of_suffix(self.remaining(), old(self).remaining(), self.data());
        }
        lift(r)
    }

    /// Reads a variable-length 64-bit unsigned integer, which is below 2^63.
    pub fn read_variable_long(&mut self) -> (res: Result<u64, SegmentReadError>)
        requires
            old(self).wf(),
        ensures
            final(self).wf(),
            final(self).data() == old(self).data(),
            (res, final(self).remaining()) == lifted(parse_vlong(old(self).remaining())),
    {
        let r = util::read_variable_long(&mut self.rest);
        proof {
            lemma_suffix_of_suffix(self.remaining(), old(self).remaining(), self.data());
        }
        lift(r)
    }

    /// Reads a string preceded by its length in bytes as a variable-length
    /// integer.
    pub fn read_variable_string(&mut self) -> (res: Result<String, SegmentReadError>)
        requires
            old(self).wf(),
        ensures
            final(self).wf(),
            final(self).data() == old(self).data(),
            (viewed(res), final(self).remaining()) == lifted(parse_vstring(old(self).remaining())),
    {
        let r = util::read_variable_string(&mut self.rest);
        proof {
            lemma_suffix_of_suffix(self.remaining(), old(self).remaining(), self.data());
        }
        lift(r)
    }

    /// Reads the magic that a file starts with and checks it.
    pub fn check_magic(&mut self) -> (res: Result<u32, SegmentReadError>)
        requires
            old(self).wf(),
        ensures
            final(self).wf(),
            final(self).data() == old(self).data(),
            (res, final(self).remaining()) == lifted(parse_magic(old(self).remaining())),
    {
        let r = header::check_magic(&mut self.rest);
        proof {
            lemma_suffix_of_suffix(self.remaining(), old(self).remaining(), self.data());
        }
        lift(r)
    }

    /// Reads a header whose magic has been read already, checks that it names
    /// `codec` and returns its format version if that lies in
    /// `min_version..=max_version`.
    pub fn check_header_no_magic(&mut self, codec: &str, min_version: u32, max_version: u32) -> (res:
        Result<u32, SegmentReadError>)
        requires
            old(self).wf(),
        ensures
            final(self).wf(),
            final(self).data() == old(self).data(),
            (res, final(self).remaining()) == lifted(
                parse_header_no_magic(old(self).remaining(), codec@, min_version, max_version),
            ),
    {
        let r = header::check_header_no_magic(&mut self.rest, codec, min_version, max_version);
        proof {
            lemma_suffix_of_suffix(self.remaining(), old(self).remaining(), self.data());
        }
        lift(r)
    }

    /// The CRC-32 checksum of the bytes read so far.
    pub fn checksum_so_far(&self) -> (c: u32)
        requires
            self.wf(),
        ensures
            c == crc32(self.consumed()),
    {
        let all = buffer::as_slice(&self.whole);
        let position = all.len() - buffer::remaining(&self.rest);
        checksum(slice_subrange(all, 0, position))
    }

    /// Tells whether every byte has been read.
    pub fn at_end(&self) -> (b: bool)
        ensures
            b == (self.remaining().len() == 0),
    {
        buffer::remaining(&self.rest) == 0
    }
}

} // verus!
