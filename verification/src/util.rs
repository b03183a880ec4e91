//! Primitive values as the index format writes them, and the functions that
//! read them from the front of a buffer.
//!
//! Each `parse_*` function is the format's definition of a value: from the
//! bytes at hand it gives the value (or the reason there is none) together with
//! the bytes that follow it. Each `read_*` function does on a buffer what the
//! `parse_*` function of the same name says.

use crate::buffer;
use crate::buffer::be_value;
use crate::buffer::unread;
use crate::header::HeaderError;
use bytes::Bytes;
use vstd::prelude::*;
use vstd::string::StringSliceAdditionalSpecFns;
use vstd::utf8::decode_utf8;
use vstd::utf8::encode_utf8;
use vstd::utf8::encode_utf8_decode_utf8;
use vstd::utf8::encode_utf8_valid_utf8;
use vstd::utf8::valid_utf8;

verus! {

/// A single byte.
pub open spec fn parse_byte(s: Seq<u8>) -> (Result<u8, HeaderError>, Seq<u8>) {
    if s.len() < 1 {
        (Err(HeaderError::UnexpectedEof), s)
    } else {
        (Ok(s[0]), s.skip(1))
    }
}

/// A 32-bit unsigned integer, big-endian.
pub open spec fn parse_int(s: Seq<u8>) -> (Result<u32, HeaderError>, Seq<u8>) {
    if s.len() < 4 {
        (Err(HeaderError::UnexpectedEof), s)
    } else {
        (Ok(be_value(s.take(4)) as u32), s.skip(4))
    }
}

/// A 64-bit unsigned integer, big-endian.
pub open spec fn parse_long(s: Seq<u8>) -> (Result<u64, HeaderError>, Seq<u8>) {
    if s.len() < 8 {
        (Err(HeaderError::UnexpectedEof), s)
    } else {
        (Ok(be_value(s.take(8)) as u64), s.skip(8))
    }
}

/// A run of exactly `length` bytes. Nothing is consumed when fewer remain.
pub open spec fn parse_bytes(s: Seq<u8>, length: nat) -> (Result<Seq<u8>, HeaderError>, Seq<u8>) {
    if s.len() < length {
        (Err(HeaderError::UnexpectedEof), s)
    } else {
        (Ok(s.take(length as int)), s.skip(length as int))
    }
}

/// A string of exactly `length` bytes of UTF-8.
pub open spec fn parse_string(s: Seq<u8>, length: nat) -> (Result<Seq<char>, HeaderError>, Seq<u8>) {
    if s.len() < length {
        (Err(HeaderError::UnexpectedEof), s)
    } else if !valid_utf8(s.take(length as int)) {
        (Err(HeaderError::InvalidUtf8), s.skip(length as int))
    } else {
        (Ok(decode_utf8(s.take(length as int))), s.skip(length as int))
    }
}

/// A variable-length unsigned integer of at most `limit` bytes, of which `k`
/// have been read already.
///
/// Every byte carries seven bits of the value in its low bits, the least
/// significant group first; its high bit says that another byte follows. The
/// last byte that the width allows may not exceed `last_max`, which also rules
/// out a continuation from it.
pub open spec fn parse_varint(s: Seq<u8>, k: nat, limit: nat, last_max: nat) -> (
    Result<nat, HeaderError>,
    Seq<u8>,
)
    decreases limit - k,
{
    if k >= limit {
        (Err(HeaderError::VarIntTooLong), s)
    } else if s.len() == 0 {
        (Err(HeaderError::UnexpectedEof), s)
    } else if k + 1 == limit {
        if s[0] > last_max {
            (Err(HeaderError::VarIntTooLong), s.skip(1))
        } else {
            (Ok(s[0] as nat), s.skip(1))
        }
    } else if s[0] < 128 {
        (Ok(s[0] as nat), s.skip(1))
    } else {
        let (r, rest) = parse_varint(s.skip(1), k + 1, limit, last_max);
        match r {
            Ok(v) => (Ok((s[0] - 128) as nat + 128 * v), rest),
            Err(e) => (Err(e), rest),
        }
    }
}

/// The most bytes that a variable-length 32-bit integer takes.
pub const VINT_MAX_BYTES: u32 = 5;

/// The largest fifth byte of a variable-length 32-bit integer: only its low
/// four bits fit the width.
pub const VINT_LAST_MAX: u8 = 0x0f;

/// The most bytes that a variable-length 64-bit integer takes.
pub const VLONG_MAX_BYTES: u32 = 9;

/// The largest ninth byte of a variable-length 64-bit integer: it may not ask
/// for a tenth, so the value stays below 2^63.
pub const VLONG_LAST_MAX: u8 = 0x7f;

/// A variable-length 32-bit unsigned integer.
pub open spec fn parse_vint(s: Seq<u8>) -> (Result<u32, HeaderError>, Seq<u8>) {
    let (r, rest) = parse_varint(s, 0, VINT_MAX_BYTES as nat, VINT_LAST_MAX as nat);
    match r {
        Ok(v) => (Ok(v as u32), rest),
        Err(e) => (Err(e), rest),
    }
}

/// A variable-length 64-bit unsigned integer.
pub open spec fn parse_vlong(s: Seq<u8>) -> (Result<u64, HeaderError>, Seq<u8>) {
    let (r, rest) = parse_varint(s, 0, VLONG_MAX_BYTES as nat, VLONG_LAST_MAX as nat);
    match r {
        Ok(v) => (Ok(v as u64), rest),
        Err(e) => (Err(e), rest),
    }
}

/// A string preceded by its length in bytes as a variable-length integer.
pub open spec fn parse_vstring(s: Seq<u8>) -> (Result<Seq<char>, HeaderError>, Seq<u8>) {
    let (r, rest) = parse_vint(s);
    match r {
        Ok(length) => parse_string(rest, length as nat),
        Err(e) => (Err(e), rest),
    }
}

/// `a` is what is left of `b` after some bytes at its front.
pub open spec fn is_suffix(a: Seq<u8>, b: Seq<u8>) -> bool {
    a.len() <= b.len() && a == b.skip(b.len() - a.len())
}

/// A sequence is a suffix of itself, and so is what is left of it after
/// skipping bytes.
pub proof fn lemma_skip_is_suffix(s: Seq<u8>, n: int)
    ensures
        is_suffix(s, s),
        0 <= n <= s.len() ==> is_suffix(s.skip(n), s),
{
    assert(s =~= s.skip(0));
}

/// A suffix of a suffix is a suffix.
pub proof fn lemma_suffix_of_suffix(a: Seq<u8>, b: Seq<u8>, c: Seq<u8>)
    requires
        is_suffix(a, b),
        is_suffix(b, c),
    ensures
        is_suffix(a, c),
{
    assert(a =~= c.skip(c.len() - a.len()));
}

/// Runs of bytes that are put together give the same whichever two are put
/// together first.
pub proof fn lemma_concat_assoc(a: Seq<u8>, b: Seq<u8>, c: Seq<u8>)
    ensures
        (a + b) + c == a + (b + c),
{
}

/// No parse goes back: what is left after a value is a suffix of what was
/// there before it.
pub proof fn lemma_parse_advances(s: Seq<u8>, length: nat)
    ensures
        is_suffix(parse_byte(s).1, s),
        is_suffix(parse_int(s).1, s),
        is_suffix(parse_long(s).1, s),
        is_suffix(parse_bytes(s, length).1, s),
        is_suffix(parse_string(s, length).1, s),
        is_suffix(parse_vint(s).1, s),
        is_suffix(parse_vlong(s).1, s),
        is_suffix(parse_vstring(s).1, s),
{
    lemma_skip_is_suffix(s, 1);
    lemma_skip_is_suffix(s, 4);
    lemma_skip_is_suffix(s, 8);
    lemma_skip_is_suffix(s, length as int);
    lemma_parse_varint_advances(s, 0, VINT_MAX_BYTES as nat, VINT_LAST_MAX as nat);
    lemma_parse_varint_advances(s, 0, VLONG_MAX_BYTES as nat, VLONG_LAST_MAX as nat);
    let after_length = parse_vint(s);
    if let Ok(n) = after_length.0 {
        lemma_skip_is_suffix(after_length.1, n as int);
        lemma_suffix_of_suffix(parse_string(after_length.1, n as nat).1, after_length.1, s);
    }
}

/// What is left after a variable-length integer is a suffix of what was
/// there before it.
pub proof fn lemma_parse_varint_advances(s: Seq<u8>, k: nat, limit: nat, last_max: nat)
    ensures
        is_suffix(parse_varint(s, k, limit, last_max).1, s),
    decreases limit - k,
{
    lemma_skip_is_suffix(s, 1);
    if k < limit && s.len() > 0 && k + 1 != limit && s[0] >= 128 {
        lemma_parse_varint_advances(s.skip(1), k + 1, limit, last_max);
        lemma_suffix_of_suffix(parse_varint(s.skip(1), k + 1, limit, last_max).1, s.skip(1), s);
    }
}

/// 128 to the power `k`: the weight of the `k`-th group of seven bits.
pub open spec fn pow128(k: nat) -> nat
    decreases k,
{
    if k == 0 {
        1
    } else {
        128 * pow128((k - 1) as nat)
    }
}

/// A result with its value replaced by the value's view.
pub open spec fn viewed<T: View, E>(r: Result<T, E>) -> Result<T::V, E> {
    match r {
        Ok(v) => Ok(v@),
        Err(e) => Err(e),
    }
}

/// The bytes of `v` as a variable-length integer: seven bits to a byte, the
/// least significant first, the high bit set on every byte but the last.
pub open spec fn encode_varint(v: nat) -> Seq<u8>
    decreases v,
{
    if v < 128 {
        seq![v as u8]
    } else {
        seq![(v % 128 + 128) as u8] + encode_varint(v / 128)
    }
}

/// Reading what `encode_varint` wrote gives the value back and leaves what
/// followed it, provided the value fits the width that is read.
pub proof fn lemma_varint_round_trip(v: nat, tail: Seq<u8>, k: nat, limit: nat, last_max: nat)
    requires
        k < limit,
        last_max < 128,
        v < pow128((limit - 1 - k) as nat) * (last_max + 1),
    ensures
        parse_varint(encode_varint(v) + tail, k, limit, last_max) == (
            Ok::<nat, HeaderError>(v),
            tail,
        ),
    decreases limit - k,
{
    let s = encode_varint(v) + tail;
    if k + 1 == limit {
        let unit = pow128((limit - 1 - k) as nat);
        assert(v < last_max + 1) by (nonlinear_arith)
            requires
                unit == 1,
                v < unit * (last_max + 1),
        ;
    } else if v >= 128 {
        let unit = pow128((limit - 2 - k) as nat);
        assert(v / 128 < unit * (last_max + 1)) by (nonlinear_arith)
            requires
                v < (128 * unit) * (last_max + 1),
        ;
        lemma_varint_round_trip(v / 128, tail, k + 1, limit, last_max);
        assert(s.skip(1) =~= encode_varint(v / 128) + tail);
    }
}

/// Law of the variable-length integer: every 32-bit value that is encoded
/// and then read comes back as it was, and what follows it is left unread.
pub proof fn lemma_vint_round_trip(v: u32, tail: Seq<u8>)
    ensures
        parse_vint(encode_varint(v as nat) + tail) == (Ok::<u32, HeaderError>(v), tail),
{
    lemma_pow128_values();
    assert(pow128((VINT_MAX_BYTES as nat - 1 - 0) as nat) == pow128(4));
    lemma_varint_round_trip(v as nat, tail, 0, VINT_MAX_BYTES as nat, VINT_LAST_MAX as nat);
}

/// Law of the variable-length long: every value below 2^63 that is encoded
/// and then read comes back as it was, and what follows it is left unread.
pub proof fn lemma_vlong_round_trip(v: u64, tail: Seq<u8>)
    requires
        v < 0x8000_0000_0000_0000,
    ensures
        parse_vlong(encode_varint(v as nat) + tail) == (Ok::<u64, HeaderError>(v), tail),
{
    lemma_pow128_values();
    assert(pow128((VLONG_MAX_BYTES as nat - 1 - 0) as nat) == pow128(8));
    lemma_varint_round_trip(v as nat, tail, 0, VLONG_MAX_BYTES as nat, VLONG_LAST_MAX as nat);
}

/// 256 to the power `k`: the number of values that `k` bytes can take.
pub open spec fn pow256(k: nat) -> nat
    decreases k,
{
    if k == 0 {
        1
    } else {
        256 * pow256((k - 1) as nat)
    }
}

/// The `width` bytes of `v` in big-endian order.
pub open spec fn encode_be(v: nat, width: nat) -> Seq<u8>
    decreases width,
{
    if width == 0 {
        Seq::empty()
    } else {
        encode_be(v / 256, (width - 1) as nat).push((v % 256) as u8)
    }
}

/// The big-endian bytes of a value that fits the width denote the value.
pub proof fn lemma_be_value_of_encode_be(v: nat, width: nat)
    requires
        v < pow256(width),
    ensures
        encode_be(v, width).len() == width,
        be_value(encode_be(v, width)) == v,
    decreases width,
{
    if width > 0 {
        lemma_be_value_of_encode_be(v / 256, (width - 1) as nat);
        assert(encode_be(v, width).drop_last() =~= encode_be(v / 256, (width - 1) as nat));
    }
}

/// A 32-bit integer that is written big-endian and then read comes back as it
/// was, and what follows it is left unread.
pub proof fn lemma_int_round_trip(v: u32, tail: Seq<u8>)
    ensures
        encode_be(v as nat, 4).len() == 4,
        parse_int(encode_be(v as nat, 4) + tail) == (Ok::<u32, HeaderError>(v), tail),
{
    reveal_with_fuel(pow256, 5);
    lemma_be_value_of_encode_be(v as nat, 4);
    let s = encode_be(v as nat, 4) + tail;
    assert(s.take(4) =~= encode_be(v as nat, 4));
}

/// A 64-bit integer that is written big-endian and then read comes back as it
/// was, and what follows it is left unread.
pub proof fn lemma_long_round_trip(v: u64, tail: Seq<u8>)
    ensures
        encode_be(v as nat, 8).len() == 8,
        parse_long(encode_be(v as nat, 8) + tail) == (Ok::<u64, HeaderError>(v), tail),
{
    reveal_with_fuel(pow256, 9);
    lemma_be_value_of_encode_be(v as nat, 8);
    let s = encode_be(v as nat, 8) + tail;
    assert(s.take(8) =~= encode_be(v as nat, 8));
}

/// A run of bytes that is written and then read at its length comes back as
/// it was, and what follows it is left unread.
pub proof fn lemma_bytes_round_trip(bytes: Seq<u8>, tail: Seq<u8>)
    ensures
        parse_bytes(bytes + tail, bytes.len()) == (Ok::<Seq<u8>, HeaderError>(bytes), tail),
{
    let s = bytes + tail;
    assert(s.take(bytes.len() as int) =~= bytes);
}

/// The text can be written as a string with its length before it: its UTF-8
/// bytes are few enough for a 32-bit length.
pub open spec fn text_fits(text: Seq<char>) -> bool {
    encode_utf8(text).len() <= u32::MAX
}

/// The bytes of a string with its length before it.
pub open spec fn encode_vstring(text: Seq<char>) -> Seq<u8> {
    encode_varint(encode_utf8(text).len()) + encode_utf8(text)
}

/// A string that is written with its length before it and then read comes
/// back as it was, and what follows it is left unread.
pub proof fn lemma_vstring_round_trip(text: Seq<char>, tail: Seq<u8>)
    requires
        text_fits(text),
    ensures
        parse_vstring(encode_vstring(text) + tail) == (Ok::<Seq<char>, HeaderError>(text), tail),
{
    let bytes = encode_utf8(text);
    let s = encode_vstring(text) + tail;
    assert(s =~= encode_varint(bytes.len()) + (bytes + tail));
    lemma_vint_round_trip(bytes.len() as u32, bytes + tail);
    assert((bytes + tail).take(bytes.len() as int) =~= bytes);
    encode_utf8_valid_utf8(text);
    encode_utf8_decode_utf8(text);
}

/// How many bytes a variable-length integer takes: a byte for every seven
/// bits up to its highest set bit. A value below 2^7 takes exactly one byte, a
/// 32-bit value of 2^28 or more exactly five, and no 32-bit value takes more.
pub proof fn lemma_varint_length(v: nat)
    ensures
        encode_varint(v).len() >= 1,
        v < 0x80 <==> encode_varint(v).len() == 1,
        0x1000_0000 <= v < 0x1_0000_0000 ==> encode_varint(v).len() == 5,
        v < 0x1000_0000 ==> encode_varint(v).len() <= 4,
{
    reveal_with_fuel(encode_varint, 6);
}

/// `String::from_utf8`: the string that the bytes encode, or nothing when they
/// are not valid UTF-8.
#[verifier::external_body]
fn string_from_utf8(bytes: Vec<u8>) -> (r: Option<String>)
    ensures
        r is Some <==> valid_utf8(bytes@),
        r matches Some(s) ==> s@ == decode_utf8(bytes@),
{
    match String::from_utf8(bytes) {
        Ok(text) => Some(text),
        Err(_) => None,
    }
}

/// Reads one byte.
pub fn read_byte(bytes: &mut Bytes) -> (res: Result<u8, HeaderError>)
    ensures
        (res, unread(*final(bytes))) == parse_byte(unread(*old(bytes))),
        is_suffix(unread(*final(bytes)), unread(*old(bytes))),
{
    proof {
        lemma_skip_is_suffix(unread(*old(bytes)), 1);
    }
    if buffer::remaining(bytes) < 1 {
        return Err(HeaderError::UnexpectedEof);
    }
    Ok(buffer::get_u8(bytes))
}

/// Reads a big-endian 32-bit unsigned integer.
pub fn read_int(bytes: &mut Bytes) -> (res: Result<u32, HeaderError>)
    ensures
        (res, unread(*final(bytes))) == parse_int(unread(*old(bytes))),
        is_suffix(unread(*final(bytes)), unread(*old(bytes))),
{
    proof {
        lemma_skip_is_suffix(unread(*old(bytes)), 4);
    }
    if buffer::remaining(bytes) < 4 {
        return Err(HeaderError::UnexpectedEof);
    }
    Ok(buffer::get_u32(bytes))
}

/// Reads a big-endian 64-bit unsigned integer.
pub fn read_long(bytes: &mut Bytes) -> (res: Result<u64, HeaderError>)
    ensures
        (res, unread(*final(bytes))) == parse_long(unread(*old(bytes))),
        is_suffix(unread(*final(bytes)), unread(*old(bytes))),
{
    proof {
        lemma_skip_is_suffix(unread(*old(bytes)), 8);
    }
    if buffer::remaining(bytes) < 8 {
        return Err(HeaderError::UnexpectedEof);
    }
    Ok(buffer::get_u64(bytes))
}

/// Reads exactly `length` bytes.
pub fn read_bytes(bytes: &mut Bytes, length: usize) -> (res: Result<Vec<u8>, HeaderError>)
    ensures
        (viewed(res), unread(*final(bytes))) == parse_bytes(unread(*old(bytes)), length as nat),
        is_suffix(unread(*final(bytes)), unread(*old(bytes))),
{
    proof {
        lemma_skip_is_suffix(unread(*old(bytes)), length as int);
    }
    if buffer::remaining(bytes) < length {
        return Err(HeaderError::UnexpectedEof);
    }
    Ok(buffer::take_vec(bytes, length))
}

/// Reads a string of exactly `length` bytes of UTF-8.
pub fn read_string(bytes: &mut Bytes, length: usize) -> (res: Result<String, HeaderError>)
    ensures
        (viewed(res), unread(*final(bytes))) == parse_string(unread(*old(bytes)), length as nat),
        is_suffix(unread(*final(bytes)), unread(*old(bytes))),
{
    let raw = read_bytes(bytes, length)?;
    match string_from_utf8(raw) {
        Some(s) => Ok(s),
        None => Err(HeaderError::InvalidUtf8),
    }
}

/// Tells whether two runs of bytes are the same.
pub fn same_bytes(a: &[u8], b: &[u8]) -> (r: bool)
    ensures
        r == (a@ == b@),
{
    if a.len() != b.len() {
        return false;
    }
    let mut i: usize = 0;
    while i < a.len()
        invariant
            a.len() == b.len(),
            i <= a.len(),
            a@.take(i as int) == b@.take(i as int),
        decreases a.len() - i,
    {
        if a[i] != b[i] {
            return false;
        }
        i = i + 1;
    }
    proof {
        assert(a@.take(i as int) == a@);
        assert(b@.take(i as int) == b@);
    }
    true
}

/// Two texts are the same exactly when their UTF-8 bytes are.
pub proof fn lemma_utf8_injective(a: Seq<char>, b: Seq<char>)
    ensures
        (encode_utf8(a) == encode_utf8(b)) == (a == b),
{
    encode_utf8_decode_utf8(a);
    encode_utf8_decode_utf8(b);
}

/// Tells whether two strings hold the same text.
pub fn same_text(a: &str, b: &str) -> (r: bool)
    ensures
        r == (a@ == b@),
{
    proof {
        lemma_utf8_injective(a@, b@);
    }
    same_bytes(a.as_bytes(), b.as_bytes())
}

/// What a variable-length integer comes to when `acc` has been gathered from
/// the groups already read and the groups still to come weigh `unit` each.
spec fn continued(acc: nat, unit: nat, tail: (Result<nat, HeaderError>, Seq<u8>)) -> (
    Result<nat, HeaderError>,
    Seq<u8>,
) {
    match tail.0 {
        Ok(v) => (Ok(acc + unit * v), tail.1),
        Err(e) => (Err(e), tail.1),
    }
}

proof fn lemma_pow128_values()
    ensures
        pow128(0) == 1,
        pow128(1) == 0x80,
        pow128(2) == 0x4000,
        pow128(3) == 0x20_0000,
        pow128(4) == 0x1000_0000,
        pow128(5) == 0x8_0000_0000,
        pow128(6) == 0x400_0000_0000,
        pow128(7) == 0x2_0000_0000_0000,
        pow128(8) == 0x100_0000_0000_0000,
{
    reveal_with_fuel(pow128, 10);
}

/// Reads a variable-length integer of at most `limit` bytes whose last
/// permitted byte is at most `last_max`.
#[verifier::rlimit(50)]
fn read_varint(bytes: &mut Bytes, limit: u32, last_max: u8) -> (res: Result<u64, HeaderError>)
    requires
        1 <= limit <= 9,
        last_max < 128,
    ensures
        (
            match res {
                Ok(v) => Ok(v as nat),
                Err(e) => Err(e),
            },
            unread(*final(bytes)),
        ) == parse_varint(unread(*old(bytes)), 0, limit as nat, last_max as nat),
        res matches Ok(v) ==> v < pow128((limit - 1) as nat) * (last_max + 1),
        is_suffix(unread(*final(bytes)), unread(*old(bytes))),
{
    proof {
        lemma_skip_is_suffix(unread(*old(bytes)), 0);
    }
    let mut acc: u64 = 0;
    let mut unit: u64 = 1;
    let mut k: u32 = 0;
    proof {
        lemma_pow128_values();
    }
    loop
        invariant
            1 <= limit <= 9,
            last_max < 128,
            k < limit,
            unit == pow128(k as nat),
            acc < unit,
            is_suffix(unread(*bytes), unread(*old(bytes))),
            parse_varint(unread(*old(bytes)), 0, limit as nat, last_max as nat) == continued(
                acc as nat,
                unit as nat,
                parse_varint(unread(*bytes), k as nat, limit as nat, last_max as nat),
            ),
        decreases limit - k,
    {
        proof {
            lemma_pow128_values();
        }
        if buffer::remaining(bytes) < 1 {
            return Err(HeaderError::UnexpectedEof);
        }
        let ghost before = unread(*bytes);
        let b = buffer::get_u8(bytes);
        proof {
            lemma_skip_is_suffix(before, 1);
            lemma_suffix_of_suffix(unread(*bytes), before, unread(*old(bytes)));
        }
        assert(unit <= 0x100_0000_0000_0000 && (k + 1 < limit ==> unit <= 0x2_0000_0000_0000)) by {
            assert(k == 0 || k == 1 || k == 2 || k == 3 || k == 4 || k == 5 || k == 6 || k == 7 || k
                == 8);
        }
        assert(unit * b <= 0x100_0000_0000_0000 * 255) by (nonlinear_arith)
            requires
                unit <= 0x100_0000_0000_0000,
                b <= 255,
        ;
        if k + 1 == limit {
            if b > last_max {
                return Err(HeaderError::VarIntTooLong);
            }
            assert(acc + unit * b < unit * (last_max + 1)) by (nonlinear_arith)
                requires
                    acc < unit,
                    b <= last_max,
            ;
            return Ok(acc + unit * (b as u64));
        }
        if b < 128 {
            assert(acc + unit * b < unit * 128) by (nonlinear_arith)
                requires
                    acc < unit,
                    b < 128,
            ;
            assert(unit * 128 <= pow128((limit - 1) as nat) * (last_max + 1)) by {
                lemma_pow128_step_bound(k as nat, (limit - 1) as nat, last_max as nat);
            }
            return Ok(acc + unit * (b as u64));
        }
        proof {
            let tail = parse_varint(unread(*bytes), (k + 1) as nat, limit as nat, last_max as nat);
            if let Ok(v) = tail.0 {
                assert(acc + unit * ((b - 128) + 128 * v) == (acc + unit * (b - 128)) + (unit * 128)
                    * v) by (nonlinear_arith);
            }
            assert(acc + unit * (b - 128) < unit * 128) by (nonlinear_arith)
                requires
                    acc < unit,
                    128 <= b < 256,
            ;
        }
        acc = acc + unit * ((b - 128) as u64);
        unit = unit * 128;
        k = k + 1;
    }
}

/// `128 * pow128(k)` is within the largest value of a width of `top + 1` bytes
/// whenever byte `k` is not the last one.
proof fn lemma_pow128_step_bound(k: nat, top: nat, last_max: nat)
    requires
        k < top,
    ensures
        pow128(k) * 128 <= pow128(top) * (last_max + 1),
    decreases top - k,
{
    if k + 1 == top {
        assert(pow128(top) <= pow128(top) * (last_max + 1)) by (nonlinear_arith);
    } else {
        lemma_pow128_step_bound(k + 1, top, last_max);
    }
}

/// Reads a variable-length 32-bit unsigned integer.
pub fn read_variable_int(bytes: &mut Bytes) -> (res: Result<u32, HeaderError>)
    ensures
        (res, unread(*final(bytes))) == parse_vint(unread(*old(bytes))),
        is_suffix(unread(*final(bytes)), unread(*old(bytes))),
{
    proof {
        lemma_pow128_values();
    }
    let v = read_varint(bytes, VINT_MAX_BYTES, VINT_LAST_MAX)?;
    Ok(v as u32)
}

/// Reads a variable-length 64-bit unsigned integer. The value is below 2^63.
pub fn read_variable_long(bytes: &mut Bytes) -> (res: Result<u64, HeaderError>)
    ensures
        (res, unread(*final(bytes))) == parse_vlong(unread(*old(bytes))),
        res matches Ok(v) ==> v < 0x8000_0000_0000_0000,
        is_suffix(unread(*final(bytes)), unread(*old(bytes))),
{
    proof {
        lemma_pow128_values();
    }
    read_varint(bytes, VLONG_MAX_BYTES, VLONG_LAST_MAX)
}

/// Reads a string preceded by its length in bytes as a variable-length integer.
pub fn read_variable_string(bytes: &mut Bytes) -> (res: Result<String, HeaderError>)
    ensures
        (viewed(res), unread(*final(bytes))) == parse_vstring(unread(*old(bytes))),
        is_suffix(unread(*final(bytes)), unread(*old(bytes))),
{
    let length = read_variable_int(bytes)?;
    let ghost middle = unread(*bytes);
    let res = read_string(bytes, length as usize);
    proof {
        lemma_suffix_of_suffix(unread(*bytes), middle, unread(*old(bytes)));
    }
    res
}

} // verus!
