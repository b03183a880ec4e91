//! The format of a segment's metadata file, `<segment name>.si`.
//!
//! The file holds, in this order: the codec header; the segment's id; the
//! version that wrote the segment; a flag and, if the flag is set, the oldest
//! version that contributed to the segment; the document count; the
//! compound-file flag; the diagnostics; the file set; the attributes; the sort
//! fields; and the footer.

use crate::directory_reader::IndexInput;
use crate::directory_reader::ID_LENGTH;
use crate::error::lifted;
use crate::error::SegmentReadError;
use crate::header::check_footer;
use crate::header::encode_footer;
use crate::header::encode_header;
use crate::header::lemma_footer_detects_byte;
use crate::header::lemma_footer_round_trip;
use crate::header::lemma_header_round_trip;
use crate::header::lemma_parse_header_advances;
use crate::header::parse_footer;
use crate::header::parse_header_no_magic;
use crate::header::parse_magic;
use crate::segment_info::distinct_keys;
use crate::segment_info::has_key;
use crate::segment_info::key_index;
use crate::segment_info::put;
use crate::segment_info::texts;
use crate::segment_info::with_item;
use crate::segment_info::SegmentInfo;
use crate::segment_info::SegmentInfoView;
use crate::segment_info::SegmentRef;
use crate::segment_info::SegmentRefView;
use crate::segment_info::StringMap;
use crate::segment_info::StringSet;
use crate::util::encode_be;
use crate::util::encode_varint;
use crate::util::encode_vstring;
use crate::util::is_suffix;
use crate::util::lemma_bytes_round_trip;
use crate::util::lemma_concat_assoc;
use crate::util::lemma_int_round_trip;
use crate::util::lemma_vint_round_trip;
use crate::util::lemma_vstring_round_trip;
use crate::util::text_fits;
use crate::util::lemma_parse_advances;
use crate::util::lemma_skip_is_suffix;
use crate::util::lemma_suffix_of_suffix;
use crate::util::parse_byte;
use crate::util::parse_bytes;
use crate::util::parse_int;
use crate::util::parse_vint;
use crate::util::parse_vstring;
use crate::util::same_bytes;
use crate::util::viewed;
use vstd::prelude::*;
use vstd::string::StringExecFns;

verus! {

/// The oldest format version of a segment metadata file that is read.
pub const SI_VERSION_START: u32 = 0;

/// The newest format version of a segment metadata file that is read.
pub const SI_VERSION_CURRENT: u32 = 0;

/// A version: major, minor and patch, each a 32-bit integer.
pub open spec fn parse_version(s: Seq<u8>) -> (Result<(u32, u32, u32), SegmentReadError>, Seq<u8>) {
    let major = lifted(parse_int(s));
    let minor = lifted(parse_int(major.1));
    let patch = lifted(parse_int(minor.1));
    if major.0 is Err {
        (Err(major.0->Err_0), major.1)
    } else if minor.0 is Err {
        (Err(minor.0->Err_0), minor.1)
    } else if patch.0 is Err {
        (Err(patch.0->Err_0), patch.1)
    } else {
        (Ok((major.0->Ok_0, minor.0->Ok_0, patch.0->Ok_0)), patch.1)
    }
}

/// A version that may be absent: a byte that is 0 for "absent" or 1 for
/// "present", and the version when present.
pub open spec fn parse_min_version(s: Seq<u8>) -> (
    Result<Option<(u32, u32, u32)>, SegmentReadError>,
    Seq<u8>,
) {
    let flag = lifted(parse_byte(s));
    let version = parse_version(flag.1);
    if flag.0 is Err {
        (Err(flag.0->Err_0), flag.1)
    } else if flag.0->Ok_0 == 0 {
        (Ok(None), flag.1)
    } else if flag.0->Ok_0 != 1 {
        (Err(SegmentReadError::CorruptedIndex), flag.1)
    } else if version.0 is Err {
        (Err(version.0->Err_0), version.1)
    } else {
        (Ok(Some(version.0->Ok_0)), version.1)
    }
}

/// A document count: a variable-length integer that is not negative when read
/// as a signed 32-bit integer.
pub open spec fn parse_doc_count(s: Seq<u8>) -> (Result<u32, SegmentReadError>, Seq<u8>) {
    let count = lifted(parse_vint(s));
    if count.0 is Err {
        (Err(count.0->Err_0), count.1)
    } else if count.0->Ok_0 > i32::MAX {
        (Err(SegmentReadError::CorruptedIndex), count.1)
    } else {
        (Ok(count.0->Ok_0), count.1)
    }
}

/// A flag: a byte that is 0 for "no" or 1 for "yes".
pub open spec fn parse_flag(s: Seq<u8>) -> (Result<bool, SegmentReadError>, Seq<u8>) {
    let flag = lifted(parse_byte(s));
    if flag.0 is Err {
        (Err(flag.0->Err_0), flag.1)
    } else if flag.0->Ok_0 > 1 {
        (Err(SegmentReadError::CorruptedIndex), flag.1)
    } else {
        (Ok(flag.0->Ok_0 == 1), flag.1)
    }
}

/// `count` more entries of a map, each a key and a value, put one after the
/// other into `map`: of two entries with the same key the later one stays.
pub open spec fn parse_entries(s: Seq<u8>, count: nat, map: Seq<(Seq<char>, Seq<char>)>) -> (
    Result<Seq<(Seq<char>, Seq<char>)>, SegmentReadError>,
    Seq<u8>,
)
    decreases count,
{
    if count == 0 {
        (Ok(map), s)
    } else {
        let key = lifted(parse_vstring(s));
        let value = lifted(parse_vstring(key.1));
        if key.0 is Err {
            (Err(key.0->Err_0), key.1)
        } else if value.0 is Err {
            (Err(value.0->Err_0), value.1)
        } else {
            parse_entries(value.1, (count - 1) as nat, put(map, key.0->Ok_0, value.0->Ok_0))
        }
    }
}

/// A map: the number of entries, then the entries.
pub open spec fn parse_map(s: Seq<u8>) -> (
    Result<Seq<(Seq<char>, Seq<char>)>, SegmentReadError>,
    Seq<u8>,
) {
    let count = lifted(parse_vint(s));
    if count.0 is Err {
        (Err(count.0->Err_0), count.1)
    } else {
        parse_entries(count.1, count.0->Ok_0 as nat, Seq::empty())
    }
}

/// `count` more items of a set, added one after the other to `set`: an item
/// that is there already is not added again.
pub open spec fn parse_items(s: Seq<u8>, count: nat, set: Seq<Seq<char>>) -> (
    Result<Seq<Seq<char>>, SegmentReadError>,
    Seq<u8>,
)
    decreases count,
{
    if count == 0 {
        (Ok(set), s)
    } else {
        let item = lifted(parse_vstring(s));
        if item.0 is Err {
            (Err(item.0->Err_0), item.1)
        } else {
            parse_items(item.1, (count - 1) as nat, with_item(set, item.0->Ok_0))
        }
    }
}

/// A set: the number of items, then the items.
pub open spec fn parse_set(s: Seq<u8>) -> (Result<Seq<Seq<char>>, SegmentReadError>, Seq<u8>) {
    let count = lifted(parse_vint(s));
    if count.0 is Err {
        (Err(count.0->Err_0), count.1)
    } else {
        parse_items(count.1, count.0->Ok_0 as nat, Seq::empty())
    }
}

/// `count` more strings, appended one after the other to `list`.
pub open spec fn parse_strings(s: Seq<u8>, count: nat, list: Seq<Seq<char>>) -> (
    Result<Seq<Seq<char>>, SegmentReadError>,
    Seq<u8>,
)
    decreases count,
{
    if count == 0 {
        (Ok(list), s)
    } else {
        let item = lifted(parse_vstring(s));
        if item.0 is Err {
            (Err(item.0->Err_0), item.1)
        } else {
            parse_strings(item.1, (count - 1) as nat, list.push(item.0->Ok_0))
        }
    }
}

/// A list: the number of strings, then the strings.
pub open spec fn parse_list(s: Seq<u8>) -> (Result<Seq<Seq<char>>, SegmentReadError>, Seq<u8>) {
    let count = lifted(parse_vint(s));
    if count.0 is Err {
        (Err(count.0->Err_0), count.1)
    } else {
        parse_strings(count.1, count.0->Ok_0 as nat, Seq::empty())
    }
}

/// The start of a segment metadata file: the header, which has to name the
/// codec that the commit recorded, and the id, which has to be the one that
/// the commit recorded. The value is the format version.
pub open spec fn parse_segment_header(s: Seq<u8>, segment: SegmentRefView) -> (
    Result<u32, SegmentReadError>,
    Seq<u8>,
) {
    let magic = lifted(parse_magic(s));
    let version = lifted(
        parse_header_no_magic(magic.1, segment.codec_name, SI_VERSION_START, SI_VERSION_CURRENT),
    );
    let id = lifted(parse_bytes(version.1, ID_LENGTH as nat));
    if magic.0 is Err {
        (Err(magic.0->Err_0), magic.1)
    } else if version.0 is Err {
        (Err(version.0->Err_0), version.1)
    } else if id.0 is Err {
        (Err(id.0->Err_0), id.1)
    } else if id.0->Ok_0 != segment.id {
        (Err(SegmentReadError::SegmentIdMismatch), id.1)
    } else {
        (Ok(version.0->Ok_0), id.1)
    }
}

/// A segment metadata file up to its footer: what it says of `segment`.
pub open spec fn parse_segment_content(s: Seq<u8>, segment: SegmentRefView) -> (
    Result<SegmentInfoView, SegmentReadError>,
    Seq<u8>,
) {
    let header = parse_segment_header(s, segment);
    let version = parse_version(header.1);
    let min_version = parse_min_version(version.1);
    let doc_count = parse_doc_count(min_version.1);
    let compound = parse_flag(doc_count.1);
    let diagnostics = parse_map(compound.1);
    let files = parse_set(diagnostics.1);
    let attributes = parse_map(files.1);
    let sort_fields = parse_list(attributes.1);
    if header.0 is Err {
        (Err(header.0->Err_0), header.1)
    } else if version.0 is Err {
        (Err(version.0->Err_0), version.1)
    } else if min_version.0 is Err {
        (Err(min_version.0->Err_0), min_version.1)
    } else if doc_count.0 is Err {
        (Err(doc_count.0->Err_0), doc_count.1)
    } else if compound.0 is Err {
        (Err(compound.0->Err_0), compound.1)
    } else if diagnostics.0 is Err {
        (Err(diagnostics.0->Err_0), diagnostics.1)
    } else if files.0 is Err {
        (Err(files.0->Err_0), files.1)
    } else if attributes.0 is Err {
        (Err(attributes.0->Err_0), attributes.1)
    } else if sort_fields.0 is Err {
        (Err(sort_fields.0->Err_0), sort_fields.1)
    } else {
        (
            Ok(
                SegmentInfoView {
                    name: segment.name,
                    id: segment.id,
                    version: version.0->Ok_0,
                    min_version: min_version.0->Ok_0,
                    doc_count: doc_count.0->Ok_0,
                    is_compound_file: compound.0->Ok_0,
                    diagnostics: diagnostics.0->Ok_0,
                    files: files.0->Ok_0,
                    attributes: attributes.0->Ok_0,
                    sort_fields: sort_fields.0->Ok_0,
                },
            ),
            sort_fields.1,
        )
    }
}

/// What the bytes `data` of the metadata file of `segment` say of the segment,
/// or why they say nothing: the content has to be well-formed, and the footer
/// has to follow it and be the one that belongs to it.
pub open spec fn parse_segment_info(data: Seq<u8>, segment: SegmentRefView) -> Result<
    SegmentInfoView,
    SegmentReadError,
> {
    let content = parse_segment_content(data, segment);
    let footer = parse_footer(data, content.1);
    if content.0 is Err {
        Err(content.0->Err_0)
    } else if footer.0 is Err {
        Err(footer.0->Err_0)
    } else {
        Ok(content.0->Ok_0)
    }
}

/// The bytes of a version.
pub open spec fn encode_version(v: (u32, u32, u32)) -> Seq<u8> {
    encode_be(v.0 as nat, 4) + encode_be(v.1 as nat, 4) + encode_be(v.2 as nat, 4)
}

/// The bytes of a version that may be absent.
pub open spec fn encode_min_version(v: Option<(u32, u32, u32)>) -> Seq<u8> {
    match v {
        None => seq![0u8],
        Some(version) => seq![1u8] + encode_version(version),
    }
}

/// The byte of a flag.
pub open spec fn encode_flag(flag: bool) -> Seq<u8> {
    seq![if flag { 1u8 } else { 0u8 }]
}

/// The bytes of the entries of a map, one after the other.
pub open spec fn encode_entries(map: Seq<(Seq<char>, Seq<char>)>) -> Seq<u8>
    decreases map.len(),
{
    if map.len() == 0 {
        Seq::empty()
    } else {
        encode_vstring(map[0].0) + encode_vstring(map[0].1) + encode_entries(map.drop_first())
    }
}

/// The bytes of a map: the number of its entries, then the entries.
pub open spec fn encode_map(map: Seq<(Seq<char>, Seq<char>)>) -> Seq<u8> {
    encode_varint(map.len()) + encode_entries(map)
}

/// The bytes of strings, one after the other.
pub open spec fn encode_strings(list: Seq<Seq<char>>) -> Seq<u8>
    decreases list.len(),
{
    if list.len() == 0 {
        Seq::empty()
    } else {
        encode_vstring(list[0]) + encode_strings(list.drop_first())
    }
}

/// The bytes of a list, or of a set: the number of its strings, then the
/// strings.
pub open spec fn encode_list(list: Seq<Seq<char>>) -> Seq<u8> {
    encode_varint(list.len()) + encode_strings(list)
}

/// The map can be written: its entries are few enough for a 32-bit count, and
/// so are the bytes of every key and value.
pub open spec fn map_fits(map: Seq<(Seq<char>, Seq<char>)>) -> bool {
    &&& map.len() <= u32::MAX
    &&& forall|i: int| 0 <= i < map.len() ==> text_fits((#[trigger] map[i]).0) && text_fits(map[i].1)
}

/// The list can be written: its strings are few enough for a 32-bit count,
/// and so are the bytes of every string.
pub open spec fn list_fits(list: Seq<Seq<char>>) -> bool {
    &&& list.len() <= u32::MAX
    &&& forall|i: int| 0 <= i < list.len() ==> text_fits(#[trigger] list[i])
}

/// The metadata can be written: its maps and lists can.
pub open spec fn segment_info_fits(info: SegmentInfoView) -> bool {
    &&& map_fits(info.diagnostics)
    &&& list_fits(info.files)
    &&& map_fits(info.attributes)
    &&& list_fits(info.sort_fields)
}

/// The bytes of a segment metadata file up to its footer.
pub open spec fn encode_segment_content(
    info: SegmentInfoView,
    codec_name: Seq<char>,
    format_version: u32,
) -> Seq<u8> {
    encode_header(codec_name, format_version) + info.id + encode_version(info.version)
        + encode_min_version(info.min_version) + encode_varint(info.doc_count as nat)
        + encode_flag(info.is_compound_file) + encode_map(info.diagnostics) + encode_list(
        info.files,
    ) + encode_map(info.attributes) + encode_list(info.sort_fields)
}

/// The bytes of the metadata file that says `info` of a segment, written by
/// the codec `codec_name` in the format version `format_version`.
pub open spec fn encode_segment_info(
    info: SegmentInfoView,
    codec_name: Seq<char>,
    format_version: u32,
) -> Seq<u8> {
    let content = encode_segment_content(info, codec_name, format_version);
    content + encode_footer(content)
}

/// A version that is written and then read comes back as it was.
pub proof fn lemma_version_round_trip(v: (u32, u32, u32), tail: Seq<u8>)
    ensures
        parse_version(encode_version(v) + tail) == (
            Ok::<(u32, u32, u32), SegmentReadError>(v),
            tail,
        ),
{
    let minor = encode_be(v.1 as nat, 4);
    let patch = encode_be(v.2 as nat, 4);
    assert(encode_version(v) + tail =~= encode_be(v.0 as nat, 4) + (minor + (patch + tail)));
    lemma_int_round_trip(v.0, minor + (patch + tail));
    lemma_int_round_trip(v.1, patch + tail);
    lemma_int_round_trip(v.2, tail);
}

/// A version that may be absent, a document count and a flag that are
/// written and then read come back as they were.
pub proof fn lemma_scalar_round_trip(
    min_version: Option<(u32, u32, u32)>,
    doc_count: u32,
    flag: bool,
    tail: Seq<u8>,
)
    requires
        doc_count <= i32::MAX,
    ensures
        parse_min_version(encode_min_version(min_version) + tail) == (
            Ok::<Option<(u32, u32, u32)>, SegmentReadError>(min_version),
            tail,
        ),
        parse_doc_count(encode_varint(doc_count as nat) + tail) == (
            Ok::<u32, SegmentReadError>(doc_count),
            tail,
        ),
        parse_flag(encode_flag(flag) + tail) == (Ok::<bool, SegmentReadError>(flag), tail),
{
    let s = encode_min_version(min_version) + tail;
    match min_version {
        None => {
            assert(s.skip(1) =~= tail);
        },
        Some(version) => {
            assert(s.skip(1) =~= encode_version(version) + tail);
            lemma_version_round_trip(version, tail);
        },
    }
    lemma_vint_round_trip(doc_count, tail);
    assert((encode_flag(flag) + tail).skip(1) =~= tail);
}

/// The entries of a map that are written and then read join the entries
/// read before them, in their order, provided no key occurs twice.
#[verifier::rlimit(50)]
pub proof fn lemma_entries_round_trip(
    map: Seq<(Seq<char>, Seq<char>)>,
    before: Seq<(Seq<char>, Seq<char>)>,
    tail: Seq<u8>,
)
    requires
        distinct_keys(before + map),
        map_fits(map),
    ensures
        parse_entries(encode_entries(map) + tail, map.len(), before) == (
            Ok::<Seq<(Seq<char>, Seq<char>)>, SegmentReadError>(before + map),
            tail,
        ),
    decreases map.len(),
{
    let all = before + map;
    if map.len() == 0 {
        assert(all =~= before);
        assert(encode_entries(map) + tail =~= tail);
    } else {
        let key = map[0].0;
        let value = map[0].1;
        let others = map.drop_first();
        let s = encode_entries(map) + tail;
        assert(s =~= encode_vstring(key) + (encode_vstring(value) + (encode_entries(others)
            + tail)));
        lemma_vstring_round_trip(key, encode_vstring(value) + (encode_entries(others) + tail));
        lemma_vstring_round_trip(value, encode_entries(others) + tail);
        assert(!has_key(before, key)) by {
            if has_key(before, key) {
                let i = key_index(before, key);
                assert(all[i] == before[i]);
                assert(all[before.len() as int] == map[0]);
            }
        }
        assert(put(before, key, value) + others =~= all);
        assert forall|i: int| 0 <= i < others.len() implies text_fits((#[trigger] others[i]).0)
            && text_fits(others[i].1) by {
            assert(others[i] == map[i + 1]);
        }
        lemma_entries_round_trip(others, put(before, key, value), tail);
    }
}

/// The items of a set that are written and then read join the items read
/// before them, in their order, provided no item occurs twice; and the strings
/// of a list join the strings read before them.
#[verifier::rlimit(50)]
pub proof fn lemma_strings_round_trip(list: Seq<Seq<char>>, before: Seq<Seq<char>>, tail: Seq<u8>)
    requires
        list_fits(list),
    ensures
        (before + list).no_duplicates() ==> parse_items(
            encode_strings(list) + tail,
            list.len(),
            before,
        ) == (Ok::<Seq<Seq<char>>, SegmentReadError>(before + list), tail),
        parse_strings(encode_strings(list) + tail, list.len(), before) == (
            Ok::<Seq<Seq<char>>, SegmentReadError>(before + list),
            tail,
        ),
    decreases list.len(),
{
    let all = before + list;
    if list.len() == 0 {
        assert(all =~= before);
        assert(encode_strings(list) + tail =~= tail);
    } else {
        let item = list[0];
        let others = list.drop_first();
        let s = encode_strings(list) + tail;
        assert(s =~= encode_vstring(item) + (encode_strings(others) + tail));
        lemma_vstring_round_trip(item, encode_strings(others) + tail);
        assert(before.push(item) + others =~= all);
        assert forall|i: int| 0 <= i < others.len() implies text_fits(#[trigger] others[i]) by {
            assert(others[i] == list[i + 1]);
        }
        lemma_strings_round_trip(others, before.push(item), tail);
        if all.no_duplicates() {
            assert(!before.contains(item)) by {
                if before.contains(item) {
                    let i = choose|i: int| 0 <= i < before.len() && before[i] == item;
                    assert(all[i] == before[i]);
                    assert(all[before.len() as int] == item);
                }
            }
        }
    }
}

/// A map, a set and a list that are written and then read come back as
/// they were, provided no key occurs twice in the map and no item twice in
/// the set.
#[verifier::rlimit(50)]
pub proof fn lemma_collection_round_trip(
    map: Seq<(Seq<char>, Seq<char>)>,
    list: Seq<Seq<char>>,
    tail: Seq<u8>,
)
    requires
        map_fits(map),
        list_fits(list),
    ensures
        distinct_keys(map) ==> parse_map(encode_map(map) + tail) == (
            Ok::<Seq<(Seq<char>, Seq<char>)>, SegmentReadError>(map),
            tail,
        ),
        list.no_duplicates() ==> parse_set(encode_list(list) + tail) == (
            Ok::<Seq<Seq<char>>, SegmentReadError>(list),
            tail,
        ),
        parse_list(encode_list(list) + tail) == (
            Ok::<Seq<Seq<char>>, SegmentReadError>(list),
            tail,
        ),
{
    let none = Seq::<(Seq<char>, Seq<char>)>::empty();
    assert(none + map =~= map);
    assert(encode_map(map) + tail =~= encode_varint(map.len()) + (encode_entries(map) + tail));
    lemma_vint_round_trip(map.len() as u32, encode_entries(map) + tail);
    if distinct_keys(map) {
        lemma_entries_round_trip(map, none, tail);
    }
    let nothing = Seq::<Seq<char>>::empty();
    assert(nothing + list =~= list);
    assert(encode_list(list) + tail =~= encode_varint(list.len()) + (encode_strings(list) + tail));
    lemma_vint_round_trip(list.len() as u32, encode_strings(list) + tail);
    lemma_strings_round_trip(list, nothing, tail);
}

/// The bytes of a segment metadata file up to its footer, followed by
/// `tail`.
spec fn encode_segment_content_before(
    info: SegmentInfoView,
    codec_name: Seq<char>,
    format_version: u32,
    tail: Seq<u8>,
) -> Seq<u8> {
    encode_header(codec_name, format_version) + (info.id + (encode_version(info.version) + (
    encode_min_version(info.min_version) + (encode_varint(info.doc_count as nat) + (encode_flag(
        info.is_compound_file,
    ) + (encode_map(info.diagnostics) + (encode_list(info.files) + (encode_map(info.attributes) + (
    encode_list(info.sort_fields) + tail)))))))))
}

#[verifier::rlimit(50)]
proof fn lemma_segment_content_before(
    info: SegmentInfoView,
    codec_name: Seq<char>,
    format_version: u32,
    tail: Seq<u8>,
)
    ensures
        encode_segment_content(info, codec_name, format_version) + tail
            == encode_segment_content_before(info, codec_name, format_version, tail),
{
    let e10 = encode_list(info.sort_fields);
    let e9 = encode_map(info.attributes);
    let e8 = encode_list(info.files);
    let e7 = encode_map(info.diagnostics);
    let e6 = encode_flag(info.is_compound_file);
    let e5 = encode_varint(info.doc_count as nat);
    let e4 = encode_min_version(info.min_version);
    let e3 = encode_version(info.version);
    let e2 = info.id;
    let e1 = encode_header(codec_name, format_version);
    let t9 = e10 + tail;
    let t8 = e9 + t9;
    let t7 = e8 + t8;
    let t6 = e7 + t7;
    let t5 = e6 + t6;
    let t4 = e5 + t5;
    let t3 = e4 + t4;
    let t2 = e3 + t3;
    let c2 = e1 + e2;
    let c3 = c2 + e3;
    let c4 = c3 + e4;
    let c5 = c4 + e5;
    let c6 = c5 + e6;
    let c7 = c6 + e7;
    let c8 = c7 + e8;
    let c9 = c8 + e9;
    lemma_concat_assoc(c9, e10, tail);
    lemma_concat_assoc(c8, e9, t9);
    lemma_concat_assoc(c7, e8, t8);
    lemma_concat_assoc(c6, e7, t7);
    lemma_concat_assoc(c5, e6, t6);
    lemma_concat_assoc(c4, e5, t5);
    lemma_concat_assoc(c3, e4, t4);
    lemma_concat_assoc(c2, e3, t3);
    lemma_concat_assoc(e1, e2, t2);
}

#[verifier::rlimit(50)]
proof fn lemma_segment_content_round_trip(
    info: SegmentInfoView,
    codec_name: Seq<char>,
    format_version: u32,
    tail: Seq<u8>,
)
    requires
        info.wf(),
        segment_info_fits(info),
        text_fits(codec_name),
        SI_VERSION_START <= format_version <= SI_VERSION_CURRENT,
    ensures
        parse_segment_content(
            encode_segment_content_before(info, codec_name, format_version, tail),
            SegmentRefView { name: info.name, id: info.id, codec_name },
        ) == (Ok::<SegmentInfoView, SegmentReadError>(info), tail),
{
    let segment = SegmentRefView { name: info.name, id: info.id, codec_name };
    let t9 = encode_list(info.sort_fields) + tail;
    let t8 = encode_map(info.attributes) + t9;
    let t7 = encode_list(info.files) + t8;
    let t6 = encode_map(info.diagnostics) + t7;
    let t5 = encode_flag(info.is_compound_file) + t6;
    let t4 = encode_varint(info.doc_count as nat) + t5;
    let t3 = encode_min_version(info.min_version) + t4;
    let t2 = encode_version(info.version) + t3;
    let t1 = info.id + t2;
    let data = encode_header(codec_name, format_version) + t1;
    let header = parse_segment_header(data, segment);
    assert(header == (Ok::<u32, SegmentReadError>(format_version), t2)) by {
        lemma_header_round_trip(
            codec_name,
            format_version,
            SI_VERSION_START,
            SI_VERSION_CURRENT,
            t1,
        );
        lemma_bytes_round_trip(info.id, t2);
    }
    let version = parse_version(header.1);
    assert(version == (Ok::<(u32, u32, u32), SegmentReadError>(info.version), t3)) by {
        lemma_version_round_trip(info.version, t3);
    }
    let min_version = parse_min_version(version.1);
    assert(min_version == (
        Ok::<Option<(u32, u32, u32)>, SegmentReadError>(info.min_version),
        t4,
    )) by {
        lemma_scalar_round_trip(info.min_version, info.doc_count, info.is_compound_file, t4);
    }
    let doc_count = parse_doc_count(min_version.1);
    assert(doc_count == (Ok::<u32, SegmentReadError>(info.doc_count), t5)) by {
        lemma_scalar_round_trip(info.min_version, info.doc_count, info.is_compound_file, t5);
    }
    let compound = parse_flag(doc_count.1);
    assert(compound == (Ok::<bool, SegmentReadError>(info.is_compound_file), t6)) by {
        lemma_scalar_round_trip(info.min_version, info.doc_count, info.is_compound_file, t6);
    }
    let diagnostics = parse_map(compound.1);
    assert(diagnostics == (
        Ok::<Seq<(Seq<char>, Seq<char>)>, SegmentReadError>(info.diagnostics),
        t7,
    )) by {
        lemma_collection_round_trip(info.diagnostics, info.files, t7);
    }
    let files = parse_set(diagnostics.1);
    assert(files == (Ok::<Seq<Seq<char>>, SegmentReadError>(info.files), t8)) by {
        lemma_collection_round_trip(info.diagnostics, info.files, t8);
    }
    let attributes = parse_map(files.1);
    assert(attributes == (
        Ok::<Seq<(Seq<char>, Seq<char>)>, SegmentReadError>(info.attributes),
        t9,
    )) by {
        lemma_collection_round_trip(info.attributes, info.sort_fields, t9);
    }
    let sort_fields = parse_list(attributes.1);
    assert(sort_fields == (Ok::<Seq<Seq<char>>, SegmentReadError>(info.sort_fields), tail)) by {
        lemma_collection_round_trip(info.attributes, info.sort_fields, tail);
    }
}

/// Law of the round trip, for segment metadata: what is written as a
/// metadata file and then decoded comes back as it was. So the bytes that come
/// of writing a value are the bytes that come of writing what was decoded from
/// them.
#[verifier::rlimit(50)]
pub proof fn lemma_segment_info_round_trip(
    info: SegmentInfoView,
    codec_name: Seq<char>,
    format_version: u32,
)
    requires
        info.wf(),
        segment_info_fits(info),
        text_fits(codec_name),
        SI_VERSION_START <= format_version <= SI_VERSION_CURRENT,
    ensures
        parse_segment_info(
            encode_segment_info(info, codec_name, format_version),
            SegmentRefView { name: info.name, id: info.id, codec_name },
        ) == Ok::<SegmentInfoView, SegmentReadError>(info),
{
    let content = encode_segment_content(info, codec_name, format_version);
    let footer = encode_footer(content);
    lemma_segment_content_before(info, codec_name, format_version, footer);
    lemma_segment_content_round_trip(info, codec_name, format_version, footer);
    lemma_footer_round_trip(content);
}

/// What is left after a list of entries, items or strings is a suffix of
/// what was there before it.
#[verifier::rlimit(50)]
pub proof fn lemma_parse_repeated_advances(
    s: Seq<u8>,
    count: nat,
    map: Seq<(Seq<char>, Seq<char>)>,
    list: Seq<Seq<char>>,
)
    ensures
        is_suffix(parse_entries(s, count, map).1, s),
        is_suffix(parse_items(s, count, list).1, s),
        is_suffix(parse_strings(s, count, list).1, s),
    decreases count,
{
    lemma_parse_advances(s, 0);
    lemma_skip_is_suffix(s, 0);
    if count > 0 {
        let key = lifted(parse_vstring(s));
        lemma_parse_advances(key.1, 0);
        let value = lifted(parse_vstring(key.1));
        lemma_suffix_of_suffix(value.1, key.1, s);
        if key.0 is Ok {
            let item = key.0->Ok_0;
            lemma_parse_repeated_advances(key.1, (count - 1) as nat, map, with_item(list, item));
            lemma_parse_repeated_advances(key.1, (count - 1) as nat, map, list.push(item));
            lemma_suffix_of_suffix(
                parse_items(key.1, (count - 1) as nat, with_item(list, item)).1,
                key.1,
                s,
            );
            lemma_suffix_of_suffix(
                parse_strings(key.1, (count - 1) as nat, list.push(item)).1,
                key.1,
                s,
            );
            if value.0 is Ok {
                let next = put(map, item, value.0->Ok_0);
                lemma_parse_repeated_advances(value.1, (count - 1) as nat, next, list);
                lemma_suffix_of_suffix(parse_entries(value.1, (count - 1) as nat, next).1, value.1, s);
            }
        }
    }
}

/// What is left after a field of a segment metadata file is a suffix of what
/// was there before it.
#[verifier::rlimit(50)]
pub proof fn lemma_parse_field_advances(s: Seq<u8>)
    ensures
        is_suffix(parse_version(s).1, s),
        is_suffix(parse_min_version(s).1, s),
        is_suffix(parse_doc_count(s).1, s),
        is_suffix(parse_flag(s).1, s),
        is_suffix(parse_map(s).1, s),
        is_suffix(parse_set(s).1, s),
        is_suffix(parse_list(s).1, s),
{
    lemma_parse_advances(s, 0);
    let major = lifted(parse_int(s));
    lemma_parse_advances(major.1, 0);
    let minor = lifted(parse_int(major.1));
    lemma_parse_advances(minor.1, 0);
    let patch = lifted(parse_int(minor.1));
    lemma_suffix_of_suffix(minor.1, major.1, s);
    lemma_suffix_of_suffix(patch.1, minor.1, s);
    let flag = lifted(parse_byte(s));
    lemma_parse_version_advances(flag.1);
    lemma_suffix_of_suffix(parse_version(flag.1).1, flag.1, s);
    let count = lifted(parse_vint(s));
    if count.0 is Ok {
        let n = count.0->Ok_0 as nat;
        lemma_parse_repeated_advances(count.1, n, Seq::empty(), Seq::empty());
        lemma_suffix_of_suffix(parse_entries(count.1, n, Seq::empty()).1, count.1, s);
        lemma_suffix_of_suffix(parse_items(count.1, n, Seq::empty()).1, count.1, s);
        lemma_suffix_of_suffix(parse_strings(count.1, n, Seq::empty()).1, count.1, s);
    }
}

proof fn lemma_parse_version_advances(s: Seq<u8>)
    ensures
        is_suffix(parse_version(s).1, s),
{
    lemma_parse_advances(s, 0);
    let major = lifted(parse_int(s));
    lemma_parse_advances(major.1, 0);
    let minor = lifted(parse_int(major.1));
    lemma_parse_advances(minor.1, 0);
    let patch = lifted(parse_int(minor.1));
    lemma_suffix_of_suffix(minor.1, major.1, s);
    lemma_suffix_of_suffix(patch.1, minor.1, s);
}

/// What is left after the content of a segment metadata file is a suffix of
/// the file.
#[verifier::rlimit(50)]
pub proof fn lemma_parse_segment_content_advances(s: Seq<u8>, segment: SegmentRefView)
    ensures
        is_suffix(parse_segment_content(s, segment).1, s),
{
    let magic = lifted(parse_magic(s));
    lemma_parse_header_advances(s, segment.codec_name, SI_VERSION_START, SI_VERSION_CURRENT);
    lemma_parse_header_advances(magic.1, segment.codec_name, SI_VERSION_START, SI_VERSION_CURRENT);
    let format = lifted(
        parse_header_no_magic(magic.1, segment.codec_name, SI_VERSION_START, SI_VERSION_CURRENT),
    );
    lemma_suffix_of_suffix(format.1, magic.1, s);
    lemma_parse_advances(format.1, ID_LENGTH as nat);
    let id = lifted(parse_bytes(format.1, ID_LENGTH as nat));
    lemma_suffix_of_suffix(id.1, format.1, s);
    let header = parse_segment_header(s, segment);
    assert(is_suffix(header.1, s));
    let version = parse_version(header.1);
    lemma_parse_field_advances(header.1);
    lemma_suffix_of_suffix(version.1, header.1, s);
    let min_version = parse_min_version(version.1);
    lemma_parse_field_advances(version.1);
    lemma_suffix_of_suffix(min_version.1, version.1, s);
    let doc_count = parse_doc_count(min_version.1);
    lemma_parse_field_advances(min_version.1);
    lemma_suffix_of_suffix(doc_count.1, min_version.1, s);
    let compound = parse_flag(doc_count.1);
    lemma_parse_field_advances(doc_count.1);
    lemma_suffix_of_suffix(compound.1, doc_count.1, s);
    let diagnostics = parse_map(compound.1);
    lemma_parse_field_advances(compound.1);
    lemma_suffix_of_suffix(diagnostics.1, compound.1, s);
    let files = parse_set(diagnostics.1);
    lemma_parse_field_advances(diagnostics.1);
    lemma_suffix_of_suffix(files.1, diagnostics.1, s);
    let attributes = parse_map(files.1);
    lemma_parse_field_advances(files.1);
    lemma_suffix_of_suffix(attributes.1, files.1, s);
    let sort_fields = parse_list(attributes.1);
    lemma_parse_field_advances(attributes.1);
    lemma_suffix_of_suffix(sort_fields.1, attributes.1, s);
}

/// No change of a single byte goes unnoticed: where the bytes of a segment
/// metadata file are accepted, the same bytes with one byte before the footer
/// changed are refused.
#[verifier::rlimit(50)]
pub proof fn lemma_segment_info_detects_byte(
    data: Seq<u8>,
    segment: SegmentRefView,
    i: int,
    b: u8,
)
    requires
        parse_segment_info(data, segment) is Ok,
        0 <= i < data.len() - 8,
        b != data[i],
    ensures
        parse_segment_info(data.update(i, b), segment) is Err,
{
    let changed = data.update(i, b);
    lemma_parse_segment_content_advances(data, segment);
    lemma_parse_segment_content_advances(changed, segment);
    lemma_footer_detects_byte(
        data,
        parse_segment_content(data, segment).1,
        i,
        b,
        parse_segment_content(changed, segment).1,
    );
}

/// The segment metadata format of version 9.0.
pub struct Lucene90SegmentInfoFormat {}

impl Lucene90SegmentInfoFormat {
    /// The extension of a segment metadata file.
    pub const SI_EXTENSION: &'static str = "si";

    /// The name of the metadata file of the segment `segment_name`.
    pub fn file_name(segment_name: &str) -> (name: String)
        ensures
            name@ == segment_name@ + "."@ + Self::SI_EXTENSION@,
    {
        let mut name = String::from_str(segment_name);
        name.append(".");
        name.append(Self::SI_EXTENSION);
        name
    }

    /// Decodes the metadata file of `segment` from its bytes.
#[verifier::rlimit(50)]
    pub fn read(bytes: Vec<u8>, segment: &SegmentRef) -> (res: Result<SegmentInfo, SegmentReadError>)
        ensures
            viewed(res) == parse_segment_info(bytes@, segment@),
            res matches Ok(info) ==> info@.wf(),
    {
        let mut input = IndexInput::new(bytes);
        Self::check_header(&mut input, segment)?;
        let version = Self::read_version(&mut input)?;
        let min_version = Self::get_min_version(&mut input)?;
        let doc_count = Self::read_doc_count(&mut input)?;
        let is_compound_file = Self::read_flag(&mut input)?;
        let diagnostics = Self::read_map(&mut input)?;
        let files = Self::read_set(&mut input)?;
        let attributes = Self::read_map(&mut input)?;
        let sort_fields = Self::read_list(&mut input)?;
        check_footer(&mut input)?;
        Ok(
            SegmentInfo {
                name: segment.name.clone(),
                id: segment.id.clone(),
                version,
                min_version,
                doc_count,
                is_compound_file,
                diagnostics,
                files,
                attributes,
                sort_fields,
            },
        )
    }

    /// Reads the header and the id and checks them against `segment`.
    fn check_header(input: &mut IndexInput, segment: &SegmentRef) -> (res: Result<
        u32,
        SegmentReadError,
    >)
        requires
            old(input).wf(),
        ensures
            final(input).wf(),
            final(input).data() == old(input).data(),
            (res, final(input).remaining()) == parse_segment_header(
                old(input).remaining(),
                segment@,
            ),
    {
        input.check_magic()?;
        let version = input.check_header_no_magic(
            segment.codec_name.as_str(),
            SI_VERSION_START,
            SI_VERSION_CURRENT,
        )?;
        let id = input.read_id()?;
        if !same_bytes(id.as_slice(), segment.id.as_slice()) {
            return Err(SegmentReadError::SegmentIdMismatch);
        }
        Ok(version)
    }

    /// Reads a version.
    fn read_version(input: &mut IndexInput) -> (res: Result<(u32, u32, u32), SegmentReadError>)
        requires
            old(input).wf(),
        ensures
            final(input).wf(),
            final(input).data() == old(input).data(),
            (res, final(input).remaining()) == parse_version(old(input).remaining()),
    {
        let major = input.read_int()?;
        let minor = input.read_int()?;
        let patch = input.read_int()?;
        Ok((major, minor, patch))
    }

    /// Reads a version that may be absent.
    fn get_min_version(input: &mut IndexInput) -> (res: Result<
        Option<(u32, u32, u32)>,
        SegmentReadError,
    >)
        requires
            old(input).wf(),
        ensures
            final(input).wf(),
            final(input).data() == old(input).data(),
            (res, final(input).remaining()) == parse_min_version(old(input).remaining()),
    {
        let has_min_version = input.read_byte()?;
        if has_min_version == 0 {
            Ok(None)
        } else if has_min_version == 1 {
            let version = Self::read_version(input)?;
            Ok(Some(version))
        } else {
            Err(SegmentReadError::CorruptedIndex)
        }
    }

    /// Reads a document count.
    fn read_doc_count(input: &mut IndexInput) -> (res: Result<u32, SegmentReadError>)
        requires
            old(input).wf(),
        ensures
            final(input).wf(),
            final(input).data() == old(input).data(),
            (res, final(input).remaining()) == parse_doc_count(old(input).remaining()),
    {
        let count = input.read_variable_int()?;
        if count > 0x7fff_ffff {
            return Err(SegmentReadError::CorruptedIndex);
        }
        Ok(count)
    }

    /// Reads a flag.
    fn read_flag(input: &mut IndexInput) -> (res: Result<bool, SegmentReadError>)
        requires
            old(input).wf(),
        ensures
            final(input).wf(),
            final(input).data() == old(input).data(),
            (res, final(input).remaining()) == parse_flag(old(input).remaining()),
    {
        let flag = input.read_byte()?;
        if flag > 1 {
            return Err(SegmentReadError::CorruptedIndex);
        }
        Ok(flag == 1)
    }

    /// Reads a map.
    fn read_map(input: &mut IndexInput) -> (res: Result<StringMap, SegmentReadError>)
        requires
            old(input).wf(),
        ensures
            final(input).wf(),
            final(input).data() == old(input).data(),
            (viewed(res), final(input).remaining()) == parse_map(old(input).remaining()),
            res matches Ok(map) ==> map.wf(),
    {
        let count = input.read_variable_int()?;
        let ghost start = input.remaining();
        let mut map = StringMap::new();
        let mut i: u32 = 0;
        while i < count
            invariant
                i <= count,
                input.wf(),
                input.data() == old(input).data(),
                lifted(parse_vint(old(input).remaining())) == (
                    Ok::<u32, SegmentReadError>(count),
                    start,
                ),
                map.wf(),
                parse_entries(start, count as nat, Seq::empty()) == parse_entries(
                    input.remaining(),
                    (count - i) as nat,
                    map@,
                ),
            decreases count - i,
        {
            let key = input.read_variable_string()?;
            let value = input.read_variable_string()?;
            map.insert(key, value);
            i = i + 1;
        }
        Ok(map)
    }

    /// Reads a set.
    fn read_set(input: &mut IndexInput) -> (res: Result<StringSet, SegmentReadError>)
        requires
            old(input).wf(),
        ensures
            final(input).wf(),
            final(input).data() == old(input).data(),
            (viewed(res), final(input).remaining()) == parse_set(old(input).remaining()),
            res matches Ok(set) ==> set.wf(),
    {
        let count = input.read_variable_int()?;
        let ghost start = input.remaining();
        let mut set = StringSet::new();
        let mut i: u32 = 0;
        while i < count
            invariant
                i <= count,
                input.wf(),
                input.data() == old(input).data(),
                lifted(parse_vint(old(input).remaining())) == (
                    Ok::<u32, SegmentReadError>(count),
                    start,
                ),
                set.wf(),
                parse_items(start, count as nat, Seq::empty()) == parse_items(
                    input.remaining(),
                    (count - i) as nat,
                    set@,
                ),
            decreases count - i,
        {
            let item = input.read_variable_string()?;
            set.insert(item);
            i = i + 1;
        }
        Ok(set)
    }

    /// Reads a list.
    fn read_list(input: &mut IndexInput) -> (res: Result<Vec<String>, SegmentReadError>)
        requires
            old(input).wf(),
        ensures
            final(input).wf(),
            final(input).data() == old(input).data(),
            (
                match res {
                    Ok(list) => Ok(texts(list@)),
                    Err(e) => Err(e),
                },
                final(input).remaining(),
            ) == parse_list(old(input).remaining()),
    {
        let count = input.read_variable_int()?;
        let ghost start = input.remaining();
        let mut list: Vec<String> = Vec::new();
        assert(texts(list@) =~= Seq::<Seq<char>>::empty());
        let mut i: u32 = 0;
        while i < count
            invariant
                i <= count,
                input.wf(),
                input.data() == old(input).data(),
                lifted(parse_vint(old(input).remaining())) == (
                    Ok::<u32, SegmentReadError>(count),
                    start,
                ),
                parse_strings(start, count as nat, Seq::empty()) == parse_strings(
                    input.remaining(),
                    (count - i) as nat,
                    texts(list@),
                ),
            decreases count - i,
        {
            let item = input.read_variable_string()?;
            let ghost before = texts(list@);
            let ghost text = item@;
            list.push(item);
            assert(texts(list@) =~= before.push(text));
            i = i + 1;
        }
        Ok(list)
    }
}

} // verus!
