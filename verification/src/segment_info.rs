//! What is known of one segment: the metadata that its `.si` file holds, and
//! the two small collections that the metadata is made of.

use crate::directory_reader::ID_LENGTH;
use crate::util::same_text;
use vstd::prelude::*;

verus! {

/// The texts of a sequence of strings.
pub open spec fn texts(v: Seq<String>) -> Seq<Seq<char>> {
    v.map_values(|s: String| s@)
}

/// The texts of a sequence of pairs of strings.
pub open spec fn text_pairs(v: Seq<(String, String)>) -> Seq<(Seq<char>, Seq<char>)> {
    v.map_values(|e: (String, String)| (e.0@, e.1@))
}

/// Some entry of `m` has the key `key`.
pub open spec fn has_key(m: Seq<(Seq<char>, Seq<char>)>, key: Seq<char>) -> bool {
    exists|i: int| 0 <= i < m.len() && (#[trigger] m[i]).0 == key
}

/// The place of an entry of `m` with the key `key`, if there is one.
pub open spec fn key_index(m: Seq<(Seq<char>, Seq<char>)>, key: Seq<char>) -> int {
    choose|i: int| 0 <= i < m.len() && (#[trigger] m[i]).0 == key
}

/// No two entries of `m` have the same key.
pub open spec fn distinct_keys(m: Seq<(Seq<char>, Seq<char>)>) -> bool {
    forall|i: int, j: int| 0 <= i < j < m.len() ==> (#[trigger] m[i]).0 != (#[trigger] m[j]).0
}

/// `m` with `value` under `key`: in the place of the entry that had the key, or
/// at the end when none had.
pub open spec fn put(m: Seq<(Seq<char>, Seq<char>)>, key: Seq<char>, value: Seq<char>) -> Seq<
    (Seq<char>, Seq<char>),
> {
    if has_key(m, key) {
        m.update(key_index(m, key), (key, value))
    } else {
        m.push((key, value))
    }
}

/// The value that `m` holds under `key`.
pub open spec fn lookup(m: Seq<(Seq<char>, Seq<char>)>, key: Seq<char>) -> Option<Seq<char>> {
    if has_key(m, key) {
        Some(m[key_index(m, key)].1)
    } else {
        None
    }
}

/// `items` with `item` in it: at the end, unless it was there already.
pub open spec fn with_item(items: Seq<Seq<char>>, item: Seq<char>) -> Seq<Seq<char>> {
    if items.contains(item) {
        items
    } else {
        items.push(item)
    }
}

/// A map from strings to strings that keeps its keys in the order in which
/// they first came.
#[derive(Debug)]
pub struct StringMap {
    entries: Vec<(String, String)>,
}

impl View for StringMap {
    type V = Seq<(Seq<char>, Seq<char>)>;

    /// The entries, key and value, in order.
    closed spec fn view(&self) -> Seq<(Seq<char>, Seq<char>)> {
        text_pairs(self.entries@)
    }
}

impl StringMap {
    /// No key occurs twice.
    pub open spec fn wf(&self) -> bool {
        distinct_keys(self@)
    }

    /// The entries as a mathematical map.
    pub open spec fn as_map(&self) -> Map<Seq<char>, Seq<char>> {
        Map::new(|k: Seq<char>| has_key(self@, k), |k: Seq<char>| self@[key_index(self@, k)].1)
    }

    /// The empty map.
    pub fn new() -> (m: StringMap)
        ensures
            m.wf(),
            m@ == Seq::<(Seq<char>, Seq<char>)>::empty(),
    {
        let m = StringMap { entries: Vec::new() };
        m
    }

    /// The number of entries.
    pub fn len(&self) -> (n: usize)
        ensures
            n == self@.len(),
    {
        self.entries.len()
    }

    /// The key and the value of the entry at `index`.
    pub fn entry(&self, index: usize) -> (e: (&String, &String))
        requires
            index < self@.len(),
        ensures
            (e.0@, e.1@) == self@[index as int],
    {
        let e = &self.entries[index];
        (&e.0, &e.1)
    }

    /// The place of the entry with the key `key`.
    fn find(&self, key: &str) -> (r: Option<usize>)
        ensures
            match r {
                Some(i) => i < self@.len() && self@[i as int].0 == key@,
                None => !has_key(self@, key@),
            },
    {
        let mut i: usize = 0;
        while i < self.entries.len()
            invariant
                i <= self.entries.len(),
                forall|j: int| 0 <= j < i ==> (#[trigger] self@[j]).0 != key@,
            decreases self.entries.len() - i,
        {
            if same_text(self.entries[i].0.as_str(), key) {
                return Some(i);
            }
            i = i + 1;
        }
        None
    }

    /// The value under `key`.
    pub fn get(&self, key: &str) -> (r: Option<&String>)
        requires
            self.wf(),
        ensures
            match lookup(self@, key@) {
                Some(v) => r matches Some(s) && s@ == v,
                None => r is None,
            },
    {
        match self.find(key) {
            Some(i) => {
                Some(&self.entries[i].1)
            },
            None => None,
        }
    }

    /// Puts `value` under `key`. A value that was under the key is replaced.
    pub fn insert(&mut self, key: String, value: String)
        requires
            old(self).wf(),
        ensures
            final(self).wf(),
            final(self)@ == put(old(self)@, key@, value@),
    {
        match self.find(key.as_str()) {
            Some(i) => {
                let ghost entry = (key@, value@);
                self.entries[i] = (key, value);
                assert(self@ =~= old(self)@.update(i as int, entry));
            },
            None => {
                let ghost entry = (key@, value@);
                self.entries.push((key, value));
                assert(self@ =~= old(self)@.push(entry));
            },
        }
    }
}

/// A set of strings that keeps its items in the order in which they first
/// came.
#[derive(Debug)]
pub struct StringSet {
    items: Vec<String>,
}

impl View for StringSet {
    type V = Seq<Seq<char>>;

    /// The items, in order.
    closed spec fn view(&self) -> Seq<Seq<char>> {
        texts(self.items@)
    }
}

impl StringSet {
    /// No item occurs twice.
    pub open spec fn wf(&self) -> bool {
        self@.no_duplicates()
    }

    /// The items as a mathematical set.
    pub open spec fn as_set(&self) -> Set<Seq<char>> {
        self@.to_set()
    }

    /// The empty set.
    pub fn new() -> (s: StringSet)
        ensures
            s.wf(),
            s@ == Seq::<Seq<char>>::empty(),
    {
        let s = StringSet { items: Vec::new() };
        s
    }

    /// The number of items.
    pub fn len(&self) -> (n: usize)
        ensures
            n == self@.len(),
    {
        self.items.len()
    }

    /// The item at `index`.
    pub fn item(&self, index: usize) -> (s: &String)
        requires
            index < self@.len(),
        ensures
            s@ == self@[index as int],
    {
        &self.items[index]
    }

    /// Tells whether `item` is in the set.
    pub fn contains(&self, item: &str) -> (b: bool)
        ensures
            b == self@.contains(item@),
    {
        let mut i: usize = 0;
        while i < self.items.len()
            invariant
                i <= self.items.len(),
                forall|j: int| 0 <= j < i ==> #[trigger] self@[j] != item@,
            decreases self.items.len() - i,
        {
            if same_text(self.items[i].as_str(), item) {
                assert(self@[i as int] == item@);
                return true;
            }
            i = i + 1;
        }
        false
    }

    /// Adds `item`, unless it is there already.
    pub fn insert(&mut self, item: String)
        requires
            old(self).wf(),
        ensures
            final(self).wf(),
            final(self)@ == with_item(old(self)@, item@),
    {
        if !self.contains(item.as_str()) {
            let ghost text = item@;
            self.items.push(item);
            assert(self@ =~= old(self)@.push(text));
        }
    }
}

/// The entry of a commit that points to a segment, as a mathematical value.
pub struct SegmentRefView {
    pub name: Seq<char>,
    pub id: Seq<u8>,
    pub codec_name: Seq<char>,
}

/// The entry of a commit that points to a segment: which `.si` file to open,
/// which id that file has to carry, and which codec has written it.
#[derive(Debug)]
pub struct SegmentRef {
    /// The segment's name.
    pub name: String,
    /// The segment's id, `ID_LENGTH` bytes.
    pub id: Vec<u8>,
    /// The name of the codec that wrote the segment's metadata.
    pub codec_name: String,
}

impl View for SegmentRef {
    type V = SegmentRefView;

    open spec fn view(&self) -> SegmentRefView {
        SegmentRefView { name: self.name@, id: self.id@, codec_name: self.codec_name@ }
    }
}

/// The metadata of one segment as a mathematical value.
pub struct SegmentInfoView {
    pub name: Seq<char>,
    pub id: Seq<u8>,
    pub version: (u32, u32, u32),
    pub min_version: Option<(u32, u32, u32)>,
    pub doc_count: u32,
    pub is_compound_file: bool,
    pub diagnostics: Seq<(Seq<char>, Seq<char>)>,
    pub files: Seq<Seq<char>>,
    pub attributes: Seq<(Seq<char>, Seq<char>)>,
    pub sort_fields: Seq<Seq<char>>,
}

/// The metadata of one segment, as its `.si` file records it.
#[derive(Debug)]
pub struct SegmentInfo {
    /// The segment's name, which its files' names start with.
    pub name: String,
    /// The segment's id, `ID_LENGTH` bytes.
    pub id: Vec<u8>,
    /// The version that wrote the segment: major, minor, patch.
    pub version: (u32, u32, u32),
    /// The oldest version that contributed documents to the segment, if the
    /// file records one.
    pub min_version: Option<(u32, u32, u32)>,
    /// The number of documents in the segment.
    pub doc_count: u32,
    /// Whether the segment's files are packed into one compound file.
    pub is_compound_file: bool,
    /// Free-form notes on how the segment came to be.
    pub diagnostics: StringMap,
    /// The names of the files that belong to the segment.
    pub files: StringSet,
    /// Attributes that the codec stored with the segment.
    pub attributes: StringMap,
    /// The fields by which the segment is sorted, in order.
    pub sort_fields: Vec<String>,
}

impl View for SegmentInfo {
    type V = SegmentInfoView;

    open spec fn view(&self) -> SegmentInfoView {
        SegmentInfoView {
            name: self.name@,
            id: self.id@,
            version: self.version,
            min_version: self.min_version,
            doc_count: self.doc_count,
            is_compound_file: self.is_compound_file,
            diagnostics: self.diagnostics@,
            files: self.files@,
            attributes: self.attributes@,
            sort_fields: texts(self.sort_fields@),
        }
    }
}

impl SegmentInfoView {
    /// The id has its length, no key occurs twice in a map, no file twice in
    /// the file set, and the document count is not negative when read as a
    /// signed 32-bit integer.
    pub open spec fn wf(&self) -> bool {
        &&& self.id.len() == ID_LENGTH
        &&& self.doc_count <= i32::MAX
        &&& distinct_keys(self.diagnostics)
        &&& self.files.no_duplicates()
        &&& distinct_keys(self.attributes)
    }
}

} // verus!
