//! How commit files are named: `segments` for generation 0 and
//! `segments_<generation>` for every other generation, the generation in
//! decimal digits.

use crate::segment_info::texts;
use crate::util::same_bytes;
use vstd::prelude::*;
use vstd::slice::slice_subrange;
use vstd::string::is_ascii_spec_bytes;
use vstd::string::StringExecFns;
use vstd::string::StringSliceAdditionalSpecFns;
use vstd::utf8::is_ascii_chars;

verus! {

/// Names of index files.
pub struct IndexFileNames {}

impl IndexFileNames {
    /// What the name of every commit file starts with.
    pub const SEGMENT: &'static str = "segments";
}

/// The character of the decimal digit `d`.
pub open spec fn digit_char(d: nat) -> char {
    (d + 48) as u8 as char
}

/// `c` is a decimal digit.
pub open spec fn is_digit(c: char) -> bool {
    '0' <= c <= '9'
}

/// The decimal digits of `n`, without leading zeros.
pub open spec fn decimal(n: nat) -> Seq<char>
    decreases n,
{
    if n < 10 {
        seq![digit_char(n)]
    } else {
        decimal(n / 10).push(digit_char(n % 10))
    }
}

/// The number that the decimal digits `s` denote.
pub open spec fn decimal_value(s: Seq<char>) -> nat
    decreases s.len(),
{
    if s.len() == 0 {
        0
    } else {
        decimal_value(s.drop_last()) * 10 + (s.last() as u32 - 48) as nat
    }
}

/// `s` is made of decimal digits, and of at least one.
pub open spec fn is_number(s: Seq<char>) -> bool {
    s.len() > 0 && forall|i: int| 0 <= i < s.len() ==> is_digit(#[trigger] s[i])
}

/// What follows `segments` in the name of the commit file of generation
/// `generation`, and what the file itself holds as its suffix, without the
/// underscore: nothing for generation 0.
pub open spec fn generation_suffix(generation: u64) -> Seq<char> {
    if generation == 0 {
        Seq::empty()
    } else {
        decimal(generation as nat)
    }
}

/// The name of the commit file of generation `generation`.
pub open spec fn segments_file_name(generation: u64) -> Seq<char> {
    if generation == 0 {
        IndexFileNames::SEGMENT@
    } else {
        IndexFileNames::SEGMENT@.push('_') + decimal(generation as nat)
    }
}

/// The generation of the commit file named `name`, if that is the name of a
/// commit file: `segments` alone is generation 0; `segments_` followed by a
/// number that fits 64 bits is the generation of that number.
pub open spec fn file_name_generation(name: Seq<char>) -> Option<u64> {
    let prefix = IndexFileNames::SEGMENT@.push('_');
    let number = name.skip(prefix.len() as int);
    if name == IndexFileNames::SEGMENT@ {
        Some(0)
    } else if name.len() > prefix.len() && name.take(prefix.len() as int) == prefix && is_number(
        number,
    ) && decimal_value(number) <= u64::MAX {
        Some(decimal_value(number) as u64)
    } else {
        None
    }
}

/// `last` is the highest generation among the commit files in `names`, or
/// nothing when there is no commit file among them.
pub open spec fn is_last_generation(names: Seq<Seq<char>>, last: Option<u64>) -> bool {
    match last {
        Some(g) => {
            &&& exists|i: int| 0 <= i < names.len() && file_name_generation(#[trigger] names[i]) == Some(g)
            &&& forall|i: int| 0 <= i < names.len() ==> (file_name_generation(#[trigger] names[i]) matches Some(h) ==> h <= g)
        },
        None => forall|i: int| 0 <= i < names.len() ==> file_name_generation(#[trigger] names[i]) is None,
    }
}

/// The decimal digits of a number are a number, and denote it.
pub proof fn lemma_decimal_denotes(n: nat)
    ensures
        is_number(decimal(n)),
        decimal_value(decimal(n)) == n,
    decreases n,
{
    if n >= 10 {
        lemma_decimal_denotes(n / 10);
        assert(decimal(n).drop_last() =~= decimal(n / 10));
    } else {
        assert(decimal(n).drop_last() =~= Seq::<char>::empty());
        assert(decimal_value(Seq::<char>::empty()) == 0);
    }
}

/// A number that does not start with a zero denotes a positive number, and
/// is the decimal digits of it.
pub proof fn lemma_decimal_of_value(s: Seq<char>)
    requires
        is_number(s),
        s[0] != '0',
    ensures
        decimal_value(s) > 0,
        decimal(decimal_value(s)) == s,
    decreases s.len(),
{
    let front = s.drop_last();
    if s.len() == 1 {
        assert(front =~= Seq::<char>::empty());
        assert(decimal_value(Seq::<char>::empty()) == 0);
    } else {
        assert(forall|i: int| 0 <= i < front.len() ==> is_digit(#[trigger] front[i]));
        lemma_decimal_of_value(front);
    }
}

/// 10 to the power `k`.
pub open spec fn pow10(k: nat) -> nat
    decreases k,
{
    if k == 0 {
        1
    } else {
        10 * pow10((k - 1) as nat)
    }
}

/// A number below 10 to the power `k` has at most `k` decimal digits.
pub proof fn lemma_decimal_length(n: nat, k: nat)
    requires
        k >= 1,
        n < pow10(k),
    ensures
        1 <= decimal(n).len() <= k,
    decreases k,
{
    if n >= 10 {
        assert(pow10(1) == 10) by {
            reveal_with_fuel(pow10, 2);
        }
        lemma_decimal_length(n / 10, (k - 1) as nat);
    }
}

/// The suffix of a generation is short: at most twenty characters, all of
/// them decimal digits.
pub proof fn lemma_generation_suffix_is_short(generation: u64)
    ensures
        generation_suffix(generation).len() <= 20,
        forall|i: int|
            0 <= i < generation_suffix(generation).len() ==> is_digit(
                #[trigger] generation_suffix(generation)[i],
            ),
{
    if generation != 0 {
        assert(pow10(20) == 100_000_000_000_000_000_000) by {
            reveal_with_fuel(pow10, 21);
        }
        lemma_decimal_length(generation as nat, 20);
        lemma_decimal_denotes(generation as nat);
    }
}

/// Law of the file names, from generation to name and back: the name of the
/// commit file of every generation is the name of a commit file, of that
/// generation. Generation 0 has the name `segments`.
pub proof fn lemma_generation_of_file_name(generation: u64)
    ensures
        file_name_generation(segments_file_name(generation)) == Some(generation),
        segments_file_name(0) == IndexFileNames::SEGMENT@,
{
    let name = segments_file_name(generation);
    let prefix = IndexFileNames::SEGMENT@.push('_');
    if generation != 0 {
        lemma_decimal_denotes(generation as nat);
        assert(name.take(prefix.len() as int) =~= prefix);
        assert(name.skip(prefix.len() as int) =~= decimal(generation as nat));
    }
}

/// Law of the file names, from name to generation and back: the name of a
/// commit file is the name of the commit file of its generation, provided the
/// number in it does not start with a zero.
pub proof fn lemma_file_name_of_generation(name: Seq<char>)
    requires
        file_name_generation(name) is Some,
        name == IndexFileNames::SEGMENT@ || name[IndexFileNames::SEGMENT@.push('_').len() as int]
            != '0',
    ensures
        segments_file_name(file_name_generation(name)->Some_0) == name,
{
    let prefix = IndexFileNames::SEGMENT@.push('_');
    if name != IndexFileNames::SEGMENT@ {
        let number = name.skip(prefix.len() as int);
        lemma_decimal_of_value(number);
    }
}

/// The digits of `digits`, last first, as characters.
spec fn reversed_digits(digits: Seq<u8>) -> Seq<char> {
    Seq::new(digits.len(), |i: int| digit_char(digits[digits.len() - 1 - i] as nat))
}

/// The decimal digits of `n`, or nothing for 0.
spec fn leading_digits(n: nat) -> Seq<char> {
    if n == 0 {
        Seq::empty()
    } else {
        decimal(n)
    }
}

/// The text of one decimal digit.
fn digit_text(d: u8) -> (s: &'static str)
    requires
        d < 10,
    ensures
        s@ == seq![digit_char(d as nat)],
{
    proof {
        reveal_strlit("0");
        reveal_strlit("1");
        reveal_strlit("2");
        reveal_strlit("3");
        reveal_strlit("4");
        reveal_strlit("5");
        reveal_strlit("6");
        reveal_strlit("7");
        reveal_strlit("8");
        reveal_strlit("9");
    }
    let s = match d {
        0 => "0",
        1 => "1",
        2 => "2",
        3 => "3",
        4 => "4",
        5 => "5",
        6 => "6",
        7 => "7",
        8 => "8",
        _ => "9",
    };
    s
}

/// Appends the decimal digits of `n` to `text`.
fn append_decimal(text: &mut String, n: u64)
    ensures
        final(text)@ == old(text)@ + decimal(n as nat),
{
    let mut digits: Vec<u8> = Vec::new();
    digits.push((n % 10) as u8);
    let mut rest: u64 = n / 10;
    while rest > 0
        invariant
            digits.len() > 0,
            forall|i: int| 0 <= i < digits.len() ==> #[trigger] digits[i] < 10,
            decimal(n as nat) == leading_digits(rest as nat) + reversed_digits(digits@),
        decreases rest,
    {
        let ghost before = digits@;
        digits.push((rest % 10) as u8);
        assert(reversed_digits(digits@) =~= seq![digit_char((rest % 10) as nat)] + reversed_digits(
            before,
        ));
        assert(leading_digits(rest as nat) =~= leading_digits((rest / 10) as nat) + seq![
            digit_char((rest % 10) as nat),
        ]);
        assert(decimal(n as nat) =~= leading_digits((rest / 10) as nat) + reversed_digits(
            digits@,
        ));
        rest = rest / 10;
    }
    let mut i: usize = digits.len();
    while i > 0
        invariant
            i <= digits.len(),
            forall|j: int| 0 <= j < digits.len() ==> #[trigger] digits[j] < 10,
            text@ == old(text)@ + reversed_digits(digits@).take(digits.len() - i),
        decreases i,
    {
        i = i - 1;
        text.append(digit_text(digits[i]));
    }
}

/// The value of a number does not shrink when digits are appended to it.
proof fn lemma_decimal_value_grows(s: Seq<char>, k: int)
    requires
        0 <= k <= s.len(),
    ensures
        decimal_value(s.take(k)) <= decimal_value(s),
    decreases s.len() - k,
{
    if k == s.len() {
        assert(s.take(k) =~= s);
    } else {
        lemma_decimal_value_grows(s, k + 1);
        assert(s.take(k + 1).drop_last() =~= s.take(k));
    }
}

/// The number that the decimal digits in `bytes` from `start` on denote, if
/// they are digits, at least one, and the number fits 64 bits.
fn parse_number(bytes: &[u8], start: usize, Ghost(text): Ghost<Seq<char>>) -> (r: Option<u64>)
    requires
        start <= bytes.len(),
        text.len() == bytes.len(),
        forall|i: int|
            0 <= i < text.len() ==> '\0' <= (#[trigger] text[i]) <= '\u{7f}' && text[i] as u8
                == bytes[i],
    ensures
        r == (if is_number(text.skip(start as int)) && decimal_value(text.skip(start as int))
            <= u64::MAX {
            Some(decimal_value(text.skip(start as int)) as u64)
        } else {
            None
        }),
{
    let ghost number = text.skip(start as int);
    if start == bytes.len() {
        return None;
    }
    let mut value: u64 = 0;
    let mut i: usize = start;
    while i < bytes.len()
        invariant
            start <= i <= bytes.len(),
            text.len() == bytes.len(),
            number == text.skip(start as int),
            forall|j: int|
                0 <= j < text.len() ==> '\0' <= (#[trigger] text[j]) <= '\u{7f}' && text[j] as u8
                    == bytes[j],
            forall|j: int| 0 <= j < i - start ==> is_digit(#[trigger] number[j]),
            value == decimal_value(number.take(i - start)),
        decreases bytes.len() - i,
    {
        let b = bytes[i];
        if b < 48 || b > 57 {
            assert(!is_digit(number[i - start]));
            return None;
        }
        let d: u64 = (b - 48) as u64;
        proof {
            assert(number.take(i + 1 - start).drop_last() =~= number.take(i - start));
            lemma_decimal_value_grows(number, i + 1 - start);
        }
        if value > (u64::MAX - d) / 10 {
            return None;
        }
        value = value * 10 + d;
        i = i + 1;
    }
    assert(number.take(i - start) =~= number);
    Some(value)
}

/// The generation of the commit file named `name`, or nothing when `name` is
/// not the name of a commit file.
#[verifier::rlimit(50)]
pub fn parse_segments_file_name(name: &str) -> (r: Option<u64>)
    ensures
        r == file_name_generation(name@),
{
    let prefix = IndexFileNames::SEGMENT.as_bytes();
    proof {
        reveal_strlit("segments");
        is_ascii_spec_bytes(IndexFileNames::SEGMENT);
        is_ascii_spec_bytes(name);
    }
    if !name.is_ascii() {
        assert(file_name_generation(name@) is None) by {
            if file_name_generation(name@) is Some {
                assert forall|i: int| 0 <= i < name@.len() implies '\0' <= #[trigger] name@[i]
                    <= '\u{7f}' by {
                    if name@ != IndexFileNames::SEGMENT@ {
                        if i < 9 {
                            assert(name@.take(9)[i] == name@[i]);
                        } else {
                            assert(is_digit(name@.skip(9)[i - 9]));
                        }
                    }
                }
            }
        }
        return None;
    }
    let bytes = name.as_bytes();
    if bytes.len() < prefix.len() {
        return None;
    }
    if !same_bytes(slice_subrange(bytes, 0, prefix.len()), prefix) {
        assert(file_name_generation(name@) is None) by {
            if file_name_generation(name@) is Some {
                assert(name@.take(8) =~= IndexFileNames::SEGMENT@);
                assert(bytes@.subrange(0, 8) =~= prefix@);
            }
        }
        return None;
    }
    assert(name@.take(8) =~= IndexFileNames::SEGMENT@) by {
        assert forall|i: int| 0 <= i < 8 implies name@.take(8)[i] == IndexFileNames::SEGMENT@[i] by {
            assert(bytes@.subrange(0, 8)[i] == prefix@[i]);
        }
    }
    if bytes.len() == prefix.len() {
        assert(name@ =~= name@.take(8));
        return Some(0);
    }
    if bytes[prefix.len()] != 95 {
        assert(file_name_generation(name@) is None) by {
            assert(name@.take(9)[8] == name@[8]);
        }
        return None;
    }
    assert(name@.take(9) =~= IndexFileNames::SEGMENT@.push('_'));
    parse_number(bytes, prefix.len() + 1, Ghost(name@))
}

/// The generation of the commit file named `segments_file_name`.
pub fn get_generation_from_segments_file_name(segments_file_name: &str) -> (generation: u64)
    requires
        file_name_generation(segments_file_name@) is Some,
    ensures
        Some(generation) == file_name_generation(segments_file_name@),
{
    match parse_segments_file_name(segments_file_name) {
        Some(generation) => generation,
        None => 0,
    }
}

/// The highest generation among the commit files in `file_names`, or nothing
/// when there is no commit file among them. Names that are not names of commit
/// files are passed over.
#[verifier::rlimit(50)]
pub fn get_last_commit_generation(file_names: &[String]) -> (last: Option<u64>)
    ensures
        is_last_generation(texts(file_names@), last),
{
    let mut last: Option<u64> = None;
    let mut i: usize = 0;
    while i < file_names.len()
        invariant
            i <= file_names.len(),
            is_last_generation(texts(file_names@).take(i as int), last),
        decreases file_names.len() - i,
    {
        let ghost names = texts(file_names@);
        let ghost before = last;
        let found = parse_segments_file_name(file_names[i].as_str());
        match found {
            Some(generation) => {
                let higher = match last {
                    Some(g) => generation > g,
                    None => true,
                };
                if higher {
                    last = Some(generation);
                }
            },
            None => {},
        }
        proof {
            let shorter = names.take(i as int);
            let longer = names.take(i + 1);
            if let Some(g) = before {
                let w = choose|j: int|
                    0 <= j < shorter.len() && file_name_generation(#[trigger] shorter[j]) == Some(g);
                assert(longer[w] == shorter[w]);
            }
            if last != before {
                assert(file_name_generation(longer[i as int]) == last);
            }
        }
        i = i + 1;
    }
    assert(texts(file_names@).take(i as int) =~= texts(file_names@));
    last
}

/// The name of the commit file of generation `gen`.
pub fn get_segment_file_name(gen: u64) -> (name: String)
    ensures
        name@ == segments_file_name(gen),
{
    let mut name = String::from_str(IndexFileNames::SEGMENT);
    if gen != 0 {
        proof {
            reveal_strlit("_");
        }
        name.append("_");
        append_decimal(&mut name, gen);
    }
    name
}

/// The suffix that the commit file of generation `gen` holds in its header.
pub fn get_generation_suffix(gen: u64) -> (suffix: String)
    ensures
        suffix@ == generation_suffix(gen),
{
    let mut suffix = String::new();
    if gen != 0 {
        append_decimal(&mut suffix, gen);
    }
    suffix
}

} // verus!
