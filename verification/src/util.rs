use vstd::prelude::*;
use vstd::string::StringExecFns;

use crate::model::{DataElement, DicomError};
use crate::text::{push_char, regex_check, regex_matches, regex_valid};

verus! {

/// A copy of the elements of `v` between `i` (inclusive) and `j` (exclusive).
pub fn subvec<T: Copy>(v: &Vec<T>, i: usize, j: usize) -> (r: Vec<T>)
    requires
        i <= j <= v@.len(),
    ensures
        r@ == v@.subrange(i as int, j as int),
{
    let s = vstd::slice::slice_subrange(v.as_slice(), i, j);
    vstd::slice::slice_to_vec(s)
}

/// The character for one hexadecimal digit, upper case.
pub open spec fn hex_digit(n: u8) -> char {
    if n < 10 {
        (n + 48) as char
    } else {
        (n + 55) as char
    }
}

/// Upper-case hexadecimal rendering, two digits for each byte.
pub open spec fn hex_str(bytes: Seq<u8>) -> Seq<char> {
    Seq::new(
        2 * bytes.len(),
        |i: int|
            if i % 2 == 0 {
                hex_digit((bytes[i / 2] / 16) as u8)
            } else {
                hex_digit((bytes[i / 2] % 16) as u8)
            },
    )
}

fn hex_char(n: u8) -> (c: char)
    requires
        n < 16,
    ensures
        c == hex_digit(n),
{
    if n < 10 {
        (n + 48) as char
    } else {
        (n + 55) as char
    }
}

/// Renders each byte as two upper-case hexadecimal digits, concatenated.
pub fn process_vec_to_tag(buffer: &Vec<u8>) -> (s: String)
    ensures
        s@ == hex_str(buffer@),
{
    let mut s = String::new();
    let mut i: usize = 0;
    while i < buffer.len()
        invariant
            i <= buffer@.len(),
            s@ == hex_str(buffer@.take(i as int)),
        decreases buffer@.len() - i,
    {
        let b = buffer[i];
        push_char(&mut s, hex_char(b / 16));
        push_char(&mut s, hex_char(b % 16));
        i = i + 1;
        proof {
            assert(s@ =~= hex_str(buffer@.take(i as int)));
        }
    }
    proof {
        assert(buffer@.take(buffer@.len() as int) =~= buffer@);
    }
    s
}

/// Each byte taken as the character with the same code point, concatenated.
pub open spec fn byte_chars(b: Seq<u8>) -> Seq<char> {
    Seq::new(b.len(), |i: int| b[i] as char)
}

/// Renders each byte as the character with the same code point.
pub fn process_vec_to_vr(buffer: &Vec<u8>) -> (s: String)
    ensures
        s@ == byte_chars(buffer@),
{
    let mut s = String::new();
    let mut i: usize = 0;
    while i < buffer.len()
        invariant
            i <= buffer@.len(),
            s@ == byte_chars(buffer@.take(i as int)),
        decreases buffer@.len() - i,
    {
        push_char(&mut s, buffer[i] as char);
        i = i + 1;
        proof {
            assert(s@ =~= byte_chars(buffer@.take(i as int)));
        }
    }
    proof {
        assert(buffer@.take(buffer@.len() as int) =~= buffer@);
    }
    s
}

/// Every two bytes exchanged; a trailing unpaired byte stays in place.
pub open spec fn swap2(b: Seq<u8>) -> Seq<u8> {
    Seq::new(
        b.len(),
        |i: int|
            if i % 2 == 0 {
                if i + 1 < b.len() {
                    b[i + 1]
                } else {
                    b[i]
                }
            } else {
                b[i - 1]
            },
    )
}

/// Exchanges every two bytes; a trailing unpaired byte stays in place.
pub fn swap_every_two_bytes(bytes: &Vec<u8>) -> (r: Vec<u8>)
    ensures
        r@ == swap2(bytes@),
{
    let n = bytes.len();
    let mut r: Vec<u8> = Vec::new();
    let mut counter: usize = 0;
    while counter + 1 < n
        invariant
            counter % 2 == 0,
            counter <= n,
            n == bytes@.len(),
            r@ == swap2(bytes@).take(counter as int),
        decreases n - counter,
    {
        r.push(bytes[counter + 1]);
        r.push(bytes[counter]);
        counter = counter + 2;
        proof {
            assert(r@ =~= swap2(bytes@).take(counter as int));
        }
    }
    if counter < n {
        r.push(bytes[counter]);
        proof {
            assert(r@ =~= swap2(bytes@));
        }
    } else {
        proof {
            assert(r@ =~= swap2(bytes@));
        }
    }
    r
}

/// Exchanges every two bytes and renders the result in hexadecimal.
pub fn swap_every_two_bytes_and_echo_string(bytes: &Vec<u8>) -> (s: String)
    ensures
        s@ == hex_str(swap2(bytes@)),
{
    let swapped = swap_every_two_bytes(bytes);
    process_vec_to_tag(&swapped)
}

/// Whether a string equals a literal.
pub fn str_is(s: &String, lit: &str) -> (r: bool)
    ensures
        r == (s@ == lit@),
{
    let t: String = lit.to_owned();
    *s == t
}

/// The recognized value-representation codes, in table order.
pub open spec fn vr_codes() -> Seq<Seq<char>> {
    seq![
        "AE"@, "AS"@, "AT"@, "CS"@, "DA"@, "DS"@, "DT"@, "FL"@, "FD"@, "IS"@, "LO"@, "LT"@,
        "OB"@, "OD"@, "OF"@, "OW"@, "PN"@, "SH"@, "SL"@, "SQ"@, "SS"@, "ST"@, "TM"@, "UI"@,
        "UL"@, "UN"@, "US"@, "UT"@,
    ]
}

/// The long names of the value representations, in table order.
pub open spec fn vr_long_names() -> Seq<Seq<char>> {
    seq![
        "Application Entity"@, "Age String"@, "Attribute Tag"@, "Code String"@, "Date"@,
        "Decimal String"@, "Date Time"@, "Floating Point Single"@, "Floating Point Double"@,
        "Integer String"@, "Long String"@, "Long Text"@, "Other Byte String"@,
        "Other Double String"@, "Other Float String"@, "Other Word String"@, "Person Name"@,
        "Short String"@, "Signed Long"@, "Sequence of Items"@, "Signed Short"@, "Short Text"@,
        "Time"@, "Unique Identifier (UID)"@, "Unsigned Long"@, "Unknown"@, "Unsigned Short"@,
        "Unlimited Text"@,
    ]
}

/// The table of value-representation codes and their long names.
pub fn vr_mapping() -> (r: Vec<(String, String)>)
    ensures
        r@.len() == vr_codes().len(),
        forall|i: int|
            0 <= i < r@.len() ==> (#[trigger] r@[i]).0@ == vr_codes()[i] && r@[i].1@
                == vr_long_names()[i],
{
    let mut r: Vec<(String, String)> = Vec::new();
    r.push((String::from_str("AE"), String::from_str("Application Entity")));
    r.push((String::from_str("AS"), String::from_str("Age String")));
    r.push((String::from_str("AT"), String::from_str("Attribute Tag")));
    r.push((String::from_str("CS"), String::from_str("Code String")));
    r.push((String::from_str("DA"), String::from_str("Date")));
    r.push((String::from_str("DS"), String::from_str("Decimal String")));
    r.push((String::from_str("DT"), String::from_str("Date Time")));
    r.push((String::from_str("FL"), String::from_str("Floating Point Single")));
    r.push((String::from_str("FD"), String::from_str("Floating Point Double")));
    r.push((String::from_str("IS"), String::from_str("Integer String")));
    r.push((String::from_str("LO"), String::from_str("Long String")));
    r.push((String::from_str("LT"), String::from_str("Long Text")));
    r.push((String::from_str("OB"), String::from_str("Other Byte String")));
    r.push((String::from_str("OD"), String::from_str("Other Double String")));
    r.push((String::from_str("OF"), String::from_str("Other Float String")));
    r.push((String::from_str("OW"), String::from_str("Other Word String")));
    r.push((String::from_str("PN"), String::from_str("Person Name")));
    r.push((String::from_str("SH"), String::from_str("Short String")));
    r.push((String::from_str("SL"), String::from_str("Signed Long")));
    r.push((String::from_str("SQ"), String::from_str("Sequence of Items")));
    r.push((String::from_str("SS"), String::from_str("Signed Short")));
    r.push((String::from_str("ST"), String::from_str("Short Text")));
    r.push((String::from_str("TM"), String::from_str("Time")));
    r.push((String::from_str("UI"), String::from_str("Unique Identifier (UID)")));
    r.push((String::from_str("UL"), String::from_str("Unsigned Long")));
    r.push((String::from_str("UN"), String::from_str("Unknown")));
    r.push((String::from_str("US"), String::from_str("Unsigned Short")));
    r.push((String::from_str("UT"), String::from_str("Unlimited Text")));
    r
}

/// The recognized value-representation codes.
pub fn get_vr_values() -> (r: Vec<String>)
    ensures
        r@.len() == vr_codes().len(),
        forall|i: int| 0 <= i < r@.len() ==> (#[trigger] r@[i])@ == vr_codes()[i],
{
    let table = vr_mapping();
    let mut r: Vec<String> = Vec::new();
    let mut i: usize = 0;
    while i < table.len()
        invariant
            i <= table@.len(),
            r@.len() == i,
            table@.len() == vr_codes().len(),
            forall|j: int|
                0 <= j < table@.len() ==> (#[trigger] table@[j]).0@ == vr_codes()[j],
            forall|j: int| 0 <= j < i ==> (#[trigger] r@[j])@ == vr_codes()[j],
        decreases table@.len() - i,
    {
        let entry = vstd::slice::slice_index_get(table.as_slice(), i);
        r.push(entry.0.clone());
        i = i + 1;
    }
    r
}

/// Whether a value-representation code is in the recognized set.
pub fn vr_recognized(vr: &String) -> (r: bool)
    ensures
        r == vr_codes().contains(vr@),
{
    let codes = get_vr_values();
    let mut i: usize = 0;
    while i < codes.len()
        invariant
            i <= codes@.len(),
            codes@.len() == vr_codes().len(),
            forall|j: int| 0 <= j < codes@.len() ==> (#[trigger] codes@[j])@ == vr_codes()[j],
            forall|j: int| 0 <= j < i ==> vr@ != vr_codes()[j],
        decreases codes@.len() - i,
    {
        let c = vstd::slice::slice_index_get(codes.as_slice(), i);
        if *vr == *c {
            proof {
                assert(vr_codes()[i as int] == vr@);
            }
            return true;
        }
        i = i + 1;
    }
    proof {
        assert(!vr_codes().contains(vr@));
    }
    false
}

/// The first element carrying the given tag, if any.
pub open spec fn first_with_tag(es: Seq<DataElement>, tag: Seq<char>) -> Option<DataElement>
    decreases es.len(),
{
    if es.len() == 0 {
        Option::None
    } else if es[0].tag@ == tag {
        Option::Some(es[0])
    } else {
        first_with_tag(es.drop_first(), tag)
    }
}

/// First-match lookup of an element by its composite tag string.
pub fn get_data_element_via_tag<'a>(data_elements: &'a Vec<DataElement>, tag: String) -> (r:
    Option<&'a DataElement>)
    ensures
        match r {
            Option::Some(e) => first_with_tag(data_elements@, tag@) == Option::Some(*e),
            Option::None => first_with_tag(data_elements@, tag@) is None,
        },
{
    proof {
        assert(data_elements@.skip(0) =~= data_elements@);
    }
    let mut i: usize = 0;
    while i < data_elements.len()
        invariant
            i <= data_elements@.len(),
            first_with_tag(data_elements@, tag@) == first_with_tag(
                data_elements@.skip(i as int),
                tag@,
            ),
        decreases data_elements@.len() - i,
    {
        let e = vstd::slice::slice_index_get(data_elements.as_slice(), i);
        if str_is(&e.tag, tag.as_str()) {
            proof {
                assert(data_elements@.skip(i as int)[0] == data_elements@[i as int]);
            }
            return Option::Some(e);
        }
        proof {
            assert(data_elements@.skip(i as int).drop_first() =~= data_elements@.skip(
                i as int + 1,
            ));
        }
        i = i + 1;
    }
    proof {
        assert(data_elements@.skip(data_elements@.len() as int) =~= Seq::<DataElement>::empty());
    }
    Option::None
}

/// The tag-name dictionary: exact-match entries and wildcard-pattern entries,
/// each a pair of pattern and human-readable name. Built once by the caller
/// from the external table, then read-only.
pub struct TagDictionary {
    pub exact: Vec<(String, String)>,
    pub partial: Vec<(String, String)>,
}

/// The mathematical shape of the dictionary.
pub struct DictModel {
    pub exact: Seq<(Seq<char>, Seq<char>)>,
    pub partial: Seq<(Seq<char>, Seq<char>)>,
}

impl View for TagDictionary {
    type V = DictModel;

    open spec fn view(&self) -> DictModel {
        DictModel {
            exact: self.exact@.map_values(|p: (String, String)| (p.0@, p.1@)),
            partial: self.partial@.map_values(|p: (String, String)| (p.0@, p.1@)),
        }
    }
}

impl TagDictionary {
    /// An empty dictionary: every tag resolves to "unknown".
    pub fn empty() -> (d: TagDictionary)
        ensures
            d@.exact.len() == 0,
            d@.partial.len() == 0,
    {
        let d = TagDictionary { exact: Vec::new(), partial: Vec::new() };
        proof {
            assert(d@.exact =~= Seq::<(Seq<char>, Seq<char>)>::empty());
            assert(d@.partial =~= Seq::<(Seq<char>, Seq<char>)>::empty());
        }
        d
    }

    /// A dictionary from ready entry lists.
    pub fn new(exact: Vec<(String, String)>, partial: Vec<(String, String)>) -> (d: TagDictionary)
        ensures
            d@.exact == exact@.map_values(|p: (String, String)| (p.0@, p.1@)),
            d@.partial == partial@.map_values(|p: (String, String)| (p.0@, p.1@)),
    {
        TagDictionary { exact, partial }
    }
}

/// The name of the first exact entry whose pattern equals the tag.
pub open spec fn exact_name(entries: Seq<(Seq<char>, Seq<char>)>, tag: Seq<char>) -> Option<
    Seq<char>,
>
    decreases entries.len(),
{
    if entries.len() == 0 {
        Option::None
    } else if entries[0].0 == tag {
        Option::Some(entries[0].1)
    } else {
        exact_name(entries.drop_first(), tag)
    }
}

/// The name of the first wildcard entry whose pattern matches the tag;
/// "unknown" when none matches; nothing when a pattern fails to compile
/// before a match is found.
pub open spec fn partial_name(entries: Seq<(Seq<char>, Seq<char>)>, tag: Seq<char>) -> Option<
    Seq<char>,
>
    decreases entries.len(),
{
    if entries.len() == 0 {
        Option::Some("unknown"@)
    } else if !regex_valid(entries[0].0) {
        Option::None
    } else if regex_matches(entries[0].0, tag) {
        Option::Some(entries[0].1)
    } else {
        partial_name(entries.drop_first(), tag)
    }
}

/// The resolved human-readable name of a tag: exact match first, then the
/// first matching wildcard pattern, else "unknown".
pub open spec fn spec_resolve(d: DictModel, tag: Seq<char>) -> Option<Seq<char>> {
    match exact_name(d.exact, tag) {
        Option::Some(n) => Option::Some(n),
        Option::None => partial_name(d.partial, tag),
    }
}

/// Resolves the human-readable name of a tag against the dictionary.
pub fn get_tag_human_name(dict: &TagDictionary, tag: &String) -> (r: Result<String, DicomError>)
    ensures
        r is Ok <==> spec_resolve(dict@, tag@) is Some,
        r is Ok ==> r.unwrap()@ == spec_resolve(dict@, tag@).unwrap(),
        r is Err ==> r.unwrap_err() is InvalidPattern,
{
    proof {
        assert(dict@.exact.skip(0) =~= dict@.exact);
        assert(dict@.partial.skip(0) =~= dict@.partial);
    }
    let mut i: usize = 0;
    while i < dict.exact.len()
        invariant
            i <= dict.exact@.len(),
            exact_name(dict@.exact, tag@) == exact_name(dict@.exact.skip(i as int), tag@),
        decreases dict.exact@.len() - i,
    {
        let e = vstd::slice::slice_index_get(dict.exact.as_slice(), i);
        if str_is(tag, e.0.as_str()) {
            proof {
                assert(dict@.exact.skip(i as int)[0] == dict@.exact[i as int]);
            }
            return Result::Ok(e.1.clone());
        }
        proof {
            assert(dict@.exact.skip(i as int).drop_first() =~= dict@.exact.skip(i as int + 1));
        }
        i = i + 1;
    }
    proof {
        assert(dict@.exact.skip(dict@.exact.len() as int) =~= Seq::<(Seq<char>, Seq<char>)>::empty());
    }
    let mut k: usize = 0;
    while k < dict.partial.len()
        invariant
            k <= dict.partial@.len(),
            exact_name(dict@.exact, tag@) is None,
            partial_name(dict@.partial, tag@) == partial_name(dict@.partial.skip(k as int), tag@),
        decreases dict.partial@.len() - k,
    {
        let e = vstd::slice::slice_index_get(dict.partial.as_slice(), k);
        proof {
            assert(dict@.partial.skip(k as int)[0] == dict@.partial[k as int]);
        }
        match regex_check(e.0.as_str(), tag.as_str()) {
            Option::None => {
                return Result::Err(DicomError::InvalidPattern(e.0.clone()));
            },
            Option::Some(true) => {
                return Result::Ok(e.1.clone());
            },
            Option::Some(false) => {
                proof {
                    assert(dict@.partial.skip(k as int).drop_first() =~= dict@.partial.skip(
                        k as int + 1,
                    ));
                }
                k = k + 1;
            },
        }
    }
    proof {
        assert(dict@.partial.skip(dict@.partial.len() as int) =~= Seq::<
            (Seq<char>, Seq<char>),
        >::empty());
    }
    Result::Ok("unknown".to_owned())
}

} // verus!
