use vstd::prelude::*;
use vstd::string::StringExecFns;

use crate::model::{
    elem_view, elems_view, lemma_elems_view, lemma_elems_view_push, value_view, DataElement,
    DicomError, DicomValue, ElemModel, ValueModel,
};
use crate::text::{ds_ok, ds_tokens, gbk_chars, nul_trimmed, ws_trimmed};
use crate::util::{
    hex_str, str_is, subvec, swap2, vr_codes, DictModel, TagDictionary,
};

verus! {

pub open spec fn u16_at(b: Seq<u8>, off: int) -> u16 {
    vstd::bytes::spec_u16_from_le_bytes(b.subrange(off, off + 2))
}

pub open spec fn u32_at(b: Seq<u8>, off: int) -> u32 {
    vstd::bytes::spec_u32_from_le_bytes(b.subrange(off, off + 4))
}

pub open spec fn u64_at(b: Seq<u8>, off: int) -> u64 {
    vstd::bytes::spec_u64_from_le_bytes(b.subrange(off, off + 8))
}

/// The signed 16-bit value with the same bits as the unsigned one.
pub open spec fn i16_of(u: u16) -> i16 {
    if u < 0x8000 {
        u as i16
    } else {
        (u - 0x10000) as i16
    }
}

/// The signed 32-bit value with the same bits as the unsigned one.
pub open spec fn i32_of(u: u32) -> i32 {
    if u < 0x80000000 {
        u as i32
    } else {
        (u - 0x100000000) as i32
    }
}

/// The element width of a fixed-width value representation, 0 for the rest.
pub open spec fn width_of(vr: Seq<char>) -> int {
    if vr == "US"@ || vr == "SS"@ {
        2
    } else if vr == "UL"@ || vr == "SL"@ || vr == "FL"@ {
        4
    } else if vr == "FD"@ {
        8
    } else {
        0
    }
}

/// The value representations decoded as trimmed text.
pub open spec fn is_text_vr(vr: Seq<char>) -> bool {
    ||| vr == "OB"@
    ||| vr == "UI"@
    ||| vr == "SH"@
    ||| vr == "CS"@
    ||| vr == "DA"@
    ||| vr == "TM"@
    ||| vr == "LO"@
    ||| vr == "PN"@
    ||| vr == "UN"@
    ||| vr == "IS"@
    ||| vr == "DT"@
    ||| vr == "ST"@
    ||| vr == "AS"@
    ||| vr == "AE"@
    ||| vr == "LT"@
}

/// The value representations whose length field is 4 bytes behind 2 reserved
/// bytes.
pub open spec fn is_long_vr(vr: Seq<char>) -> bool {
    vr == "OB"@ || vr == "OW"@ || vr == "OF"@ || vr == "UT"@ || vr == "UN"@
}

/// What decoding a value window of `len` bytes under a value representation
/// yields, if anything. The window `b` begins at the value's first byte and
/// extends to the end of the enclosing buffer.
pub open spec fn spec_parse_data(b: Seq<u8>, vr: Seq<char>, len: int) -> Option<ValueModel> {
    if vr == "UL"@ {
        if len % 4 == 0 && 0 <= len <= b.len() {
            Option::Some(ValueModel::U32(Seq::new((len / 4) as nat, |k: int| u32_at(b, 4 * k))))
        } else {
            Option::None
        }
    } else if vr == "US"@ {
        if len % 2 == 0 && 0 <= len <= b.len() {
            Option::Some(ValueModel::U16(Seq::new((len / 2) as nat, |k: int| u16_at(b, 2 * k))))
        } else {
            Option::None
        }
    } else if vr == "FD"@ {
        if len % 8 == 0 && 0 <= len <= b.len() {
            Option::Some(ValueModel::Double(Seq::new((len / 8) as nat, |k: int| u64_at(b, 8 * k))))
        } else {
            Option::None
        }
    } else if vr == "FL"@ {
        if len % 4 == 0 && 0 <= len <= b.len() {
            Option::Some(ValueModel::Float(Seq::new((len / 4) as nat, |k: int| u32_at(b, 4 * k))))
        } else {
            Option::None
        }
    } else if vr == "SL"@ {
        if len % 4 == 0 && 0 <= len <= b.len() {
            Option::Some(ValueModel::I32(Seq::new((len / 4) as nat, |k: int| i32_of(u32_at(b, 4 * k)))))
        } else {
            Option::None
        }
    } else if vr == "SS"@ {
        if len % 2 == 0 && 0 <= len <= b.len() {
            Option::Some(ValueModel::I16(Seq::new((len / 2) as nat, |k: int| i16_of(u16_at(b, 2 * k)))))
        } else {
            Option::None
        }
    } else if vr == "DS"@ {
        if 0 <= len <= b.len() && ds_ok(b.take(len)) {
            Option::Some(ValueModel::Decimals(ds_tokens(b.take(len))))
        } else {
            Option::None
        }
    } else if vr == "OW"@ {
        if 0 <= len <= b.len() {
            Option::Some(ValueModel::Bytes(b.take(len)))
        } else {
            Option::None
        }
    } else if is_text_vr(vr) {
        if 0 <= len <= b.len() {
            Option::Some(ValueModel::Text(nul_trimmed(ws_trimmed(gbk_chars(b.take(len))))))
        } else {
            Option::None
        }
    } else {
        Option::None
    }
}

/// One half of a tag: the two wire bytes reversed, then rendered in hex.
pub open spec fn tag_part(b0: u8, b1: u8) -> Seq<char> {
    hex_str(seq![b1, b0])
}

/// Whether the pattern occurs in `s` at position `i`.
pub open spec fn match_at(s: Seq<u8>, p: Seq<u8>, i: int) -> bool {
    0 <= i && i + p.len() <= s.len() && s.subrange(i, i + p.len()) == p
}

/// The first position where the pattern occurs, or -1.
pub open spec fn find_marker(s: Seq<u8>, p: Seq<u8>) -> int
    decreases s.len(),
{
    if p.len() == 0 {
        0
    } else if s.len() < p.len() {
        -1
    } else if s.subrange(0, p.len() as int) == p {
        0
    } else if find_marker(s.drop_first(), p) < 0 {
        -1
    } else {
        1 + find_marker(s.drop_first(), p)
    }
}

pub proof fn lemma_find_marker(s: Seq<u8>, p: Seq<u8>, k: int)
    requires
        p.len() > 0,
        0 <= k,
        forall|j: int| 0 <= j < k ==> !match_at(s, p, j),
        match_at(s, p, k) || k + p.len() > s.len(),
    ensures
        match_at(s, p, k) ==> find_marker(s, p) == k,
        !match_at(s, p, k) ==> find_marker(s, p) == -1,
    decreases k,
{
    if s.len() < p.len() {
    } else {
        if k == 0 {
            if match_at(s, p, 0) {
                assert(s.subrange(0, p.len() as int) == p);
            }
        } else {
            assert(!match_at(s, p, 0));
            assert(s.subrange(0, p.len() as int) != p);
            let d = s.drop_first();
            assert forall|j: int| 0 <= j < k - 1 implies !match_at(d, p, j) by {
                assert(!match_at(s, p, j + 1));
                if 0 <= j && j + p.len() <= d.len() {
                    assert(d.subrange(j, j + p.len() as int) =~= s.subrange(
                        j + 1,
                        j + 1 + p.len() as int,
                    ));
                }
            }
            if match_at(s, p, k) {
                assert(d.subrange(k - 1, k - 1 + p.len() as int) =~= s.subrange(
                    k,
                    k + p.len() as int,
                ));
                assert(match_at(d, p, k - 1));
            } else {
                if k - 1 + p.len() <= d.len() {
                    assert(d.subrange(k - 1, k - 1 + p.len() as int) =~= s.subrange(
                        k,
                        k + p.len() as int,
                    ));
                }
                assert(!match_at(d, p, k - 1));
            }
            lemma_find_marker(d, p, k - 1);
        }
    }
}

/// The sequence-delimitation marker, in wire byte order.
pub open spec fn seq_delim() -> Seq<u8> {
    swap2(seq![0xFFu8, 0xFEu8, 0xE0u8, 0xDDu8, 0u8, 0u8, 0u8, 0u8])
}

/// The item-delimitation marker, in wire byte order.
pub open spec fn item_delim() -> Seq<u8> {
    swap2(seq![0xFFu8, 0xFEu8, 0xE0u8, 0x0Du8, 0u8, 0u8, 0u8, 0u8])
}

/// What decoding one data element at the head of `b` yields: the element's
/// model and the bytes consumed. Mirrors the explicit-VR wire layout,
/// including the fallback for an unrecognized code, which reads its value
/// from the length field's own position and consumes only the six header
/// bytes.
pub open spec fn spec_element(b: Seq<u8>, d: DictModel) -> Option<(ElemModel, int)>
    decreases b.len(), 0int,
{
    if b.len() < 4 {
        Option::None
    } else {
        let tg = tag_part(b[0], b[1]);
        let te = tag_part(b[2], b[3]);
        let tag = tg + ","@ + te;
        match crate::util::spec_resolve(d, tag) {
            Option::None => Option::None,
            Option::Some(name) => {
                if b.len() < 6 {
                    Option::None
                } else {
                    let vr = seq![b[4] as char, b[5] as char];
                    if vr_codes().contains(vr) {
                        if is_long_vr(vr) {
                            if b.len() < 12 {
                                Option::None
                            } else {
                                let len = u32_at(b, 8) as int;
                                match spec_parse_data(b.skip(12), vr, len) {
                                    Option::None => Option::None,
                                    Option::Some(v) => Option::Some(
                                        (
                                            ElemModel {
                                                tag_group: tg,
                                                tag_element: te,
                                                tag: tag,
                                                tag_for_human: name,
                                                vr: vr,
                                                data: v,
                                            },
                                            12 + len,
                                        ),
                                    ),
                                }
                            }
                        } else if vr == "SQ"@ {
                            if b.len() < 8 {
                                Option::None
                            } else {
                                match spec_sq(b.skip(8), d) {
                                    Option::None => Option::None,
                                    Option::Some((es, n)) => Option::Some(
                                        (
                                            ElemModel {
                                                tag_group: tg,
                                                tag_element: te,
                                                tag: tag,
                                                tag_for_human: name,
                                                vr: vr,
                                                data: ValueModel::Sequence(es),
                                            },
                                            8 + n,
                                        ),
                                    ),
                                }
                            }
                        } else {
                            if b.len() < 8 {
                                Option::None
                            } else {
                                let len = u16_at(b, 6) as int;
                                match spec_parse_data(b.skip(8), vr, len) {
                                    Option::None => Option::None,
                                    Option::Some(v) => Option::Some(
                                        (
                                            ElemModel {
                                                tag_group: tg,
                                                tag_element: te,
                                                tag: tag,
                                                tag_for_human: name,
                                                vr: vr,
                                                data: v,
                                            },
                                            8 + len,
                                        ),
                                    ),
                                }
                            }
                        }
                    } else {
                        if b.len() < 10 {
                            Option::None
                        } else {
                            let len = u32_at(b, 6) as int;
                            if 6 + len > b.len() {
                                Option::None
                            } else {
                                Option::Some(
                                    (
                                        ElemModel {
                                            tag_group: tg,
                                            tag_element: te,
                                            tag: tag,
                                            tag_for_human: name,
                                            vr: "implicit"@,
                                            data: ValueModel::Bytes(b.subrange(6, 6 + len)),
                                        },
                                        6,
                                    ),
                                )
                            }
                        }
                    }
                }
            },
        }
    }
}

/// What decoding a sequence value yields, starting at its 4-byte length
/// field: the flattened nested elements and the bytes consumed.
pub open spec fn spec_sq(b: Seq<u8>, d: DictModel) -> Option<(Seq<ElemModel>, int)>
    decreases b.len(), 0int,
{
    if b.len() < 4 {
        Option::None
    } else {
        let len = u32_at(b, 0) as int;
        if len == 0xFFFFFFFF {
            let rest = b.skip(4);
            let idx = find_marker(rest, seq_delim());
            if idx < 0 || idx + 8 > rest.len() {
                Option::None
            } else {
                match spec_items(rest.take(idx), d) {
                    Option::None => Option::None,
                    Option::Some(es) => Option::Some((es, 4 + idx + 8)),
                }
            }
        } else {
            if 4 + len > b.len() {
                Option::None
            } else {
                match spec_items(b.subrange(4, 4 + len), d) {
                    Option::None => Option::None,
                    Option::Some(es) => Option::Some((es, 4 + len)),
                }
            }
        }
    }
}

/// What decoding a run of items yields: the elements of every item,
/// flattened in order. Each item must open with the item tag; its length is
/// either declared or runs to the item-delimitation marker.
pub open spec fn spec_items(c: Seq<u8>, d: DictModel) -> Option<Seq<ElemModel>>
    decreases c.len(), 2int,
{
    if c.len() == 0 {
        Option::Some(Seq::empty())
    } else if c.len() < 8 {
        Option::None
    } else if hex_str(swap2(c.subrange(0, 4))) != "FFFEE000"@ {
        Option::None
    } else {
        let len = u32_at(c, 4) as int;
        if len == 0xFFFFFFFF {
            let rest = c.skip(8);
            let idx = find_marker(rest, item_delim());
            if idx < 0 || idx + 8 > rest.len() {
                Option::None
            } else {
                match spec_item_elems(rest.take(idx), d) {
                    Option::None => Option::None,
                    Option::Some(es1) => match spec_items(c.skip(8 + idx + 8), d) {
                        Option::None => Option::None,
                        Option::Some(es2) => Option::Some(es1 + es2),
                    },
                }
            }
        } else {
            if 8 + len > c.len() {
                Option::None
            } else {
                match spec_item_elems(c.subrange(8, 8 + len), d) {
                    Option::None => Option::None,
                    Option::Some(es1) => match spec_items(c.skip(8 + len), d) {
                        Option::None => Option::None,
                        Option::Some(es2) => Option::Some(es1 + es2),
                    },
                }
            }
        }
    }
}

/// What decoding one item's content yields: at least one element, read
/// until the content is exhausted.
pub open spec fn spec_item_elems(ic: Seq<u8>, d: DictModel) -> Option<Seq<ElemModel>>
    decreases ic.len(), 1int,
{
    match spec_element(ic, d) {
        Option::None => Option::None,
        Option::Some((e, n)) => {
            if n <= 0 || n > ic.len() {
                Option::None
            } else if n == ic.len() {
                Option::Some(seq![e])
            } else {
                match spec_item_elems(ic.skip(n), d) {
                    Option::None => Option::None,
                    Option::Some(r) => Option::Some(seq![e] + r),
                }
            }
        },
    }
}

fn i16_from(u: u16) -> (r: i16)
    ensures
        r == i16_of(u),
{
    if u < 0x8000 {
        u as i16
    } else {
        let d: u16 = 0xFFFFu16 - u;
        proof {
            assert(d <= 0x7FFF);
        }
        -(d as i16) - 1
    }
}

fn i32_from(u: u32) -> (r: i32)
    ensures
        r == i32_of(u),
{
    if u < 0x80000000 {
        u as i32
    } else {
        let d: u32 = 0xFFFFFFFFu32 - u;
        proof {
            assert(d <= 0x7FFFFFFF);
        }
        -(d as i32) - 1
    }
}

fn read_u16_array(buffer: &Vec<u8>, len: usize) -> (r: Vec<u16>)
    requires
        len % 2 == 0,
        len <= buffer@.len(),
    ensures
        r@ == Seq::new((len as int / 2) as nat, |k: int| u16_at(buffer@, 2 * k)),
{
    let mut datas: Vec<u16> = Vec::new();
    let mut off: usize = 0;
    while off < len
        invariant
            off <= len,
            off % 2 == 0,
            len % 2 == 0,
            len <= buffer@.len(),
            datas@.len() == off as int / 2,
            forall|k: int| 0 <= k < datas@.len() ==> datas@[k] == u16_at(buffer@, 2 * k),
        decreases len - off,
    {
        let sl = vstd::slice::slice_subrange(buffer.as_slice(), off, off + 2);
        let x = vstd::bytes::u16_from_le_bytes(sl);
        datas.push(x);
        off = off + 2;
    }
    proof {
        assert(datas@ =~= Seq::new((len as int / 2) as nat, |k: int| u16_at(buffer@, 2 * k)));
    }
    datas
}

fn read_u32_array(buffer: &Vec<u8>, len: usize) -> (r: Vec<u32>)
    requires
        len % 4 == 0,
        len <= buffer@.len(),
    ensures
        r@ == Seq::new((len as int / 4) as nat, |k: int| u32_at(buffer@, 4 * k)),
{
    let mut datas: Vec<u32> = Vec::new();
    let mut off: usize = 0;
    while off < len
        invariant
            off <= len,
            off % 4 == 0,
            len % 4 == 0,
            len <= buffer@.len(),
            datas@.len() == off as int / 4,
            forall|k: int| 0 <= k < datas@.len() ==> datas@[k] == u32_at(buffer@, 4 * k),
        decreases len - off,
    {
        let sl = vstd::slice::slice_subrange(buffer.as_slice(), off, off + 4);
        let x = vstd::bytes::u32_from_le_bytes(sl);
        datas.push(x);
        off = off + 4;
    }
    proof {
        assert(datas@ =~= Seq::new((len as int / 4) as nat, |k: int| u32_at(buffer@, 4 * k)));
    }
    datas
}

fn read_u64_array(buffer: &Vec<u8>, len: usize) -> (r: Vec<u64>)
    requires
        len % 8 == 0,
        len <= buffer@.len(),
    ensures
        r@ == Seq::new((len as int / 8) as nat, |k: int| u64_at(buffer@, 8 * k)),
{
    let mut datas: Vec<u64> = Vec::new();
    let mut off: usize = 0;
    while off < len
        invariant
            off <= len,
            off % 8 == 0,
            len % 8 == 0,
            len <= buffer@.len(),
            datas@.len() == off as int / 8,
            forall|k: int| 0 <= k < datas@.len() ==> datas@[k] == u64_at(buffer@, 8 * k),
        decreases len - off,
    {
        let sl = vstd::slice::slice_subrange(buffer.as_slice(), off, off + 8);
        let x = vstd::bytes::u64_from_le_bytes(sl);
        datas.push(x);
        off = off + 8;
    }
    proof {
        assert(datas@ =~= Seq::new((len as int / 8) as nat, |k: int| u64_at(buffer@, 8 * k)));
    }
    datas
}

/// Decodes one typed value from the window that begins at the value's first
/// byte. A fixed-width length that is no multiple of the element width, a
/// window shorter than the declared length, a malformed decimal token and an
/// unsupported code are each fatal.
pub fn parse_data(buffer: &Vec<u8>, vr: &String, data_length: usize) -> (r: Result<
    DicomValue,
    DicomError,
>)
    ensures
        r is Ok <==> spec_parse_data(buffer@, vr@, data_length as int) is Some,
        r is Ok ==> value_view(r.unwrap()) == spec_parse_data(
            buffer@,
            vr@,
            data_length as int,
        ).unwrap(),
        width_of(vr@) > 0 && data_length as int % width_of(vr@) != 0 ==> r is Err
            && r.unwrap_err() is BadValueLength,
        r is Err ==> (r.unwrap_err() is BadValueLength || r.unwrap_err() is OutOfBounds
            || r.unwrap_err() is BadDecimal || r.unwrap_err() is UnsupportedVr),
{
    let n = buffer.len();
    if str_is(vr, "UL") {
        if data_length % 4 != 0 {
            return Result::Err(DicomError::BadValueLength { vr: vr.clone(), length: data_length });
        }
        if data_length > n {
            return Result::Err(DicomError::OutOfBounds { offset: 0, needed: data_length });
        }
        let datas = read_u32_array(buffer, data_length);
        Result::Ok(DicomValue::U32(datas))
    } else if str_is(vr, "US") {
        if data_length % 2 != 0 {
            return Result::Err(DicomError::BadValueLength { vr: vr.clone(), length: data_length });
        }
        if data_length > n {
            return Result::Err(DicomError::OutOfBounds { offset: 0, needed: data_length });
        }
        let datas = read_u16_array(buffer, data_length);
        Result::Ok(DicomValue::U16(datas))
    } else if str_is(vr, "FD") {
        if data_length % 8 != 0 {
            return Result::Err(DicomError::BadValueLength { vr: vr.clone(), length: data_length });
        }
        if data_length > n {
            return Result::Err(DicomError::OutOfBounds { offset: 0, needed: data_length });
        }
        let datas = read_u64_array(buffer, data_length);
        Result::Ok(DicomValue::Double(datas))
    } else if str_is(vr, "FL") {
        if data_length % 4 != 0 {
            return Result::Err(DicomError::BadValueLength { vr: vr.clone(), length: data_length });
        }
        if data_length > n {
            return Result::Err(DicomError::OutOfBounds { offset: 0, needed: data_length });
        }
        let datas = read_u32_array(buffer, data_length);
        Result::Ok(DicomValue::Float(datas))
    } else if str_is(vr, "SL") {
        if data_length % 4 != 0 {
            return Result::Err(DicomError::BadValueLength { vr: vr.clone(), length: data_length });
        }
        if data_length > n {
            return Result::Err(DicomError::OutOfBounds { offset: 0, needed: data_length });
        }
        let raw = read_u32_array(buffer, data_length);
        let mut datas: Vec<i32> = Vec::new();
        let mut i: usize = 0;
        while i < raw.len()
            invariant
                i <= raw@.len(),
                raw@ == Seq::new((data_length as int / 4) as nat, |k: int| u32_at(buffer@, 4 * k)),
                datas@.len() == i,
                forall|k: int| 0 <= k < i ==> datas@[k] == i32_of(u32_at(buffer@, 4 * k)),
            decreases raw@.len() - i,
        {
            datas.push(i32_from(raw[i]));
            i = i + 1;
        }
        proof {
            assert(datas@ =~= Seq::new(
                (data_length as int / 4) as nat,
                |k: int| i32_of(u32_at(buffer@, 4 * k)),
            ));
        }
        Result::Ok(DicomValue::I32(datas))
    } else if str_is(vr, "SS") {
        if data_length % 2 != 0 {
            return Result::Err(DicomError::BadValueLength { vr: vr.clone(), length: data_length });
        }
        if data_length > n {
            return Result::Err(DicomError::OutOfBounds { offset: 0, needed: data_length });
        }
        let raw = read_u16_array(buffer, data_length);
        let mut datas: Vec<i16> = Vec::new();
        let mut i: usize = 0;
        while i < raw.len()
            invariant
                i <= raw@.len(),
                raw@ == Seq::new((data_length as int / 2) as nat, |k: int| u16_at(buffer@, 2 * k)),
                datas@.len() == i,
                forall|k: int| 0 <= k < i ==> datas@[k] == i16_of(u16_at(buffer@, 2 * k)),
            decreases raw@.len() - i,
        {
            datas.push(i16_from(raw[i]));
            i = i + 1;
        }
        proof {
            assert(datas@ =~= Seq::new(
                (data_length as int / 2) as nat,
                |k: int| i16_of(u16_at(buffer@, 2 * k)),
            ));
        }
        Result::Ok(DicomValue::I16(datas))
    } else if str_is(vr, "DS") {
        if data_length > n {
            return Result::Err(DicomError::OutOfBounds { offset: 0, needed: data_length });
        }
        let window = vstd::slice::slice_subrange(buffer.as_slice(), 0, data_length);
        proof {
            assert(window@ =~= buffer@.take(data_length as int));
        }
        match crate::text::decode_ds(window) {
            Result::Err(e) => Result::Err(e),
            Result::Ok(tokens) => Result::Ok(DicomValue::Decimals(tokens)),
        }
    } else if str_is(vr, "OW") {
        if data_length > n {
            return Result::Err(DicomError::OutOfBounds { offset: 0, needed: data_length });
        }
        let pixels = subvec(buffer, 0, data_length);
        proof {
            assert(pixels@ =~= buffer@.take(data_length as int));
        }
        Result::Ok(DicomValue::Bytes(pixels))
    } else if str_is(vr, "OB") || str_is(vr, "UI") || str_is(vr, "SH") || str_is(vr, "CS")
        || str_is(vr, "DA") || str_is(vr, "TM") || str_is(vr, "LO") || str_is(vr, "PN") || str_is(
        vr,
        "UN",
    ) || str_is(vr, "IS") || str_is(vr, "DT") || str_is(vr, "ST") || str_is(vr, "AS") || str_is(
        vr,
        "AE",
    ) || str_is(vr, "LT") {
        if data_length > n {
            return Result::Err(DicomError::OutOfBounds { offset: 0, needed: data_length });
        }
        let window = vstd::slice::slice_subrange(buffer.as_slice(), 0, data_length);
        proof {
            assert(window@ =~= buffer@.take(data_length as int));
        }
        let text = crate::text::gbk_decode(window);
        let cs = crate::text::chars_of(text.as_str());
        let trimmed = crate::text::trim_chars(&cs);
        // drop trailing NUL characters after the white-space trim
        let mut end: usize = trimmed.len();
        while end > 0 && trimmed[end - 1] == '\0'
            invariant
                end <= trimmed@.len(),
                forall|j: int| end <= j < trimmed@.len() ==> #[trigger] trimmed@[j] == '\0',
            decreases end,
        {
            end = end - 1;
        }
        proof {
            crate::text::lemma_nul_trim(trimmed@, end as int);
        }
        let kept = subvec(&trimmed, 0, end);
        let out = crate::text::string_of_chars(&kept);
        Result::Ok(DicomValue::Text(out))
    } else {
        Result::Err(DicomError::UnsupportedVr(vr.clone()))
    }
}


fn eq_at(hay: &[u8], pat: &[u8], at: usize) -> (r: bool)
    requires
        at + pat@.len() <= hay@.len(),
    ensures
        r == (hay@.subrange(at as int, at as int + pat@.len() as int) == pat@),
{
    let ghost sub = hay@.subrange(at as int, at as int + pat@.len() as int);
    let hn = hay.len();
    let m = pat.len();
    let mut j: usize = 0;
    while j < m
        invariant
            j <= m,
            m == pat@.len(),
            hn == hay@.len(),
            at + m <= hn,
            sub == hay@.subrange(at as int, at as int + m as int),
            forall|q: int| 0 <= q < j ==> hay@[at + q] == pat@[q],
        decreases m - j,
    {
        let a = *vstd::slice::slice_index_get(hay, at + j);
        let b = *vstd::slice::slice_index_get(pat, j);
        if a != b {
            proof {
                assert(sub[j as int] == hay@[at + j]);
            }
            return false;
        }
        j = j + 1;
    }
    proof {
        assert(sub =~= pat@);
    }
    true
}

fn find_sub(hay: &[u8], pat: &[u8]) -> (r: Option<usize>)
    requires
        pat@.len() > 0,
    ensures
        match r {
            Option::Some(i) => match_at(hay@, pat@, i as int) && find_marker(hay@, pat@)
                == i as int,
            Option::None => find_marker(hay@, pat@) == -1,
        },
{
    let n = hay.len();
    let m = pat.len();
    if m > n {
        proof {
            lemma_find_marker(hay@, pat@, 0);
        }
        return Option::None;
    }
    let mut i: usize = 0;
    while i <= n - m
        invariant
            0 < m <= n,
            i <= n - m + 1,
            n == hay@.len(),
            m == pat@.len(),
            forall|j: int| 0 <= j < i ==> !match_at(hay@, pat@, j),
        decreases n - i,
    {
        if eq_at(hay, pat, i) {
            proof {
                assert(match_at(hay@, pat@, i as int));
                lemma_find_marker(hay@, pat@, i as int);
            }
            return Option::Some(i);
        }
        proof {
            assert(!match_at(hay@, pat@, i as int));
        }
        i = i + 1;
    }
    proof {
        assert(!match_at(hay@, pat@, i as int));
        lemma_find_marker(hay@, pat@, i as int);
    }
    Option::None
}

/// Reads the fixed 128-byte preamble; its content is not validated beyond
/// being UTF-8 decodable.
pub fn get_preamble(buffer: &Vec<u8>) -> (r: Result<(String, usize), DicomError>)
    ensures
        r is Ok <==> buffer@.len() >= 128 && vstd::utf8::valid_utf8(buffer@.subrange(0, 128)),
        r is Ok ==> r.unwrap().0@ == vstd::utf8::decode_utf8(buffer@.subrange(0, 128))
            && r.unwrap().1 == 128,
        r is Err ==> (r.unwrap_err() is OutOfBounds || r.unwrap_err() is InvalidUtf8),
{
    if buffer.len() < 128 {
        return Result::Err(DicomError::OutOfBounds { offset: 0, needed: 128 });
    }
    let head = subvec(buffer, 0, 128);
    match crate::text::utf8_string(head) {
        Option::Some(s) => Result::Ok((s, 128)),
        Option::None => Result::Err(DicomError::InvalidUtf8),
    }
}

/// Reads the fixed 4-byte prefix; its content is not checked against the
/// expected magic.
pub fn get_prefix(buffer: &Vec<u8>) -> (r: Result<(String, usize), DicomError>)
    ensures
        r is Ok <==> buffer@.len() >= 4 && vstd::utf8::valid_utf8(buffer@.subrange(0, 4)),
        r is Ok ==> r.unwrap().0@ == vstd::utf8::decode_utf8(buffer@.subrange(0, 4))
            && r.unwrap().1 == 4,
        r is Err ==> (r.unwrap_err() is OutOfBounds || r.unwrap_err() is InvalidUtf8),
{
    if buffer.len() < 4 {
        return Result::Err(DicomError::OutOfBounds { offset: 0, needed: 4 });
    }
    let head = subvec(buffer, 0, 4);
    match crate::text::utf8_string(head) {
        Option::Some(s) => Result::Ok((s, 4)),
        Option::None => Result::Err(DicomError::InvalidUtf8),
    }
}

/// Reads one data element from the head of the buffer: tag, resolved name,
/// value representation, length and value; returns the element and the bytes
/// consumed, exactly as `spec_element` describes.
pub fn get_data_element(buffer: &Vec<u8>, dict: &TagDictionary) -> (r: Result<
    (DataElement, usize),
    DicomError,
>)
    ensures
        r is Ok <==> spec_element(buffer@, dict@) is Some,
        r is Ok ==> elem_view(r.unwrap().0) == spec_element(buffer@, dict@).unwrap().0,
        r is Ok ==> r.unwrap().1 as int == spec_element(buffer@, dict@).unwrap().1,
        r is Ok ==> 6 <= r.unwrap().1 <= buffer@.len(),
        buffer@.len() < 4 ==> r is Err && r.unwrap_err() is OutOfBounds,
    decreases buffer@.len(), 0int,
{
    let n = buffer.len();
    if n < 4 {
        return Result::Err(DicomError::OutOfBounds { offset: 0, needed: 4 });
    }
    let mut gb: Vec<u8> = Vec::new();
    gb.push(buffer[1]);
    gb.push(buffer[0]);
    let tag_group = crate::util::process_vec_to_tag(&gb);
    let mut eb: Vec<u8> = Vec::new();
    eb.push(buffer[3]);
    eb.push(buffer[2]);
    let tag_element = crate::util::process_vec_to_tag(&eb);
    let mut tag = tag_group.clone();
    tag.append(",");
    tag.append(tag_element.as_str());
    proof {
        assert(gb@ =~= seq![buffer@[1], buffer@[0]]);
        assert(eb@ =~= seq![buffer@[3], buffer@[2]]);
        assert(tag_group@ == tag_part(buffer@[0], buffer@[1]));
        assert(tag_element@ == tag_part(buffer@[2], buffer@[3]));
        assert(tag@ == tag_part(buffer@[0], buffer@[1]) + ","@ + tag_part(
            buffer@[2],
            buffer@[3],
        ));
    }
    let tag_for_human = match crate::util::get_tag_human_name(dict, &tag) {
        Result::Ok(s) => s,
        Result::Err(e) => {
            return Result::Err(e);
        },
    };
    if n < 6 {
        return Result::Err(DicomError::OutOfBounds { offset: 4, needed: 2 });
    }
    let vrb = subvec(buffer, 4, 6);
    let vr = crate::util::process_vec_to_vr(&vrb);
    proof {
        assert(vr@ =~= seq![buffer@[4] as char, buffer@[5] as char]);
    }
    if crate::util::vr_recognized(&vr) {
        if str_is(&vr, "OB") || str_is(&vr, "OW") || str_is(&vr, "OF") || str_is(&vr, "UT")
            || str_is(&vr, "UN") {
            if n < 12 {
                return Result::Err(DicomError::OutOfBounds { offset: 8, needed: 4 });
            }
            let lb = vstd::slice::slice_subrange(buffer.as_slice(), 8, 12);
            let dl32 = vstd::bytes::u32_from_le_bytes(lb);
            let dl = dl32 as usize;
            proof {
                assert(lb@ =~= buffer@.subrange(8, 12));
            }
            let rest = subvec(buffer, 12, n);
            proof {
                assert(rest@ =~= buffer@.skip(12));
            }
            match parse_data(&rest, &vr, dl) {
                Result::Err(e) => Result::Err(e),
                Result::Ok(v) => {
                    proof {
                        assert(dl as int <= rest@.len());
                    }
                    let e = DataElement {
                        tag_group: tag_group,
                        tag_element: tag_element,
                        tag: tag,
                        tag_for_human: tag_for_human,
                        vr: vr,
                        data: v,
                    };
                    proof {
                        assert(elem_view(e) =~~= spec_element(buffer@, dict@).unwrap().0);
                    }
                    Result::Ok((e, 12 + dl))
                },
            }
        } else if str_is(&vr, "SQ") {
            if n < 8 {
                return Result::Err(DicomError::OutOfBounds { offset: 8, needed: 0 });
            }
            let rest = subvec(buffer, 8, n);
            proof {
                assert(rest@ =~= buffer@.skip(8));
            }
            match parse_sq_data(&rest, dict) {
                Result::Err(e) => Result::Err(e),
                Result::Ok((value, consumed)) => {
                    let e = DataElement {
                        tag_group: tag_group,
                        tag_element: tag_element,
                        tag: tag,
                        tag_for_human: tag_for_human,
                        vr: vr,
                        data: value,
                    };
                    proof {
                        assert(elem_view(e) =~~= spec_element(buffer@, dict@).unwrap().0);
                    }
                    Result::Ok((e, 8 + consumed))
                },
            }
        } else {
            if n < 8 {
                return Result::Err(DicomError::OutOfBounds { offset: 6, needed: 2 });
            }
            let lb = vstd::slice::slice_subrange(buffer.as_slice(), 6, 8);
            let dl16 = vstd::bytes::u16_from_le_bytes(lb);
            let dl = dl16 as usize;
            proof {
                assert(lb@ =~= buffer@.subrange(6, 8));
            }
            let rest = subvec(buffer, 8, n);
            proof {
                assert(rest@ =~= buffer@.skip(8));
            }
            match parse_data(&rest, &vr, dl) {
                Result::Err(e) => Result::Err(e),
                Result::Ok(v) => {
                    proof {
                        assert(dl as int <= rest@.len());
                    }
                    let e = DataElement {
                        tag_group: tag_group,
                        tag_element: tag_element,
                        tag: tag,
                        tag_for_human: tag_for_human,
                        vr: vr,
                        data: v,
                    };
                    proof {
                        assert(elem_view(e) =~~= spec_element(buffer@, dict@).unwrap().0);
                    }
                    Result::Ok((e, 8 + dl))
                },
            }
        }
    } else {
        if n < 10 {
            return Result::Err(DicomError::OutOfBounds { offset: 6, needed: 4 });
        }
        let lb = vstd::slice::slice_subrange(buffer.as_slice(), 6, 10);
        let dl32 = vstd::bytes::u32_from_le_bytes(lb);
        let dl = dl32 as usize;
        proof {
            assert(lb@ =~= buffer@.subrange(6, 10));
        }
        if dl > n - 6 {
            return Result::Err(DicomError::OutOfBounds { offset: 6, needed: dl });
        }
        let data_value = subvec(buffer, 6, 6 + dl);
        let e = DataElement {
            tag_group: tag_group,
            tag_element: tag_element,
            tag: tag,
            tag_for_human: tag_for_human,
            vr: "implicit".to_owned(),
            data: DicomValue::Bytes(data_value),
        };
        proof {
            assert(elem_view(e) =~~= spec_element(buffer@, dict@).unwrap().0);
        }
        Result::Ok((e, 6))
    }
}

/// Decodes a sequence value, starting at its 4-byte length field. An
/// undefined length runs to the sequence-delimitation marker; a missing
/// marker is fatal. Returns the nested elements and the bytes consumed.
pub fn parse_sq_data(buffer: &Vec<u8>, dict: &TagDictionary) -> (r: Result<
    (DicomValue, usize),
    DicomError,
>)
    ensures
        r is Ok <==> spec_sq(buffer@, dict@) is Some,
        r is Ok ==> value_view(r.unwrap().0) == ValueModel::Sequence(
            spec_sq(buffer@, dict@).unwrap().0,
        ),
        r is Ok ==> r.unwrap().1 as int == spec_sq(buffer@, dict@).unwrap().1,
        r is Ok ==> 4 <= r.unwrap().1 <= buffer@.len(),
        buffer@.len() >= 4 && u32_at(buffer@, 0) == 0xFFFFFFFFu32 && find_marker(
            buffer@.skip(4),
            seq_delim(),
        ) == -1 ==> r is Err && r.unwrap_err() is DelimiterNotFound,
    decreases buffer@.len(), 0int,
{
    let n = buffer.len();
    if n < 4 {
        return Result::Err(DicomError::OutOfBounds { offset: 0, needed: 4 });
    }
    let lb = vstd::slice::slice_subrange(buffer.as_slice(), 0, 4);
    let dl = vstd::bytes::u32_from_le_bytes(lb);
    proof {
        assert(lb@ =~= buffer@.subrange(0, 4));
    }
    if dl == 0xFFFFFFFFu32 {
        let mut marker: Vec<u8> = Vec::new();
        marker.push(0xFFu8);
        marker.push(0xFEu8);
        marker.push(0xE0u8);
        marker.push(0xDDu8);
        marker.push(0u8);
        marker.push(0u8);
        marker.push(0u8);
        marker.push(0u8);
        let pattern = crate::util::swap_every_two_bytes(&marker);
        proof {
            assert(marker@ =~= seq![0xFFu8, 0xFEu8, 0xE0u8, 0xDDu8, 0u8, 0u8, 0u8, 0u8]);
            assert(pattern@ == seq_delim());
            assert(seq_delim().len() == 8);
        }
        let rest = subvec(buffer, 4, n);
        proof {
            assert(rest@ =~= buffer@.skip(4));
        }
        match find_sub(rest.as_slice(), pattern.as_slice()) {
            Option::None => Result::Err(DicomError::DelimiterNotFound),
            Option::Some(idx) => {
                let content = subvec(&rest, 0, idx);
                proof {
                    assert(content@ =~= rest@.take(idx as int));
                }
                match parse_sq_items(&content, dict) {
                    Result::Err(e) => Result::Err(e),
                    Result::Ok(elems) => {
                        let value = DicomValue::Sequence(elems);
                        proof {
                            assert(value_view(value) =~~= ValueModel::Sequence(
                                spec_sq(buffer@, dict@).unwrap().0,
                            ));
                        }
                        Result::Ok((value, 4 + idx + 8))
                    },
                }
            },
        }
    } else {
        let dlu = dl as usize;
        if dlu > n - 4 {
            return Result::Err(DicomError::OutOfBounds { offset: 4, needed: dlu });
        }
        let content = subvec(buffer, 4, 4 + dlu);
        proof {
            assert(content@ =~= buffer@.subrange(4, 4 + dlu as int));
        }
        match parse_sq_items(&content, dict) {
            Result::Err(e) => Result::Err(e),
            Result::Ok(elems) => {
                let value = DicomValue::Sequence(elems);
                proof {
                    assert(value_view(value) =~~= ValueModel::Sequence(
                        spec_sq(buffer@, dict@).unwrap().0,
                    ));
                }
                Result::Ok((value, 4 + dlu))
            },
        }
    }
}

/// Decodes the elements of one item's content, reading data elements until
/// the content is exhausted; empty content is fatal, as an element read is
/// always attempted.
fn parse_one_item(item_content: &Vec<u8>, dict: &TagDictionary) -> (r: Result<
    Vec<DataElement>,
    DicomError,
>)
    ensures
        r is Ok <==> spec_item_elems(item_content@, dict@) is Some,
        r is Ok ==> elems_view(r.unwrap()@) == spec_item_elems(item_content@, dict@).unwrap(),
    decreases item_content@.len(), 1int,
{
    let m = item_content.len();
    let mut elems: Vec<DataElement> = Vec::new();
    let mut item_offset: usize = 0;
    proof {
        assert(item_content@.skip(0) =~= item_content@);
        assert(elems_view(elems@) =~= Seq::<ElemModel>::empty());
    }
    loop
        invariant_except_break
            ({
                let tail = spec_item_elems(item_content@.skip(item_offset as int), dict@);
                let whole = spec_item_elems(item_content@, dict@);
                whole == (match tail {
                    Option::None => Option::None::<Seq<ElemModel>>,
                    Option::Some(rest) => Option::Some(elems_view(elems@) + rest),
                })
            }),
        invariant
            item_offset <= m,
            m == item_content@.len(),
        ensures
            spec_item_elems(item_content@, dict@) is Some,
            elems_view(elems@) == spec_item_elems(item_content@, dict@).unwrap(),
        decreases m - item_offset,
    {
        let sub = subvec(item_content, item_offset, m);
        proof {
            assert(sub@ =~= item_content@.skip(item_offset as int));
        }
        match get_data_element(&sub, dict) {
            Result::Err(e) => {
                return Result::Err(e);
            },
            Result::Ok((de, consumed)) => {
                proof {
                    lemma_elems_view_push(elems@, de);
                }
                elems.push(de);
                proof {
                    let tail = spec_item_elems(item_content@.skip(item_offset as int), dict@);
                    let se = spec_element(item_content@.skip(item_offset as int), dict@);
                    assert(se is Some);
                    if consumed < m - item_offset {
                        assert(item_content@.skip(item_offset as int).skip(consumed as int)
                            =~= item_content@.skip(item_offset as int + consumed as int));
                    }
                }
                item_offset = item_offset + consumed;
                if item_offset >= m {
                    proof {
                        assert(elems_view(elems@) == spec_item_elems(
                            item_content@,
                            dict@,
                        ).unwrap());
                    }
                    break ;
                }
                proof {
                    assert(spec_item_elems(item_content@, dict@) == (match spec_item_elems(
                        item_content@.skip(item_offset as int),
                        dict@,
                    ) {
                        Option::None => Option::None::<Seq<ElemModel>>,
                        Option::Some(rest) => Option::Some(elems_view(elems@) + rest),
                    }));
                }
            },
        }
    }
    Result::Ok(elems)
}

/// Decodes a run of items: each opens with the item tag, carries a declared
/// or delimiter-terminated length, and contributes its elements to one
/// flattened list.
pub fn parse_sq_items(buffer: &Vec<u8>, dict: &TagDictionary) -> (r: Result<
    Vec<DataElement>,
    DicomError,
>)
    ensures
        r is Ok <==> spec_items(buffer@, dict@) is Some,
        r is Ok ==> elems_view(r.unwrap()@) == spec_items(buffer@, dict@).unwrap(),
        buffer@.len() >= 8 && hex_str(swap2(buffer@.subrange(0, 4))) != "FFFEE000"@ ==> r is Err
            && r.unwrap_err() is InvalidItemTag,
    decreases buffer@.len(), 0int,
{
    let n = buffer.len();
    let mut sub_elements: Vec<DataElement> = Vec::new();
    let mut offset: usize = 0;
    proof {
        assert(buffer@.skip(0) =~= buffer@);
        assert(elems_view(sub_elements@) =~= Seq::<ElemModel>::empty());
    }
    while offset < n
        invariant
            offset <= n,
            n == buffer@.len(),
            offset != 0 ==> hex_str(swap2(buffer@.subrange(0, 4))) == "FFFEE000"@,
            ({
                let tail = spec_items(buffer@.skip(offset as int), dict@);
                let whole = spec_items(buffer@, dict@);
                whole == (match tail {
                    Option::None => Option::None::<Seq<ElemModel>>,
                    Option::Some(rest) => Option::Some(elems_view(sub_elements@) + rest),
                })
            }),
        decreases n - offset,
    {
        let ghost rem = buffer@.skip(offset as int);
        if n - offset < 4 {
            return Result::Err(DicomError::OutOfBounds { offset: offset, needed: 4 });
        }
        let tagbytes = subvec(buffer, offset, offset + 4);
        proof {
            assert(tagbytes@ =~= rem.subrange(0, 4));
        }
        let item_tag_string = crate::util::swap_every_two_bytes_and_echo_string(&tagbytes);
        if !str_is(&item_tag_string, "FFFEE000") {
            return Result::Err(DicomError::InvalidItemTag(item_tag_string));
        }
        if n - offset < 8 {
            return Result::Err(DicomError::OutOfBounds { offset: offset + 4, needed: 4 });
        }
        let lb = vstd::slice::slice_subrange(buffer.as_slice(), offset + 4, offset + 8);
        let il = vstd::bytes::u32_from_le_bytes(lb);
        proof {
            assert(lb@ =~= rem.subrange(4, 8));
        }
        if il == 0xFFFFFFFFu32 {
            let mut marker: Vec<u8> = Vec::new();
            marker.push(0xFFu8);
            marker.push(0xFEu8);
            marker.push(0xE0u8);
            marker.push(0x0Du8);
            marker.push(0u8);
            marker.push(0u8);
            marker.push(0u8);
            marker.push(0u8);
            let pattern = crate::util::swap_every_two_bytes(&marker);
            proof {
                assert(marker@ =~= seq![0xFFu8, 0xFEu8, 0xE0u8, 0x0Du8, 0u8, 0u8, 0u8, 0u8]);
                assert(pattern@ == item_delim());
                assert(item_delim().len() == 8);
            }
            let rest = subvec(buffer, offset + 8, n);
            proof {
                assert(rest@ =~= rem.skip(8));
            }
            match find_sub(rest.as_slice(), pattern.as_slice()) {
                Option::None => {
                    return Result::Err(DicomError::DelimiterNotFound);
                },
                Option::Some(idx) => {
                    let item_content = subvec(&rest, 0, idx);
                    proof {
                        assert(item_content@ =~= rem.skip(8).take(idx as int));
                    }
                    match parse_one_item(&item_content, dict) {
                        Result::Err(e) => {
                            return Result::Err(e);
                        },
                        Result::Ok(mut es) => {
                            proof {
                                lemma_elems_view_concat(sub_elements@, es@);
                                assert(rem.skip(8 + idx as int + 8) =~= buffer@.skip(
                                    offset as int + 8 + idx as int + 8,
                                ));
                            }
                            sub_elements.append(&mut es);
                            offset = offset + 8 + idx + 8;
                        },
                    }
                },
            }
        } else {
            let ilu = il as usize;
            if ilu > n - (offset + 8) {
                return Result::Err(DicomError::OutOfBounds { offset: offset + 8, needed: ilu });
            }
            let item_content = subvec(buffer, offset + 8, offset + 8 + ilu);
            proof {
                assert(item_content@ =~= rem.subrange(8, 8 + ilu as int));
            }
            match parse_one_item(&item_content, dict) {
                Result::Err(e) => {
                    return Result::Err(e);
                },
                Result::Ok(mut es) => {
                    proof {
                        lemma_elems_view_concat(sub_elements@, es@);
                        assert(rem.skip(8 + ilu as int) =~= buffer@.skip(
                            offset as int + 8 + ilu as int,
                        ));
                    }
                    sub_elements.append(&mut es);
                    offset = offset + 8 + ilu;
                },
            }
        }
    }
    proof {
        assert(buffer@.skip(n as int) =~= Seq::<u8>::empty());
        assert(elems_view(sub_elements@) + Seq::<ElemModel>::empty() =~= elems_view(
            sub_elements@,
        ));
    }
    Result::Ok(sub_elements)
}

pub proof fn lemma_elems_view_concat(a: Seq<DataElement>, b: Seq<DataElement>)
    ensures
        elems_view(a + b) == elems_view(a) + elems_view(b),
{
    lemma_elems_view(a);
    lemma_elems_view(b);
    lemma_elems_view(a + b);
    assert(elems_view(a + b) =~= elems_view(a) + elems_view(b));
}


/// What the top-level element loop yields from the bytes after the prefix:
/// elements are read until at most one byte remains, mirroring the driving
/// loop's stop condition.
pub open spec fn spec_top_elems(rest: Seq<u8>, d: DictModel) -> Option<Seq<ElemModel>>
    decreases rest.len(),
{
    match spec_element(rest, d) {
        Option::None => Option::None,
        Option::Some((e, n)) => {
            if n <= 0 || n > rest.len() {
                Option::None
            } else if rest.len() - n <= 1 {
                Option::Some(seq![e])
            } else {
                match spec_top_elems(rest.skip(n), d) {
                    Option::None => Option::None,
                    Option::Some(r) => Option::Some(seq![e] + r),
                }
            }
        },
    }
}

/// What reading a whole file body yields: the decoded preamble and prefix
/// and the ordered top-level elements.
pub open spec fn spec_dataset(b: Seq<u8>, d: DictModel) -> Option<
    (Seq<char>, Seq<char>, Seq<ElemModel>),
> {
    if b.len() < 132 {
        Option::None
    } else if !vstd::utf8::valid_utf8(b.subrange(0, 128)) || !vstd::utf8::valid_utf8(
        b.subrange(128, 132),
    ) {
        Option::None
    } else {
        match spec_top_elems(b.skip(132), d) {
            Option::None => Option::None,
            Option::Some(es) => Option::Some(
                (
                    vstd::utf8::decode_utf8(b.subrange(0, 128)),
                    vstd::utf8::decode_utf8(b.subrange(128, 132)),
                    es,
                ),
            ),
        }
    }
}

/// A whole decoded file: the preamble, the prefix and the ordered top-level
/// data elements, file-meta group included.
#[derive(Debug)]
pub struct Dataset {
    pub preamble: String,
    pub prefix: String,
    pub elements: Vec<DataElement>,
}

/// Reads a whole in-memory file: the 128-byte preamble, the 4-byte prefix,
/// then data elements until at most one byte remains.
pub fn read_dataset(buffer: &Vec<u8>, dict: &TagDictionary) -> (r: Result<Dataset, DicomError>)
    ensures
        r is Ok <==> spec_dataset(buffer@, dict@) is Some,
        r is Ok ==> ({
            let (p, x, es) = spec_dataset(buffer@, dict@).unwrap();
            &&& r.unwrap().preamble@ == p
            &&& r.unwrap().prefix@ == x
            &&& elems_view(r.unwrap().elements@) == es
        }),
{
    let n = buffer.len();
    let preamble = match get_preamble(buffer) {
        Result::Err(e) => {
            return Result::Err(e);
        },
        Result::Ok((s, _c)) => s,
    };
    let after = subvec(buffer, 128, n);
    proof {
        assert(after@ =~= buffer@.skip(128));
        if n >= 132 {
            assert(after@.subrange(0, 4) =~= buffer@.subrange(128, 132));
        }
    }
    let prefix = match get_prefix(&after) {
        Result::Err(e) => {
            return Result::Err(e);
        },
        Result::Ok((s, _c)) => s,
    };
    proof {
        assert(n >= 132);
        assert(after@.subrange(0, 4) =~= buffer@.subrange(128, 132));
    }
    let mut elements: Vec<DataElement> = Vec::new();
    let mut offset: usize = 132;
    proof {
        assert(elems_view(elements@) =~= Seq::<ElemModel>::empty());
    }
    loop
        invariant_except_break
            ({
                let tail = spec_top_elems(buffer@.skip(offset as int), dict@);
                let whole = spec_top_elems(buffer@.skip(132), dict@);
                whole == (match tail {
                    Option::None => Option::None::<Seq<ElemModel>>,
                    Option::Some(rest) => Option::Some(elems_view(elements@) + rest),
                })
            }),
        invariant
            132 <= offset <= n,
            n == buffer@.len(),
            n >= 132,
            spec_dataset(buffer@, dict@) is Some <==> spec_top_elems(buffer@.skip(132), dict@)
                is Some,
            spec_dataset(buffer@, dict@) is Some ==> spec_dataset(buffer@, dict@).unwrap().2
                == spec_top_elems(buffer@.skip(132), dict@).unwrap(),
        ensures
            spec_top_elems(buffer@.skip(132), dict@) is Some,
            elems_view(elements@) == spec_top_elems(buffer@.skip(132), dict@).unwrap(),
        decreases n - offset,
    {
        let sub = subvec(buffer, offset, n);
        proof {
            assert(sub@ =~= buffer@.skip(offset as int));
        }
        match get_data_element(&sub, dict) {
            Result::Err(e) => {
                return Result::Err(e);
            },
            Result::Ok((de, consumed)) => {
                proof {
                    lemma_elems_view_push(elements@, de);
                    if consumed < n - offset {
                        assert(buffer@.skip(offset as int).skip(consumed as int) =~= buffer@.skip(
                            offset as int + consumed as int,
                        ));
                    }
                }
                elements.push(de);
                offset = offset + consumed;
                if n - offset <= 1 {
                    break ;
                }
            },
        }
    }
    Result::Ok(Dataset { preamble, prefix, elements })
}


/// An undefined-length sequence decodes to the same elements as its
/// declared-length equivalent: when the same content is framed once by a
/// declared length and once by the 0xFFFFFFFF sentinel with the
/// sequence-delimitation marker appended, and the marker pattern does not
/// occur earlier, both framings yield the same element list.
pub proof fn lemma_undefined_length_equivalence(
    c: Seq<u8>,
    d: DictModel,
    declared: Seq<u8>,
    undef: Seq<u8>,
)
    requires
        c.len() < 0xFFFFFFFF,
        declared == vstd::bytes::spec_u32_to_le_bytes(c.len() as u32) + c,
        undef == vstd::bytes::spec_u32_to_le_bytes(0xFFFFFFFFu32) + c + seq_delim(),
        forall|j: int| 0 <= j < c.len() ==> !match_at(c + seq_delim(), seq_delim(), j),
    ensures
        spec_sq(undef, d) is Some <==> spec_sq(declared, d) is Some,
        spec_sq(undef, d) is Some ==> spec_sq(undef, d).unwrap().0 == spec_sq(
            declared,
            d,
        ).unwrap().0,
{
    vstd::bytes::lemma_auto_spec_u32_to_from_le_bytes();
    assert(seq_delim().len() == 8);
    // the declared framing
    assert(declared.subrange(0, 4) =~= vstd::bytes::spec_u32_to_le_bytes(c.len() as u32));
    assert(u32_at(declared, 0) == c.len() as u32);
    assert(declared.subrange(4, 4 + c.len() as int) =~= c);
    // the undefined framing
    assert(undef.subrange(0, 4) =~= vstd::bytes::spec_u32_to_le_bytes(0xFFFFFFFFu32));
    assert(u32_at(undef, 0) == 0xFFFFFFFFu32);
    let rest = undef.skip(4);
    assert(rest =~= c + seq_delim());
    assert(rest.subrange(c.len() as int, c.len() as int + 8) =~= seq_delim());
    assert(match_at(rest, seq_delim(), c.len() as int));
    lemma_find_marker(rest, seq_delim(), c.len() as int);
    assert(find_marker(rest, seq_delim()) == c.len() as int);
    assert(rest.take(c.len() as int) =~= c);
}

} // verus!
