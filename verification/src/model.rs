use vstd::prelude::*;

verus! {

/// One decoded value of a data element. Exactly one case is populated per
/// instance. IEEE-754 payloads are carried as their bit patterns (`Float`,
/// `Double`) or as their decimal source tokens (`Decimals`); the numeric
/// interpretation of those bits happens outside the verified core.
#[derive(Debug)]
pub enum DicomValue {
    /// Character data, decoded with the fixed national 8-bit codec and trimmed.
    Text(String),
    /// A fixed two-part string pair.
    TextPair(String, String),
    /// 32-bit floating point samples, each kept as its little-endian bit pattern.
    Float(Vec<u32>),
    /// 64-bit floating point samples, each kept as its little-endian bit pattern.
    Double(Vec<u64>),
    /// Decimal strings: the individual backslash-separated tokens.
    Decimals(Vec<String>),
    I32(Vec<i32>),
    I16(Vec<i16>),
    U32(Vec<u32>),
    U16(Vec<u16>),
    /// Opaque bytes, interpretation deferred to the consumer.
    Bytes(Vec<u8>),
    /// A sequence of items, flattened into one nested element list.
    Sequence(Vec<DataElement>),
}

/// One data element: tag, resolved human-readable name, value representation
/// code and decoded value. Immutable once constructed; a `Sequence`-valued
/// element exclusively owns its nested element list.
#[derive(Debug)]
pub struct DataElement {
    pub tag_group: String,
    pub tag_element: String,
    pub tag: String,
    pub tag_for_human: String,
    pub vr: String,
    pub data: DicomValue,
}

/// Why a decode or a reconstruction stopped. Every fatal condition of the
/// decoder surfaces as one of these, so callers decide whether to abort.
#[derive(Debug, Clone)]
pub enum DicomError {
    /// A read of `needed` bytes at `offset` would pass the end of the buffer.
    OutOfBounds { offset: usize, needed: usize },
    /// The preamble or the prefix is not valid UTF-8.
    InvalidUtf8,
    /// The value representation has no decoding rule.
    UnsupportedVr(String),
    /// A fixed-width numeric value whose length is not a multiple of the element width.
    BadValueLength { vr: String, length: usize },
    /// A decimal-string token that does not parse as a number.
    BadDecimal(String),
    /// An item of a sequence did not start with the item tag.
    InvalidItemTag(String),
    /// An undefined-length run whose delimitation marker never appears.
    DelimiterNotFound,
    /// A wildcard pattern of the tag dictionary that is not a valid expression.
    InvalidPattern(String),
    /// A required imaging attribute is absent from the dataset.
    MissingAttribute(String),
    /// A required imaging attribute is present but holds no value.
    EmptyAttribute(String),
    /// The dataset's transfer syntax is not explicit-VR little-endian.
    UnsupportedTransferSyntax(String),
    /// The photometric interpretation is neither MONOCHROME1 nor MONOCHROME2.
    UnsupportedPhotometric(String),
    /// The allocated/stored bit counts do not describe maskable 16-bit samples.
    UnsupportedBitDepth { bits_allocated: u16, bits_stored: u16 },
    /// The pixel data holds no complete sample.
    EmptyPixelData,
}

/// The mathematical shape of a decoded value: every character datum as a
/// sequence of characters, every array as a sequence of its numbers.
#[verifier::ext_equal]
pub enum ValueModel {
    Text(Seq<char>),
    TextPair(Seq<char>, Seq<char>),
    Float(Seq<u32>),
    Double(Seq<u64>),
    Decimals(Seq<Seq<char>>),
    I32(Seq<i32>),
    I16(Seq<i16>),
    U32(Seq<u32>),
    U16(Seq<u16>),
    Bytes(Seq<u8>),
    Sequence(Seq<ElemModel>),
}

/// The mathematical shape of a data element.
#[verifier::ext_equal]
pub struct ElemModel {
    pub tag_group: Seq<char>,
    pub tag_element: Seq<char>,
    pub tag: Seq<char>,
    pub tag_for_human: Seq<char>,
    pub vr: Seq<char>,
    pub data: ValueModel,
}

pub open spec fn value_view(v: DicomValue) -> ValueModel
    decreases v
        via value_view_dec
{
    match v {
        DicomValue::Text(s) => ValueModel::Text(s@),
        DicomValue::TextPair(a, b) => ValueModel::TextPair(a@, b@),
        DicomValue::Float(a) => ValueModel::Float(a@),
        DicomValue::Double(a) => ValueModel::Double(a@),
        DicomValue::Decimals(a) => ValueModel::Decimals(a@.map_values(|s: String| s@)),
        DicomValue::I32(a) => ValueModel::I32(a@),
        DicomValue::I16(a) => ValueModel::I16(a@),
        DicomValue::U32(a) => ValueModel::U32(a@),
        DicomValue::U16(a) => ValueModel::U16(a@),
        DicomValue::Bytes(a) => ValueModel::Bytes(a@),
        DicomValue::Sequence(es) => ValueModel::Sequence(elems_view(es@)),
    }
}

#[via_fn]
proof fn value_view_dec(v: DicomValue) {
    broadcast use vstd::std_specs::vec::axiom_vec_decreases_to_view, vstd::seq::axiom_seq_index_decreases;

    match v {
        DicomValue::Sequence(es) => {
            assert(decreases_to!(v => es));
            assert(decreases_to!(es => es@));
        },
        _ => {},
    }
}

/// The mathematical shape of each element of a list, in order.
pub open spec fn elems_view(es: Seq<DataElement>) -> Seq<ElemModel>
    decreases es,
{
    if es.len() == 0 {
        Seq::empty()
    } else {
        seq![elem_view(es[0])] + elems_view(es.drop_first())
    }
}

pub proof fn lemma_elems_view_push(es: Seq<DataElement>, e: DataElement)
    ensures
        elems_view(es.push(e)) == elems_view(es).push(elem_view(e)),
    decreases es.len(),
{
    lemma_elems_view(es);
    lemma_elems_view(es.push(e));
    assert(elems_view(es.push(e)) =~= elems_view(es).push(elem_view(e)));
}

pub proof fn lemma_elems_view(es: Seq<DataElement>)
    ensures
        elems_view(es).len() == es.len(),
        forall|i: int| 0 <= i < es.len() ==> elems_view(es)[i] == elem_view(es[i]),
    decreases es.len(),
{
    if es.len() > 0 {
        lemma_elems_view(es.drop_first());
    }
}

pub open spec fn elem_view(e: DataElement) -> ElemModel
    decreases e,
{
    ElemModel {
        tag_group: e.tag_group@,
        tag_element: e.tag_element@,
        tag: e.tag@,
        tag_for_human: e.tag_for_human@,
        vr: e.vr@,
        data: value_view(e.data),
    }
}

} // verus!
