use dicomlite::decode::{get_data_element, parse_sq_data, read_dataset};
use dicomlite::model::{DicomError, DicomValue};
use dicomlite::util::TagDictionary;

fn le16(x: u16) -> Vec<u8> {
    vec![(x & 0xFF) as u8, (x >> 8) as u8]
}

fn le32(x: u32) -> Vec<u8> {
    vec![
        (x & 0xFF) as u8,
        ((x >> 8) & 0xFF) as u8,
        ((x >> 16) & 0xFF) as u8,
        ((x >> 24) & 0xFF) as u8,
    ]
}

/// One nested element: tag (0010,0010), VR US, length 2, value 42.
fn nested_element_bytes() -> Vec<u8> {
    let mut b = Vec::new();
    b.extend_from_slice(&[0x10, 0x00, 0x10, 0x00]);
    b.extend_from_slice(b"US");
    b.extend_from_slice(&le16(2));
    b.extend_from_slice(&le16(42));
    b
}

/// An item holding the nested element, with a declared item length.
fn item_bytes() -> Vec<u8> {
    let mut b = Vec::new();
    b.extend_from_slice(&[0xFE, 0xFF, 0x00, 0xE0]);
    b.extend_from_slice(&le32(nested_element_bytes().len() as u32));
    b.extend_from_slice(&nested_element_bytes());
    b
}

/// A whole SQ element around the given sequence payload.
fn sq_element_bytes(payload: &[u8]) -> Vec<u8> {
    let mut b = Vec::new();
    b.extend_from_slice(&[0x08, 0x00, 0x00, 0x00]);
    b.extend_from_slice(b"SQ");
    b.extend_from_slice(&[0x00, 0x00]);
    b.extend_from_slice(payload);
    b
}

fn check_sequence_value(v: &DicomValue) {
    match v {
        DicomValue::Sequence(es) => {
            assert_eq!(es.len(), 1);
            assert_eq!(es[0].tag, "0010,0010");
            assert_eq!(es[0].tag_group, "0010");
            assert_eq!(es[0].tag_element, "0010");
            assert_eq!(es[0].vr, "US");
            assert_eq!(es[0].tag_for_human, "unknown");
            assert!(matches!(es[0].data, DicomValue::U16(ref a) if *a == vec![42u16]));
        }
        _ => panic!("expected a sequence value"),
    }
}

#[test]
fn tag_rendering_is_big_endian_hex_of_le_words() {
    // group 0x0002, element 0x0004 on the wire
    let mut b = vec![0x02, 0x00, 0x04, 0x00];
    b.extend_from_slice(b"UL");
    b.extend_from_slice(&le16(4));
    b.extend_from_slice(&le32(7));
    let dict = TagDictionary::empty();
    let (e, used) = get_data_element(&b, &dict).unwrap();
    assert_eq!(e.tag, "0002,0004");
    assert_eq!(e.tag_group, "0002");
    assert_eq!(e.tag_element, "0004");
    assert_eq!(used, 12);
    assert!(matches!(e.data, DicomValue::U32(ref a) if *a == vec![7u32]));
}

#[test]
fn declared_length_sequence_round_trip() {
    let item = item_bytes();
    let mut payload = le32(item.len() as u32);
    payload.extend_from_slice(&item);
    let b = sq_element_bytes(&payload);
    let dict = TagDictionary::empty();
    let (e, used) = get_data_element(&b, &dict).unwrap();
    assert_eq!(e.vr, "SQ");
    assert_eq!(used, b.len());
    check_sequence_value(&e.data);
}

#[test]
fn undefined_length_sequence_matches_declared_decode() {
    let item = item_bytes();
    let mut undef_payload = le32(0xFFFFFFFF);
    undef_payload.extend_from_slice(&item);
    undef_payload.extend_from_slice(&[0xFE, 0xFF, 0xDD, 0xE0, 0x00, 0x00, 0x00, 0x00]);

    let mut declared_payload = le32(item.len() as u32);
    declared_payload.extend_from_slice(&item);

    let dict = TagDictionary::empty();
    let (vu, cu) = parse_sq_data(&undef_payload, &dict).unwrap();
    let (vd, _cd) = parse_sq_data(&declared_payload, &dict).unwrap();
    assert_eq!(cu, undef_payload.len());
    check_sequence_value(&vu);
    check_sequence_value(&vd);
}

#[test]
fn undefined_length_without_marker_is_fatal() {
    let item = item_bytes();
    let mut payload = le32(0xFFFFFFFF);
    payload.extend_from_slice(&item);
    let dict = TagDictionary::empty();
    let e = parse_sq_data(&payload, &dict).unwrap_err();
    assert!(matches!(e, DicomError::DelimiterNotFound));
}

#[test]
fn item_with_wrong_tag_is_fatal() {
    let mut payload = le32(12);
    payload.extend_from_slice(&[0xAA, 0xBB, 0xCC, 0xDD]);
    payload.extend_from_slice(&le32(0));
    payload.extend_from_slice(&[0, 0, 0, 0]);
    let dict = TagDictionary::empty();
    let e = parse_sq_data(&payload, &dict).unwrap_err();
    assert!(matches!(e, DicomError::InvalidItemTag(ref s) if s != "FFFEE000"));
}

#[test]
fn unrecognized_vr_takes_the_fallback_path() {
    // VR "ZZ": a 4-byte length follows the code, and the value is read from
    // the length field's own position; only the six header bytes count as
    // consumed.
    let mut b = vec![0x01, 0x00, 0x02, 0x00];
    b.extend_from_slice(b"ZZ");
    b.extend_from_slice(&le32(2));
    let dict = TagDictionary::empty();
    let (e, used) = get_data_element(&b, &dict).unwrap();
    assert_eq!(e.vr, "implicit");
    assert_eq!(used, 6);
    assert!(matches!(e.data, DicomValue::Bytes(ref a) if *a == vec![0x02u8, 0x00u8]));
}

#[test]
fn truncated_element_is_fatal() {
    let dict = TagDictionary::empty();
    let e = get_data_element(&vec![0x01, 0x00], &dict).unwrap_err();
    assert!(matches!(e, DicomError::OutOfBounds { .. }));
}

#[test]
fn read_dataset_walks_the_whole_body() {
    let mut file = vec![b' '; 128];
    file.extend_from_slice(b"DICM");
    let mut elem = vec![0x02, 0x00, 0x04, 0x00];
    elem.extend_from_slice(b"UL");
    elem.extend_from_slice(&le16(4));
    elem.extend_from_slice(&le32(7));
    file.extend_from_slice(&elem);
    let dict = TagDictionary::empty();
    let ds = read_dataset(&file, &dict).unwrap();
    assert_eq!(ds.preamble.len(), 128);
    assert_eq!(ds.prefix, "DICM");
    assert_eq!(ds.elements.len(), 1);
    assert_eq!(ds.elements[0].tag, "0002,0004");
}

#[test]
fn read_dataset_rejects_invalid_preamble() {
    let mut file = vec![0xFFu8; 128];
    file.extend_from_slice(b"DICM");
    let dict = TagDictionary::empty();
    let e = read_dataset(&file, &dict).unwrap_err();
    assert!(matches!(e, DicomError::InvalidUtf8));
}

#[test]
fn read_dataset_rejects_short_files() {
    let dict = TagDictionary::empty();
    let e = read_dataset(&vec![0u8; 64], &dict).unwrap_err();
    assert!(matches!(e, DicomError::OutOfBounds { .. }));
}

#[test]
fn empty_declared_length_sequence_has_no_items() {
    let payload = le32(0);
    let dict = TagDictionary::empty();
    let (v, used) = parse_sq_data(&payload, &dict).unwrap();
    assert_eq!(used, 4);
    assert!(matches!(v, DicomValue::Sequence(ref es) if es.is_empty()));
}

#[test]
fn undefined_length_item_ends_at_item_delimiter() {
    let mut content = Vec::new();
    content.extend_from_slice(&[0xFE, 0xFF, 0x00, 0xE0]);
    content.extend_from_slice(&le32(0xFFFFFFFF));
    content.extend_from_slice(&nested_element_bytes());
    content.extend_from_slice(&[0xFE, 0xFF, 0x0D, 0xE0, 0x00, 0x00, 0x00, 0x00]);
    let mut payload = le32(content.len() as u32);
    payload.extend_from_slice(&content);
    let dict = TagDictionary::empty();
    let (v, used) = parse_sq_data(&payload, &dict).unwrap();
    assert_eq!(used, payload.len());
    check_sequence_value(&v);
}

#[test]
fn sequences_nest_recursively() {
    let inner_item = item_bytes();
    let mut inner_payload = le32(inner_item.len() as u32);
    inner_payload.extend_from_slice(&inner_item);
    let mut inner_sq = vec![0x08, 0x00, 0x40, 0x11];
    inner_sq.extend_from_slice(b"SQ");
    inner_sq.extend_from_slice(&[0x00, 0x00]);
    inner_sq.extend_from_slice(&inner_payload);

    let mut outer_item = Vec::new();
    outer_item.extend_from_slice(&[0xFE, 0xFF, 0x00, 0xE0]);
    outer_item.extend_from_slice(&le32(inner_sq.len() as u32));
    outer_item.extend_from_slice(&inner_sq);
    let mut outer_payload = le32(outer_item.len() as u32);
    outer_payload.extend_from_slice(&outer_item);

    let dict = TagDictionary::empty();
    let (v, used) = parse_sq_data(&outer_payload, &dict).unwrap();
    assert_eq!(used, outer_payload.len());
    match v {
        DicomValue::Sequence(es) => {
            assert_eq!(es.len(), 1);
            assert_eq!(es[0].tag, "0008,1140");
            assert_eq!(es[0].vr, "SQ");
            check_sequence_value(&es[0].data);
        }
        _ => panic!("expected a sequence value"),
    }
}

#[test]
fn long_vr_header_reads_four_byte_length() {
    // pixel-data tag (7FE0,0010), VR OW: two reserved bytes then a 4-byte length
    let mut b = vec![0xE0, 0x7F, 0x10, 0x00];
    b.extend_from_slice(b"OW");
    b.extend_from_slice(&[0x00, 0x00]);
    b.extend_from_slice(&le32(4));
    b.extend_from_slice(&[1, 2, 3, 4]);
    let dict = TagDictionary::empty();
    let (e, used) = get_data_element(&b, &dict).unwrap();
    assert_eq!(e.tag, "7FE0,0010");
    assert_eq!(e.vr, "OW");
    assert_eq!(used, 16);
    assert!(matches!(e.data, DicomValue::Bytes(ref a) if *a == vec![1u8, 2, 3, 4]));
}

#[test]
fn element_names_resolve_through_the_dictionary() {
    let mut b = vec![0x02, 0x00, 0x04, 0x00];
    b.extend_from_slice(b"UL");
    b.extend_from_slice(&le16(4));
    b.extend_from_slice(&le32(7));
    let dict = TagDictionary::new(
        vec![("0002,0004".to_string(), "Known Attribute".to_string())],
        Vec::new(),
    );
    let (e, _) = get_data_element(&b, &dict).unwrap();
    assert_eq!(e.tag_for_human, "Known Attribute");
}

#[test]
fn decimal_string_element_keeps_its_tokens() {
    let mut b = vec![0x28, 0x00, 0x50, 0x10];
    b.extend_from_slice(b"DS");
    b.extend_from_slice(&le16(8));
    b.extend_from_slice(b"100\\-0.5");
    let dict = TagDictionary::empty();
    let (e, used) = get_data_element(&b, &dict).unwrap();
    assert_eq!(e.tag, "0028,1050");
    assert_eq!(used, 16);
    assert!(matches!(
        e.data,
        DicomValue::Decimals(ref t) if *t == vec!["100".to_string(), "-0.5".to_string()]
    ));
}
