use dicomlite::decode::{get_preamble, get_prefix};
use dicomlite::model::{DataElement, DicomError, DicomValue};
use dicomlite::util::{
    get_data_element_via_tag, get_tag_human_name, get_vr_values, process_vec_to_tag,
    process_vec_to_vr, swap_every_two_bytes, swap_every_two_bytes_and_echo_string, vr_mapping,
    TagDictionary,
};

#[test]
fn hex_rendering_is_uppercase_two_digits_per_byte() {
    assert_eq!(process_vec_to_tag(&vec![0x00, 0x02]), "0002");
    assert_eq!(process_vec_to_tag(&vec![0xAB]), "AB");
    assert_eq!(process_vec_to_tag(&Vec::new()), "");
}

#[test]
fn vr_rendering_maps_bytes_to_characters() {
    assert_eq!(process_vec_to_vr(&vec![85, 76]), "UL");
    assert_eq!(process_vec_to_vr(&vec![83, 81]), "SQ");
}

#[test]
fn swap_exchanges_pairs_and_keeps_odd_tail() {
    assert_eq!(swap_every_two_bytes(&vec![1, 2, 3, 4]), vec![2, 1, 4, 3]);
    assert_eq!(swap_every_two_bytes(&vec![1, 2, 3]), vec![2, 1, 3]);
    assert_eq!(swap_every_two_bytes(&Vec::new()), Vec::<u8>::new());
}

#[test]
fn swap_and_echo_renders_the_item_tag() {
    let s = swap_every_two_bytes_and_echo_string(&vec![0xFE, 0xFF, 0x00, 0xE0]);
    assert_eq!(s, "FFFEE000");
}

#[test]
fn vr_tables_cover_the_recognized_set() {
    let codes = get_vr_values();
    assert_eq!(codes.len(), 28);
    assert!(codes.contains(&"UL".to_string()));
    assert!(codes.contains(&"SQ".to_string()));
    assert!(!codes.contains(&"ZZ".to_string()));
    let table = vr_mapping();
    assert_eq!(table.len(), 28);
    assert_eq!(table[0].0, "AE");
    assert_eq!(table[0].1, "Application Entity");
}

fn tagged(tag: &str, n: u16) -> DataElement {
    DataElement {
        tag_group: tag[..4].to_string(),
        tag_element: tag[5..].to_string(),
        tag: tag.to_string(),
        tag_for_human: "unknown".to_string(),
        vr: "US".to_string(),
        data: DicomValue::U16(vec![n]),
    }
}

#[test]
fn tag_lookup_returns_the_first_match() {
    let es = vec![tagged("0002,0001", 1), tagged("0002,0002", 2), tagged("0002,0001", 3)];
    let found = get_data_element_via_tag(&es, "0002,0001".to_string()).unwrap();
    assert!(matches!(found.data, DicomValue::U16(ref v) if *v == vec![1u16]));
    assert!(get_data_element_via_tag(&es, "0002,0009".to_string()).is_none());
}

#[test]
fn dictionary_resolves_exact_before_partial() {
    let dict = TagDictionary::new(
        vec![("0002,0001".to_string(), "Exact Name".to_string())],
        vec![("0002,00\\w\\w".to_string(), "Partial Name".to_string())],
    );
    let exact = get_tag_human_name(&dict, &"0002,0001".to_string()).unwrap();
    assert_eq!(exact, "Exact Name");
    let partial = get_tag_human_name(&dict, &"0002,0042".to_string()).unwrap();
    assert_eq!(partial, "Partial Name");
    let unknown = get_tag_human_name(&dict, &"0004,0000".to_string()).unwrap();
    assert_eq!(unknown, "unknown");
}

#[test]
fn dictionary_reports_a_broken_pattern() {
    let dict = TagDictionary::new(
        Vec::new(),
        vec![("(".to_string(), "Broken".to_string())],
    );
    let e = get_tag_human_name(&dict, &"0004,0000".to_string()).unwrap_err();
    assert!(matches!(e, DicomError::InvalidPattern(ref p) if p == "("));
}

#[test]
fn preamble_needs_utf8_and_128_bytes() {
    let mut buf = vec![b'x'; 200];
    let (p, used) = get_preamble(&buf).unwrap();
    assert_eq!(used, 128);
    assert_eq!(p.len(), 128);
    buf[5] = 0xFF;
    assert!(matches!(get_preamble(&buf).unwrap_err(), DicomError::InvalidUtf8));
    assert!(matches!(
        get_preamble(&vec![0u8; 100]).unwrap_err(),
        DicomError::OutOfBounds { .. }
    ));
}

#[test]
fn prefix_reads_four_bytes() {
    let buf = b"DICMxxxx".to_vec();
    let (p, used) = get_prefix(&buf).unwrap();
    assert_eq!(p, "DICM");
    assert_eq!(used, 4);
}
