use dicomlite::decode::parse_data;
use dicomlite::model::{DicomError, DicomValue};

fn ds(bytes: &[u8]) -> Result<DicomValue, DicomError> {
    parse_data(&bytes.to_vec(), &"DS".to_string(), bytes.len())
}

#[test]
fn ul_decodes_little_endian_words() {
    let buf: Vec<u8> = vec![0x01, 0x00, 0x00, 0x00, 0x02, 0x00, 0x00, 0x00];
    let v = parse_data(&buf, &"UL".to_string(), 8).unwrap();
    assert!(matches!(v, DicomValue::U32(ref a) if *a == vec![1u32, 2u32]));
}

#[test]
fn ul_rejects_length_not_multiple_of_four() {
    let buf: Vec<u8> = vec![0x01, 0x00, 0x00, 0x00, 0x02, 0x00];
    let e = parse_data(&buf, &"UL".to_string(), 6).unwrap_err();
    assert!(matches!(e, DicomError::BadValueLength { .. }));
}

#[test]
fn ul_rejects_window_past_buffer_end() {
    let buf: Vec<u8> = vec![0x01, 0x00, 0x00, 0x00];
    let e = parse_data(&buf, &"UL".to_string(), 8).unwrap_err();
    assert!(matches!(e, DicomError::OutOfBounds { .. }));
}

#[test]
fn us_decodes_little_endian_halfwords() {
    let buf: Vec<u8> = vec![0x34, 0x12, 0xFF, 0xFF];
    let v = parse_data(&buf, &"US".to_string(), 4).unwrap();
    assert!(matches!(v, DicomValue::U16(ref a) if *a == vec![0x1234u16, 0xFFFFu16]));
}

#[test]
fn us_rejects_odd_length() {
    let buf: Vec<u8> = vec![0x34, 0x12, 0xFF];
    let e = parse_data(&buf, &"US".to_string(), 3).unwrap_err();
    assert!(matches!(e, DicomError::BadValueLength { .. }));
}

#[test]
fn ss_decodes_negative_values() {
    let buf: Vec<u8> = vec![0xFF, 0xFF, 0x00, 0x80];
    let v = parse_data(&buf, &"SS".to_string(), 4).unwrap();
    assert!(matches!(v, DicomValue::I16(ref a) if *a == vec![-1i16, i16::MIN]));
}

#[test]
fn sl_decodes_negative_values() {
    let buf: Vec<u8> = vec![0xFE, 0xFF, 0xFF, 0xFF];
    let v = parse_data(&buf, &"SL".to_string(), 4).unwrap();
    assert!(matches!(v, DicomValue::I32(ref a) if *a == vec![-2i32]));
}

#[test]
fn fl_yields_float_bit_patterns() {
    let buf: Vec<u8> = vec![0x00, 0x00, 0x80, 0x3F];
    let v = parse_data(&buf, &"FL".to_string(), 4).unwrap();
    assert!(matches!(v, DicomValue::Float(ref a) if *a == vec![1.0f32.to_bits()]));
}

#[test]
fn fd_yields_double_bit_patterns() {
    let mut buf: Vec<u8> = Vec::new();
    for b in 1.5f64.to_le_bytes() {
        buf.push(b);
    }
    let v = parse_data(&buf, &"FD".to_string(), 8).unwrap();
    assert!(matches!(v, DicomValue::Double(ref a) if *a == vec![1.5f64.to_bits()]));
}

#[test]
fn fd_rejects_length_not_multiple_of_eight() {
    let buf: Vec<u8> = vec![0u8; 12];
    let e = parse_data(&buf, &"FD".to_string(), 12).unwrap_err();
    assert!(matches!(e, DicomError::BadValueLength { .. }));
}

#[test]
fn ds_splits_backslash_tokens() {
    let v = ds(b"1.5\\2.5").unwrap();
    match v {
        DicomValue::Decimals(t) => {
            assert_eq!(t, vec!["1.5".to_string(), "2.5".to_string()]);
            assert_eq!(t[0].parse::<f64>().unwrap(), 1.5);
        }
        _ => panic!("expected decimal tokens"),
    }
}

#[test]
fn ds_trims_surrounding_whitespace() {
    let v = ds(b"  -42 ").unwrap();
    assert!(matches!(v, DicomValue::Decimals(ref t) if *t == vec!["-42".to_string()]));
}

#[test]
fn ds_accepts_exponents_dots_and_words() {
    for tok in ["1e5", "-.5", "5.", "+inf", "NaN", "Infinity", "1.25E-3"] {
        let v = ds(tok.as_bytes()).unwrap();
        match v {
            DicomValue::Decimals(t) => {
                assert_eq!(t.len(), 1);
                assert!(t[0].parse::<f64>().is_ok());
            }
            _ => panic!("expected decimal tokens"),
        }
    }
}

#[test]
fn ds_rejects_malformed_tokens() {
    for tok in ["abc", "1e", ".", "--1", "1.5 2", "", "1..2"] {
        let e = ds(tok.as_bytes()).unwrap_err();
        assert!(matches!(e, DicomError::BadDecimal(_)), "token {:?}", tok);
        assert!(tok.parse::<f64>().is_err(), "token {:?}", tok);
    }
}

#[test]
fn ow_keeps_bytes_verbatim() {
    let buf: Vec<u8> = vec![9, 8, 7, 6];
    let v = parse_data(&buf, &"OW".to_string(), 3).unwrap();
    assert!(matches!(v, DicomValue::Bytes(ref a) if *a == vec![9u8, 8u8, 7u8]));
}

#[test]
fn text_is_trimmed_and_nul_stripped() {
    let buf: Vec<u8> = b"ABC\0".to_vec();
    let v = parse_data(&buf, &"CS".to_string(), 4).unwrap();
    assert!(matches!(v, DicomValue::Text(ref s) if s == "ABC"));
    let buf2: Vec<u8> = b"  UI VALUE  ".to_vec();
    let v2 = parse_data(&buf2, &"UI".to_string(), 12).unwrap();
    assert!(matches!(v2, DicomValue::Text(ref s) if s == "UI VALUE"));
}

#[test]
fn text_uses_the_fixed_national_codec() {
    // 0xC4 0xE3 is one CJK character under the fixed codec, not valid UTF-8
    let buf: Vec<u8> = vec![0xC4, 0xE3];
    let v = parse_data(&buf, &"LO".to_string(), 2).unwrap();
    match v {
        DicomValue::Text(s) => {
            let (expected, _, _) = encoding_rs::GBK.decode(&[0xC4, 0xE3]);
            assert_eq!(s, expected);
            assert_eq!(s.chars().count(), 1);
        }
        _ => panic!("expected text"),
    }
}

#[test]
fn unsupported_vrs_are_fatal() {
    for vr in ["OD", "OF", "UT", "ZZ", "SQ"] {
        let e = parse_data(&vec![0u8; 8], &vr.to_string(), 8).unwrap_err();
        assert!(matches!(e, DicomError::UnsupportedVr(_)), "vr {:?}", vr);
    }
}
