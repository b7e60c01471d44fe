use dicomlite::image::{generate_image, invert_monochrome1, Photometric, RealParam};
use dicomlite::model::{DataElement, DicomError, DicomValue};

fn elem(tag: &str, data: DicomValue) -> DataElement {
    DataElement {
        tag_group: tag[..4].to_string(),
        tag_element: tag[5..].to_string(),
        tag: tag.to_string(),
        tag_for_human: "unknown".to_string(),
        vr: String::new(),
        data,
    }
}

fn decimals(vals: &[&str]) -> DicomValue {
    DicomValue::Decimals(vals.iter().map(|v| v.to_string()).collect())
}

fn full_dataset() -> Vec<DataElement> {
    vec![
        elem("0002,0010", DicomValue::Text("1.2.840.10008.1.2.1".to_string())),
        elem("0028,0010", DicomValue::U16(vec![2])),
        elem("0028,0011", DicomValue::U16(vec![2])),
        elem("0028,0004", DicomValue::Text("MONOCHROME2".to_string())),
        elem("0028,0100", DicomValue::U16(vec![16])),
        elem("0028,0101", DicomValue::U16(vec![12])),
        elem("0028,1050", decimals(&["100"])),
        elem("0028,1051", decimals(&["50"])),
        elem("0028,1052", decimals(&["0"])),
        elem("0028,1053", decimals(&["1"])),
        elem(
            "7FE0,0010",
            DicomValue::Bytes(vec![0xFF, 0x01, 0x34, 0x02, 0x00, 0x00, 0x10, 0x00]),
        ),
    ]
}

#[test]
fn generate_image_unpacks_and_masks_samples() {
    let task = generate_image(&full_dataset()).unwrap();
    assert_eq!(task.rows, 2);
    assert_eq!(task.columns, 2);
    assert!(matches!(task.photometric, Photometric::Monochrome2));
    // mask is 0xFF << (8 - (16 - 12)) = 0xF0, applied to the low byte
    assert_eq!(task.samples, vec![0xF0 + 256, 0x30 + 512, 0, 0x10]);
    assert_eq!(task.data_min, 0);
    assert_eq!(task.data_max, 0x30 + 512);
    assert!(matches!(task.window_center, RealParam::Token(ref t) if t == "100"));
    assert!(matches!(task.rescale_slope, RealParam::Token(ref t) if t == "1"));
}

#[test]
fn transfer_syntax_gate_aborts_reconstruction() {
    let mut es = full_dataset();
    es[0] = elem("0002,0010", DicomValue::Text("1.2.840.10008.1.2".to_string()));
    let e = generate_image(&es).unwrap_err();
    assert!(matches!(e, DicomError::UnsupportedTransferSyntax(ref s) if s == "1.2.840.10008.1.2"));
}

#[test]
fn missing_transfer_syntax_is_fatal() {
    let es: Vec<DataElement> = full_dataset().into_iter().skip(1).collect();
    let e = generate_image(&es).unwrap_err();
    assert!(matches!(e, DicomError::MissingAttribute(ref t) if t == "0002,0010"));
}

#[test]
fn non_text_transfer_syntax_passes_the_gate() {
    let mut es = full_dataset();
    es[0] = elem("0002,0010", DicomValue::U16(vec![1]));
    assert!(generate_image(&es).is_ok());
}

#[test]
fn missing_required_attribute_is_fatal() {
    let es: Vec<DataElement> = full_dataset()
        .into_iter()
        .filter(|e| e.tag != "0028,1050")
        .collect();
    let e = generate_image(&es).unwrap_err();
    assert!(matches!(e, DicomError::MissingAttribute(ref t) if t == "0028,1050"));
}

#[test]
fn wrong_shaped_attribute_defaults_to_zero() {
    let mut es = full_dataset();
    es[1] = elem("0028,0010", DicomValue::Text("2".to_string()));
    let task = generate_image(&es).unwrap();
    assert_eq!(task.rows, 0);
}

#[test]
fn equal_bit_counts_are_unsupported() {
    let mut es = full_dataset();
    es[5] = elem("0028,0101", DicomValue::U16(vec![16]));
    let e = generate_image(&es).unwrap_err();
    assert!(matches!(e, DicomError::UnsupportedBitDepth { .. }));
}

#[test]
fn unknown_photometric_interpretation_is_fatal() {
    let mut es = full_dataset();
    es[3] = elem("0028,0004", DicomValue::Text("RGB".to_string()));
    let e = generate_image(&es).unwrap_err();
    assert!(matches!(e, DicomError::UnsupportedPhotometric(ref s) if s == "RGB"));
}

#[test]
fn empty_pixel_data_is_fatal() {
    let mut es = full_dataset();
    let last = es.len() - 1;
    es[last] = elem("7FE0,0010", DicomValue::Bytes(Vec::new()));
    let e = generate_image(&es).unwrap_err();
    assert!(matches!(e, DicomError::EmptyPixelData));
}

#[test]
fn monochrome1_inversion_subtracts_from_maximum() {
    let inverted = invert_monochrome1(&vec![0u8, 128, 255]);
    assert_eq!(inverted, vec![255u8, 127, 0]);
}

#[test]
fn inversion_uses_the_actual_maximum() {
    let inverted = invert_monochrome1(&vec![10u8, 200, 40]);
    assert_eq!(inverted, vec![190u8, 0, 160]);
}

#[test]
fn duplicate_tags_resolve_to_the_first() {
    let mut es = full_dataset();
    es.push(elem("0028,0010", DicomValue::U16(vec![99])));
    let task = generate_image(&es).unwrap();
    assert_eq!(task.rows, 2);
}
