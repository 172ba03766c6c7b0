//! Serialization: sample sizes, the container header, and XML escaping.

use xisf_header::{bytes_per_sample, data_size, Header, StructuralHints, OFFSET_WIDTH};

fn hints(geometry: &str, sample_format: &str) -> StructuralHints {
    StructuralHints {
        geometry: geometry.to_owned(),
        sample_format: sample_format.to_owned(),
        color_space: "Gray".to_owned(),
    }
}

#[test]
fn bytes_per_sample_matrix() {
    for (format, bytes) in [
        ("UInt8", 1),
        ("Int8", 1),
        ("UInt16", 2),
        ("Int16", 2),
        ("UInt32", 4),
        ("Int32", 4),
        ("Float32", 4),
        ("UInt64", 8),
        ("Int64", 8),
        ("Float64", 8),
        ("Complex32", 8),
        ("Complex64", 16),
        ("SomethingElse", 1),
    ] {
        assert_eq!(bytes_per_sample(format), bytes, "{format}");
    }
}

#[test]
fn data_size_from_geometry() {
    assert_eq!(data_size(&hints("1:1:1", "UInt8")), 1);
    assert_eq!(data_size(&hints("100:100:3", "Float32")), 120_000);
    assert_eq!(data_size(&hints("16:16:1", "UInt16")), 512);
    // Malformed or zero geometry falls back to a single sample.
    assert_eq!(data_size(&hints("abc", "UInt8")), 1);
    assert_eq!(data_size(&hints("0:0:0", "Float32")), 4);
    assert_eq!(data_size(&hints("", "UInt8")), 1);
}

#[test]
fn header_only_output_has_no_data_block() {
    let h = Header::new();
    let hints = StructuralHints::default();
    let bytes = h.to_header_bytes(&hints);
    let xml_len = u32::from_le_bytes([bytes[8], bytes[9], bytes[10], bytes[11]]) as usize;
    assert_eq!(bytes.len(), 16 + xml_len);
}

#[test]
fn attachment_offset_is_fixed_width_and_correct() {
    let h = Header::new();
    let bytes = h.to_header_bytes(&StructuralHints::default());
    let xml_len = u32::from_le_bytes([bytes[8], bytes[9], bytes[10], bytes[11]]) as usize;
    let xml = std::str::from_utf8(&bytes[16..16 + xml_len]).unwrap();
    let offset = format!("{:0width$}", 16 + xml_len, width = OFFSET_WIDTH);
    assert!(
        xml.contains(&format!("attachment:{offset}:")),
        "location must point right past the header: {xml}"
    );
}

#[test]
fn xml_special_characters_round_trip() {
    let mut h = Header::new();
    h.set("OBJECT", "a<b&\"c'd").unwrap();
    h.set_comment("OBJECT", "less < & \"quoted\"").unwrap();
    h.set_property("Notes:Text", "x<y&z").unwrap();
    let parsed = Header::parse(&h.to_header_bytes(&StructuralHints::default())).unwrap();
    assert_eq!(parsed, h);
    assert_eq!(parsed.get_str("OBJECT").unwrap(), Some("a<b&\"c'd"));
    assert_eq!(parsed.property("Notes:Text"), Some("x<y&z"));
}

#[test]
fn empty_header_round_trips() {
    let h = Header::new();
    let parsed = Header::parse(&h.to_header_bytes(&StructuralHints::default())).unwrap();
    assert_eq!(parsed, h);
}

#[test]
fn commentary_keywords_serialize_as_empty_value_with_comment_text() {
    let mut h = Header::new();
    h.append("HISTORY", "reduced with siril").unwrap();
    h.append("COMMENT", "processed in PixInsight").unwrap();
    let bytes = h.to_header_bytes(&StructuralHints::default());
    let xml = std::str::from_utf8(&bytes[16..]).unwrap();

    assert!(
        xml.contains(r#"name="HISTORY" value="" comment="reduced with siril""#),
        "xml: {xml}"
    );
    assert!(
        xml.contains(r#"name="COMMENT" value="" comment="processed in PixInsight""#),
        "xml: {xml}"
    );
    assert!(!xml.contains("&apos;reduced with siril&apos;"));
    assert!(!xml.contains("&apos;processed in PixInsight&apos;"));
}

#[test]
fn non_commentary_keywords_are_unaffected() {
    let mut h = Header::new();
    h.set("OBJECT", "M31").unwrap();
    h.set("GAIN", 100_i64).unwrap();
    let bytes = h.to_header_bytes(&StructuralHints::default());
    let xml = std::str::from_utf8(&bytes[16..]).unwrap();

    assert!(
        xml.contains(r#"name="OBJECT" value="&apos;M31&apos;""#),
        "{xml}"
    );
    assert!(xml.contains(r#"name="GAIN" value="100""#), "{xml}");
}

// ----- further cases ---------------------------------------------------------------

#[test]
fn empty_header_renders_exactly() {
    let bytes = Header::new().to_header_bytes(&StructuralHints::default());
    let xml = std::str::from_utf8(&bytes[16..]).unwrap();
    let expected_len = 212;
    let offset = format!("{:012}", 16 + expected_len);
    let expected = format!(
        "<?xml version=\"1.0\" encoding=\"UTF-8\"?><xisf version=\"1.0\" xmlns=\"http://www.pixinsight.com/xisf\"><Image geometry=\"1:1:1\" sampleFormat=\"UInt8\" colorSpace=\"Gray\" location=\"attachment:{offset}:1\"></Image></xisf>"
    );
    assert_eq!(xml, expected);
    assert_eq!(xml.len(), expected_len);
    assert_eq!(&bytes[..8], b"XISF0100");
    assert_eq!(&bytes[8..12], &(expected_len as u32).to_le_bytes());
    assert_eq!(&bytes[12..16], &[0, 0, 0, 0]);
}

#[test]
fn property_attributes_are_ordered_and_optional() {
    let mut h = Header::new();
    h.set_property_with_type("A:B", "1", "Int32").unwrap();
    let bytes = h.to_header_bytes(&StructuralHints::default());
    let xml = std::str::from_utf8(&bytes[16..]).unwrap();
    assert!(xml.contains(r#"<Property id="A:B" type="Int32" value="1"/>"#), "{xml}");
}

#[test]
fn whitespace_in_values_is_escaped() {
    let mut h = Header::new();
    h.set("NOTE", "a\tb\nc\rd").unwrap();
    let bytes = h.to_header_bytes(&StructuralHints::default());
    let xml = std::str::from_utf8(&bytes[16..]).unwrap();
    assert!(xml.contains("value=\"&apos;a&#9;b&#10;c&#13;d&apos;\""), "{xml}");
    let parsed = Header::parse(&bytes).unwrap();
    assert_eq!(parsed.get_str("NOTE").unwrap(), Some("a\tb\nc\rd"));
}

#[test]
fn data_size_saturates_and_trims() {
    assert_eq!(data_size(&hints(" 2 : 3 ", "UInt16")), 12);
    assert_eq!(data_size(&hints("+4:2", "UInt8")), 8);
    assert_eq!(data_size(&hints("2:-3", "UInt8")), 1);
    assert_eq!(
        data_size(&hints("4294967296:4294967295", "Complex64")),
        usize::MAX
    );
}

#[test]
fn geometry_fits_check_tells_when_the_product_overflows() {
    assert!(xisf_header::geometry_fits_check("6248:4176:1"));
    assert!(xisf_header::geometry_fits_check("not a geometry"));
    assert!(!xisf_header::geometry_fits_check("4294967296:4294967296:2"));
    assert!(xisf_header::geometry_fits_check("0:4294967296:4294967296"));
}
