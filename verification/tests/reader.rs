//! Parsing: the preamble, keyword and property extraction.

use xisf_header::XisfError as Error;
use xisf_header::{classify_value, split_preamble, Header, Value, MAX_HEADER_LEN};

/// Wrap XML in a valid preamble, with explicit reserved bytes.
fn container(xml: &str, reserved: [u8; 4]) -> Vec<u8> {
    let mut out = Vec::new();
    out.extend_from_slice(b"XISF0100");
    out.extend_from_slice(&(u32::try_from(xml.len()).unwrap()).to_le_bytes());
    out.extend_from_slice(&reserved);
    out.extend_from_slice(xml.as_bytes());
    out
}

#[test]
fn classify_quoted_and_bare() {
    assert_eq!(classify_value("'M31'"), Value::Str("M31".to_owned()));
    assert_eq!(classify_value("''"), Value::Str(String::new()));
    // One quote layer is stripped, inner quotes stay.
    assert_eq!(classify_value("'''"), Value::Str("'".to_owned()));
    assert_eq!(classify_value("300"), Value::Literal("300".to_owned()));
    assert_eq!(classify_value("'"), Value::Literal("'".to_owned()));
    assert_eq!(classify_value(""), Value::Literal(String::new()));
}

#[test]
fn too_small_preamble() {
    assert!(matches!(
        Header::parse(b"XISF01"),
        Err(Error::TooSmall { needed: 16, got: 6 })
    ));
}

#[test]
fn too_small_for_declared_length() {
    let mut bytes = container("<xisf/>", [0; 4]);
    bytes[8..12].copy_from_slice(&100_u32.to_le_bytes()); // declare more than present
    assert!(matches!(
        Header::parse(&bytes),
        Err(Error::TooSmall { needed: 116, .. })
    ));
}

#[test]
fn header_too_large_is_rejected() {
    let mut bytes = container("<xisf/>", [0; 4]);
    let over = u32::try_from(MAX_HEADER_LEN + 1).unwrap();
    bytes[8..12].copy_from_slice(&over.to_le_bytes());
    assert!(matches!(
        Header::parse(&bytes),
        Err(Error::HeaderTooLarge { max, .. }) if max == MAX_HEADER_LEN
    ));
}

#[test]
fn invalid_utf8_is_rejected() {
    let mut bytes = container("<xisf></xisf>", [0; 4]);
    bytes[20] = 0xFF;
    assert!(matches!(Header::parse(&bytes), Err(Error::Utf8(_))));
}

#[test]
fn reader_malformed_xml_is_rejected() {
    let bytes = container("<xisf><Image></xisf>", [0; 4]);
    assert!(matches!(Header::parse(&bytes), Err(Error::Xml(_))));
}

#[test]
fn reserved_bytes_are_ignored() {
    let bytes = container("<xisf/>", [0xDE, 0xAD, 0xBE, 0xEF]);
    assert!(Header::parse(&bytes).is_ok());
}

#[test]
fn attribute_names_are_case_insensitive() {
    let xml = r#"<xisf><FITSKeyword NAME="GAIN" VALUE="100" COMMENT="c"/></xisf>"#;
    let h = Header::parse(&container(xml, [0; 4])).unwrap();
    assert_eq!(h.get_i64("GAIN").unwrap(), Some(100));
    assert_eq!(h.keywords()[0].comment, "c");
}

#[test]
fn nameless_keywords_are_skipped() {
    let xml = r#"<xisf>
        <FITSKeyword value="'orphan'" comment="no name"/>
        <FITSKeyword name="GAIN" value="100" comment=""/>
    </xisf>"#;
    let h = Header::parse(&container(xml, [0; 4])).unwrap();
    assert_eq!(h.keywords().len(), 1);
    assert_eq!(h.get_i64("GAIN").unwrap(), Some(100));
}

#[test]
fn commentary_keyword_reads_from_comment_attribute() {
    // The canonical, spec-conformant form: no value, text in `comment`.
    let xml = r#"<xisf><FITSKeyword name="HISTORY" value="" comment="processed in PixInsight"/></xisf>"#;
    let h = Header::parse(&container(xml, [0; 4])).unwrap();
    assert_eq!(
        h.get_str("HISTORY").unwrap(),
        Some("processed in PixInsight")
    );
}

#[test]
fn commentary_keyword_falls_back_to_quoted_value_for_backward_compat() {
    // Older files quoted the text into `value` and left `comment` empty;
    // those must keep reading.
    let xml =
        r#"<xisf><FITSKeyword name="HISTORY" value="&apos;old form&apos;" comment=""/></xisf>"#;
    let h = Header::parse(&container(xml, [0; 4])).unwrap();
    assert_eq!(h.get_str("HISTORY").unwrap(), Some("old form"));
}

#[test]
fn unknown_attributes_and_elements_are_skipped() {
    let xml = r#"<xisf>
        <Metadata><Property id="XISF:CreatorApplication" type="String" value="PixInsight"/></Metadata>
        <Image geometry="256:256:1" sampleFormat="UInt16" colorSpace="Gray" location="attachment:4096:131072">
            <FITSKeyword name="GAIN" value="100" comment="" unknown="x"/>
            <Resolution horizontal="72" vertical="72"/>
        </Image>
    </xisf>"#;
    let h = Header::parse(&container(xml, [0; 4])).unwrap();
    assert_eq!(h.get_i64("GAIN").unwrap(), Some(100));
    // Properties are collected wherever they appear in the header.
    assert_eq!(h.property("XISF:CreatorApplication"), Some("PixInsight"));
}

// ----- further cases ---------------------------------------------------------------

#[test]
fn bad_signature_is_reported() {
    let mut bytes = container("<xisf/>", [0; 4]);
    bytes[3] = b'G';
    assert!(matches!(Header::parse(&bytes), Err(Error::InvalidSignature)));
}

#[test]
fn split_preamble_reports_the_xml_range() {
    let bytes = container("<xisf/>", [1, 2, 3, 4]);
    assert_eq!(split_preamble(&bytes).unwrap(), (16, 16 + 7));
    let mut longer = bytes.clone();
    longer.extend_from_slice(b"DATA");
    assert_eq!(split_preamble(&longer).unwrap(), (16, 23));
}

#[test]
fn header_at_the_cap_is_accepted_by_the_preamble_check() {
    let mut bytes = container("", [0; 4]);
    let cap = u32::try_from(MAX_HEADER_LEN).unwrap();
    bytes[8..12].copy_from_slice(&cap.to_le_bytes());
    assert!(matches!(
        Header::parse(&bytes),
        Err(Error::TooSmall { needed, got: 16 }) if needed == 16 + MAX_HEADER_LEN
    ));
}

#[test]
fn duplicated_attribute_is_an_attribute_error() {
    let xml = r#"<xisf><FITSKeyword name="A" name="GAIN" value="1"/></xisf>"#;
    assert!(matches!(
        Header::parse(&container(xml, [0; 4])),
        Err(Error::Attr(_))
    ));
}

#[test]
fn commentary_value_is_kept_only_when_comment_is_empty() {
    let xml = r#"<xisf>
        <FITSKeyword name="COMMENT" value="'quoted'" comment="text wins"/>
        <FITSKeyword name="history" value="5" comment="lower case is not commentary"/>
    </xisf>"#;
    let h = Header::parse(&container(xml, [0; 4])).unwrap();
    assert_eq!(h.keywords()[0].value, Value::Str("text wins".to_owned()));
    assert_eq!(h.keywords()[0].comment, "");
    assert_eq!(h.keywords()[1].value, Value::Literal("5".to_owned()));
    assert_eq!(h.keywords()[1].comment, "lower case is not commentary");
}

#[test]
fn byte_order_mark_is_accepted() {
    let mut xml = String::from("\u{feff}");
    xml.push_str(r#"<xisf><FITSKeyword name="GAIN" value="7" comment=""/></xisf>"#);
    let h = Header::parse(&container(&xml, [0; 4])).unwrap();
    assert_eq!(h.get_i64("GAIN").unwrap(), Some(7));
}

#[test]
fn keyword_spans_are_ordered_and_count_the_bom() {
    let xml = "\u{feff}<xisf><Image location=\"attachment:0:0\"><FITSKeyword name=\"A\" value=\"1\" comment=\"\"/><FITSKeyword name=\"B\" value=\"2\" comment=\"\"/></Image></xisf>";
    let (h, idx) = xisf_header::parse_xml_with_index(xml).unwrap();
    assert_eq!(h.keywords().len(), 2);
    assert_eq!(idx.keyword_spans.len(), 2);
    let (s0, e0) = idx.keyword_spans[0];
    let (s1, e1) = idx.keyword_spans[1];
    assert!(s0 < e0 && e0 <= s1 && s1 < e1 && e1 <= xml.len());
    assert_eq!(&xml[s0..e0], "<FITSKeyword name=\"A\" value=\"1\" comment=\"\"/>");
    assert_eq!(&xml[s1..e1], "<FITSKeyword name=\"B\" value=\"2\" comment=\"\"/>");
}

#[test]
fn trailing_bytes_and_reserved_bytes_do_not_change_the_header() {
    let xml = "<xisf><Image location=\"attachment:0:0\"><FITSKeyword name=\"GAIN\" value=\"100\" comment=\"\"/></Image></xisf>";
    let plain = container(xml, [0, 0, 0, 0]);
    let mut other = container(xml, [9, 8, 7, 6]);
    other.extend_from_slice(&[1, 2, 3, 4, 5]);
    assert_eq!(Header::parse(&plain).unwrap(), Header::parse(&other).unwrap());
}
