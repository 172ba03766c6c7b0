//! Byte-exact, data-preserving updates of whole containers.

use xisf_header::XisfError as Error;
use xisf_header::Header;

const UNMODELED_METADATA: &str = "<Metadata><Description>Integration test fixture</Description>\
     <CreationTime value=\"2026-07-13T00:00:00Z\"/></Metadata>";

const UNMODELED_RESOLUTION: &str = "<Resolution horizontal=\"72\" vertical=\"72\" unit=\"inch\"/>";

fn contains(haystack: &[u8], needle: &[u8]) -> bool {
    needle.is_empty() || haystack.windows(needle.len()).any(|w| w == needle)
}

fn ramp_data(size: usize) -> Vec<u8> {
    (0..size).map(|i| (i % 251) as u8).collect()
}

/// A monolithic XISF file: preamble, XML header with `keywords` and
/// `properties` inside `<Image>` and `extra_xml` beside it, then `data` at
/// the declared location.
fn mk_xisf(keywords: &str, properties: &str, extra_xml: &str, data: &[u8]) -> Vec<u8> {
    const WIDTH: usize = 10;
    let template = format!(
        "<?xml version=\"1.0\" encoding=\"UTF-8\"?>\n\
         <xisf version=\"1.0\" xmlns=\"http://www.pixinsight.com/xisf\">\n\
         {extra_xml}\n\
         <Image geometry=\"1:1:{samples}\" sampleFormat=\"UInt8\" colorSpace=\"Gray\" \
         location=\"attachment:{{offset}}:{size}\">\n\
         {UNMODELED_RESOLUTION}\n\
         {keywords}\n\
         {properties}\n\
         </Image>\n\
         </xisf>\n",
        samples = data.len().max(1),
        size = data.len(),
    );
    let placeholder = "0".repeat(WIDTH);
    let xml_len = template.replace("{offset}", &placeholder).len();
    let offset_str = format!("{:0width$}", 16 + xml_len, width = WIDTH);
    let xml = template.replace("{offset}", &offset_str);
    assert_eq!(xml.len(), xml_len);
    let mut out = Vec::new();
    out.extend_from_slice(b"XISF0100");
    out.extend_from_slice(&(u32::try_from(xml.len()).unwrap()).to_le_bytes());
    out.extend_from_slice(&[0u8; 4]);
    out.extend_from_slice(xml.as_bytes());
    out.extend_from_slice(data);
    out
}

/// A file with an optional leading byte order mark, `location` not the last
/// `<Image>` attribute, and a gap between the header and the data.
fn mk_bom_gapped(with_bom: bool, keywords: &str, data: &[u8], gap: &[u8]) -> Vec<u8> {
    const WIDTH: usize = 10;
    let bom = if with_bom { "\u{FEFF}" } else { "" };
    let template = format!(
        "{bom}<?xml version=\"1.0\" encoding=\"UTF-8\"?>\n\
         <xisf version=\"1.0\" xmlns=\"http://www.pixinsight.com/xisf\">\n\
         <Metadata><Description>bom fixture</Description></Metadata>\n\
         <Image geometry=\"1:1:{samples}\" sampleFormat=\"UInt8\" \
         location=\"attachment:{{offset}}:{size}\" colorSpace=\"Gray\">\n\
         {UNMODELED_RESOLUTION}\n\
         {keywords}\n\
         </Image>\n\
         </xisf>\n",
        samples = data.len().max(1),
        size = data.len(),
    );
    let placeholder = "0".repeat(WIDTH);
    let xml_len = template.replace("{offset}", &placeholder).len();
    let offset = 16 + xml_len + gap.len();
    let offset_str = format!("{offset:0width$}", width = WIDTH);
    let xml = template.replace("{offset}", &offset_str);
    assert_eq!(xml.len(), xml_len);
    let mut out = Vec::new();
    out.extend_from_slice(b"XISF0100");
    out.extend_from_slice(&(u32::try_from(xml.len()).unwrap()).to_le_bytes());
    out.extend_from_slice(&[0u8; 4]);
    out.extend_from_slice(xml.as_bytes());
    out.extend_from_slice(gap);
    out.extend_from_slice(data);
    out
}

/// The `attachment:OFFSET:SIZE` location, found by a plain text search.
fn attachment_location(container: &[u8]) -> (usize, usize) {
    let xml_len = u32::from_le_bytes(container[8..12].try_into().unwrap()) as usize;
    let xml = std::str::from_utf8(&container[16..16 + xml_len]).unwrap();
    let after = xml.split("attachment:").nth(1).expect("no location attr");
    let loc = &after[..after.find('"').expect("unterminated location attr")];
    let (offset, size) = loc.split_once(':').expect("malformed location attr");
    (offset.parse().unwrap(), size.parse().unwrap())
}

fn attachment_data(container: &[u8]) -> &[u8] {
    let (offset, size) = attachment_location(container);
    &container[offset..offset + size]
}

fn build_keywords_xml(n: usize) -> String {
    (0..n)
        .map(|i| format!(r#"<FITSKeyword name="K{i}" value="{i}" comment="c{i}"/>"#))
        .collect::<Vec<_>>()
        .join("\n")
}

fn build_properties_xml(n: usize) -> String {
    (0..n)
        .map(|i| format!(r#"<Property id="Test:Prop{i}" type="Int32" value="{i}"/>"#))
        .collect::<Vec<_>>()
        .join("\n")
}

fn check_regime(label: &str, n_keywords: usize, n_properties: usize) {
    let data = ramp_data(4096);
    let container = mk_xisf(
        &build_keywords_xml(n_keywords),
        &build_properties_xml(n_properties),
        UNMODELED_METADATA,
        &data,
    );

    let header = Header::parse(&container).unwrap();
    assert_eq!(header.keywords().len(), n_keywords, "{label}");
    assert_eq!(header.properties().len(), n_properties, "{label}");

    // A no-op update reproduces the container byte for byte.
    let same = Header::update_file(&container, |_h| Ok(())).unwrap();
    assert_eq!(same, container, "{label}: no-op must be byte-exact");

    // One edited keyword: everything else survives.
    let edited = Header::update_file(&container, |h| {
        h.set("K0", 999_i64)?;
        Ok(())
    })
    .unwrap();
    let edited_header = Header::parse(&edited).unwrap();
    assert_eq!(edited_header.get_i64("K0").unwrap(), Some(999), "{label}");
    assert_eq!(
        edited_header.get_i64(format!("K{}", n_keywords - 1).as_str()).unwrap(),
        Some(n_keywords as i64 - 1)
    );
    assert_eq!(attachment_data(&edited), data.as_slice(), "{label}");
    assert!(contains(&edited, UNMODELED_METADATA.as_bytes()), "{label}");
    assert!(contains(&edited, UNMODELED_RESOLUTION.as_bytes()), "{label}");

    // Growing the header moves the data later, unchanged.
    let (old_offset, old_size) = attachment_location(&container);
    let grown = Header::update_file(&container, |h| {
        for i in 0..50 {
            h.set(format!("NEW{i}").as_str(), i as i64)?;
        }
        Ok(())
    })
    .unwrap();
    let (grown_offset, grown_size) = attachment_location(&grown);
    assert_eq!(grown_size, old_size, "{label}");
    assert!(grown_offset > old_offset, "{label}");
    assert_eq!(attachment_data(&grown), data.as_slice(), "{label}");
    let grown_header = Header::parse(&grown).unwrap();
    assert_eq!(grown_header.get_i64("NEW49").unwrap(), Some(49));
    assert_eq!(grown_header.keywords().len(), n_keywords + 50);

    // Shrinking the header moves the data earlier, unchanged.
    let to_remove = n_keywords / 2;
    let shrunk = Header::update_file(&container, |h| {
        for i in 0..to_remove {
            h.remove(format!("K{i}").as_str())?;
        }
        Ok(())
    })
    .unwrap();
    let (shrunk_offset, shrunk_size) = attachment_location(&shrunk);
    assert_eq!(shrunk_size, old_size, "{label}");
    if to_remove > 0 {
        assert!(shrunk_offset < old_offset, "{label}");
    }
    assert_eq!(attachment_data(&shrunk), data.as_slice(), "{label}");
    assert_eq!(
        Header::parse(&shrunk).unwrap().keywords().len(),
        n_keywords - to_remove
    );
}

#[test]
fn update_small_header() {
    check_regime("small", 4, 2);
}

#[test]
fn update_normal_header() {
    check_regime("normal", 40, 15);
}

#[test]
fn update_large_header() {
    check_regime("large", 300, 120);
}

#[test]
fn bom_and_gap_survive_updates() {
    let data = ramp_data(64);
    let gap = b"\x00\x00\x00\x00\x00";
    let keywords = r#"<FITSKeyword name="GAIN" value="100" comment="sensor gain"/>
<FITSKeyword name="OBJECT" value="'M31'" comment="target"/>"#;
    let container = mk_bom_gapped(true, keywords, &data, gap);
    assert_eq!(&container[16..19], &[0xEF, 0xBB, 0xBF]);

    let same = Header::update_file(&container, |_h| Ok(())).unwrap();
    assert_eq!(same, container);

    let edited = Header::update_file(&container, |h| {
        h.set("GAIN", 20000_i64)?;
        Ok(())
    })
    .unwrap();
    let header = Header::parse(&edited).unwrap();
    assert_eq!(header.get_i64("GAIN").unwrap(), Some(20000));
    assert_eq!(header.get_str("OBJECT").unwrap(), Some("M31"));
    assert!(contains(
        &edited,
        b"<Metadata><Description>bom fixture</Description></Metadata>"
    ));
    assert!(contains(&edited, UNMODELED_RESOLUTION.as_bytes()));
    assert_eq!(&edited[16..19], &[0xEF, 0xBB, 0xBF]);
    assert_eq!(attachment_data(&edited), data.as_slice());
}

#[test]
fn edited_history_uses_the_comment_form() {
    let data = ramp_data(48);
    let keywords = r#"<FITSKeyword name="HISTORY" value="" comment="calibrated with WBPP"/>
<FITSKeyword name="HISTORY" value="" comment="registered"/>
<FITSKeyword name="OBJECT" value="'M31'" comment="target"/>"#;
    let container = mk_xisf(keywords, "", UNMODELED_METADATA, &data);

    assert_eq!(Header::update_file(&container, |_h| Ok(())).unwrap(), container);

    let edited = Header::update_file(&container, |h| {
        h.set(("HISTORY", 1), "reprocessed")?;
        Ok(())
    })
    .unwrap();
    assert!(contains(
        &edited,
        br#"name="HISTORY" value="" comment="reprocessed""#
    ));
    assert!(!contains(&edited, b"&apos;reprocessed&apos;"));
    let header = Header::parse(&edited).unwrap();
    assert_eq!(
        header.get_all::<String>("HISTORY"),
        ["calibrated with WBPP", "reprocessed"]
    );
    assert_eq!(header.get_str("OBJECT").unwrap(), Some("M31"));
}

#[test]
fn gap_is_kept_before_the_moved_data() {
    let data = ramp_data(128);
    let gap = b"\xAA\xBB\xCC\xDD";
    let keywords = r#"<FITSKeyword name="GAIN" value="1" comment=""/>"#;
    let container = mk_bom_gapped(false, keywords, &data, gap);
    let (old_offset, _) = attachment_location(&container);

    let edited = Header::update_file(&container, |h| {
        h.set("GAIN", 123456789_i64)?;
        Ok(())
    })
    .unwrap();
    let (new_offset, _) = attachment_location(&edited);
    assert!(new_offset > old_offset);
    assert_eq!(&edited[new_offset - gap.len()..new_offset], gap);
    assert_eq!(attachment_data(&edited), data.as_slice());
}

#[test]
fn new_elements_are_inserted_before_the_image_end() {
    let data = ramp_data(8);
    let container = mk_xisf(r#"<FITSKeyword name="GAIN" value="1" comment=""/>"#, "", "", &data);
    let edited = Header::update_file(&container, |h| {
        h.set("OBJECT", "M31")?;
        h.set_property("Observer:Name", "Sjors")?;
        Ok(())
    })
    .unwrap();
    assert!(contains(
        &edited,
        b"\n    <FITSKeyword name=\"OBJECT\" value=\"&apos;M31&apos;\" comment=\"\"/>\n    <Property id=\"Observer:Name\" type=\"String\" value=\"Sjors\"/></Image>"
    ));
    let header = Header::parse(&edited).unwrap();
    assert_eq!(header.property("Observer:Name"), Some("Sjors"));
    assert_eq!(attachment_data(&edited), data.as_slice());
}

#[test]
fn unsupported_layouts_are_refused() {
    let data = ramp_data(8);

    // Two attachments: an image and a thumbnail.
    let thumb = "<Thumbnail geometry=\"1:1:1\" sampleFormat=\"UInt8\" colorSpace=\"Gray\" location=\"attachment:0:1\"/>";
    let two = mk_xisf("", "", thumb, &data);
    match Header::update_file(&two, |_h| Ok(())) {
        Err(Error::Unsupported(m)) => {
            assert_eq!(m, "found 2 attachment location(s); update_file supports exactly one")
        }
        other => panic!("unexpected {other:?}"),
    }

    // No image at all.
    let xml = "<xisf></xisf>";
    let mut none = Vec::new();
    none.extend_from_slice(b"XISF0100");
    none.extend_from_slice(&(xml.len() as u32).to_le_bytes());
    none.extend_from_slice(&[0u8; 4]);
    none.extend_from_slice(xml.as_bytes());
    match Header::update_file(&none, |_h| Ok(())) {
        Err(Error::Unsupported(m)) => assert_eq!(m, "no <Image> element found"),
        other => panic!("unexpected {other:?}"),
    }

    // A self-closing image cannot take new elements.
    let xml = "<xisf><Image location=\"attachment:0000000048:0\"/></xisf>";
    let mut closed = Vec::new();
    closed.extend_from_slice(b"XISF0100");
    closed.extend_from_slice(&(xml.len() as u32).to_le_bytes());
    closed.extend_from_slice(&[0u8; 4]);
    closed.extend_from_slice(xml.as_bytes());
    assert_eq!(closed.len(), 16 + xml.len());
    match Header::update_file(&closed, |h| {
        h.set("GAIN", 1_i64)?;
        Ok(())
    }) {
        Err(Error::Unsupported(m)) => assert_eq!(
            m,
            "cannot add keywords or properties: <Image> is self-closing and has no children to insert into"
        ),
        other => panic!("unexpected {other:?}"),
    }
}

#[test]
fn an_edit_error_is_passed_on() {
    let data = ramp_data(8);
    let container = mk_xisf("", "", "", &data);
    assert!(matches!(
        Header::update_file(&container, |h| {
            h.set("TOOLONGNAME", 1_i64)?;
            Ok(())
        }),
        Err(Error::InvalidName { .. })
    ));
}

#[test]
fn data_beyond_the_file_is_refused() {
    let data = ramp_data(8);
    let mut container = mk_xisf("", "", "", &data);
    container.truncate(container.len() - 1);
    match Header::update_file(&container, |_h| Ok(())) {
        Err(Error::Unsupported(m)) => assert_eq!(m, "attachment location/size is out of bounds"),
        other => panic!("unexpected {other:?}"),
    }
}

#[test]
fn edit_is_not_called_on_an_unsupported_layout() {
    let data = ramp_data(8);
    let thumb = "<Thumbnail geometry=\"1:1:1\" sampleFormat=\"UInt8\" colorSpace=\"Gray\" location=\"attachment:0:1\"/>";
    let two = mk_xisf("", "", thumb, &data);
    let mut called = false;
    let r = Header::update_file(&two, |_h| {
        called = true;
        Err(Error::Unsupported("from the edit".to_owned()))
    });
    assert!(!called);
    match r {
        Err(Error::Unsupported(m)) => {
            assert_eq!(m, "found 2 attachment location(s); update_file supports exactly one")
        }
        other => panic!("unexpected {other:?}"),
    }
}

#[test]
fn edit_receives_the_parsed_header() {
    let data = ramp_data(8);
    let original = mk_xisf("<FITSKeyword name=\"GAIN\" value=\"100\" comment=\"\"/>", "", "", &data);
    let parsed = Header::parse(&original).unwrap();
    let mut seen = None;
    let out = Header::update_file(&original, |h| {
        seen = Some(h.clone());
        Ok(())
    })
    .unwrap();
    assert_eq!(seen, Some(parsed));
    assert_eq!(out, original);
}
