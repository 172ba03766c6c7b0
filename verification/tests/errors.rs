//! Error paths of the public parse API.

use xisf_header::Header;
use xisf_header::XisfError as Error;

/// Wrap an XML header in a valid 16-byte preamble (no trailing attachment).
fn wrap_container(xml: &str) -> Vec<u8> {
    let mut out = Vec::new();
    out.extend_from_slice(b"XISF0100");
    out.extend_from_slice(&(u32::try_from(xml.len()).unwrap()).to_le_bytes());
    out.extend_from_slice(&[0u8; 4]);
    out.extend_from_slice(xml.as_bytes());
    out
}

#[test]
fn declared_header_over_cap_is_rejected() {
    let mut bytes = wrap_container("<xisf/>");
    let over = u32::try_from(8 * 1024 * 1024 + 1).unwrap();
    bytes[8..12].copy_from_slice(&over.to_le_bytes());
    assert!(matches!(
        Header::parse(&bytes),
        Err(Error::HeaderTooLarge { .. })
    ));
}

#[test]
fn non_utf8_header_is_rejected() {
    let mut bytes = wrap_container("<xisf></xisf>");
    bytes[18] = 0xFF;
    assert!(matches!(Header::parse(&bytes), Err(Error::Utf8(_))));
}

#[test]
fn errors_malformed_xml_is_rejected() {
    let bytes = wrap_container("<xisf><Image></xisf>");
    assert!(matches!(Header::parse(&bytes), Err(Error::Xml(_))));
}

#[test]
fn update_of_garbage_fails_without_output() {
    let garbage = b"garbage that is not xisf".to_vec();
    let r = Header::update_file(&garbage, |h| {
        h.set("OBJECT", "M31")?;
        Ok(())
    });
    assert!(matches!(r, Err(Error::InvalidSignature)));
}
