//! Error and result types for the crate.

use vstd::prelude::*;

verus! {

#[verifier::external_type_specification]
#[verifier::external_body]
pub struct ExUtf8Error(core::str::Utf8Error);

#[verifier::external_type_specification]
#[verifier::external_body]
pub struct ExXmlError(quick_xml::errors::Error);

#[verifier::external_type_specification]
#[verifier::external_body]
pub struct ExAttrError(quick_xml::events::attributes::AttrError);

#[verifier::external_type_specification]
#[verifier::external_body]
pub struct ExIoError(std::io::Error);

/// Errors that can occur while parsing, reading, or writing an XISF header.
#[derive(Debug)]
#[non_exhaustive]
pub enum XisfError {
    /// The input was shorter than required (the 16-byte preamble, or the
    /// preamble plus the declared XML-header length).
    TooSmall {
        /// Minimum number of bytes required.
        needed: usize,
        /// Number of bytes actually supplied.
        got: usize,
    },
    /// The first eight bytes were not the `XISF0100` monolithic-signature.
    InvalidSignature,
    /// The declared XML-header length exceeded the 8 MiB safety cap.
    HeaderTooLarge {
        /// Declared header length, in bytes.
        len: usize,
        /// Maximum accepted header length, in bytes.
        max: usize,
    },
    /// The XML header was not valid UTF-8.
    Utf8(core::str::Utf8Error),
    /// The XML header was syntactically malformed.
    Xml(quick_xml::errors::Error),
    /// An attribute in the XML header was malformed.
    Attr(quick_xml::events::attributes::AttrError),
    /// A singular access (`get`/`set`/`remove` by bare name) targeted a keyword
    /// that appears more than once. Disambiguate with an `(name, n)` key, or
    /// use `get_all`/`count`.
    Ambiguous {
        /// The keyword name.
        name: String,
        /// Number of occurrences.
        count: usize,
    },
    /// A `Key::Nth` `(name, n)` access referenced an occurrence index that
    /// does not exist.
    IndexOutOfRange {
        /// The keyword name.
        name: String,
        /// The requested occurrence index.
        index: usize,
        /// Number of occurrences present.
        count: usize,
    },
    /// A write supplied a name that is not a valid FITS keyword (at most 8
    /// ASCII letters, digits, `-` or `_`) or valid XISF property id.
    InvalidName {
        /// The rejected identifier.
        name: String,
        /// Why it was rejected.
        reason: &'static str,
    },
    /// An I/O error occurred while reading or writing a file.
    Io(std::io::Error),
    /// The byte-exact update cannot safely splice this file's XML: the
    /// supported layout is exactly one `<Image location="attachment:OFFSET:SIZE">`
    /// element. Multiple attachments, no attachment at all, or a
    /// self-closing `<Image/>` that needs new child elements are rejected
    /// rather than risking data loss.
    Unsupported(String),
}

/// A specialized `Result` alias for header operations.
pub type Result<T> = core::result::Result<T, XisfError>;

/// `e` reports that `name` is ambiguous with `count` occurrences.
pub open spec fn is_ambiguous(e: XisfError, name: Seq<char>, count: nat) -> bool {
    e matches XisfError::Ambiguous { name: n, count: c } && n@ == name && c == count
}

/// `e` reports that occurrence `index` of `name` is missing, `count`
/// occurrences being present.
pub open spec fn is_out_of_range(e: XisfError, name: Seq<char>, index: nat, count: nat) -> bool {
    e matches XisfError::IndexOutOfRange { name: n, index: i, count: c } && n@ == name && i == index
        && c == count
}

/// `e` reports that `name` is not a valid identifier, for the reason `why`.
pub open spec fn is_invalid_name(e: XisfError, name: Seq<char>, why: Seq<char>) -> bool {
    e matches XisfError::InvalidName { name: n, reason: r } && n@ == name && r@ == why
}

} // verus!
