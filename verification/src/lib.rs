//! Reading, editing and writing the header of an XISF (Extensible Image
//! Serialization Format) file: the FITS keywords and XISF `<Property>`
//! elements it embeds, with strict keyword access, typed values, and a
//! byte-exact splice of an edited header back into the original container.
//!
//! The crate is header-only: it parses and emits the 16-byte XISF preamble
//! plus the UTF-8 XML header, and never interprets image data.

mod error;
mod header;
mod key;
mod keyword;
mod number;
mod property;
mod reader;
mod round_trip;
mod splice;
mod text;
mod value;
mod writer;
mod xml;

pub use error::{Result, XisfError};
pub use header::{Header, HeaderView, StructuralHints};
pub use key::{IntoKey, Key, KeySpec};
pub use keyword::{FitsKeyword, KeywordView};
pub use property::{Property, PropertyMap, PropertyView};
pub use reader::{
    classify_value, index_xml, parse_xml_with_index, split_preamble, ImageInfo, XmlIndex, MAX_HEADER_LEN,
};
pub use splice::splice_update;
pub use value::{DateTime, FromField, IntoText, IntoValue, Literal, Value, ValueView};
pub use writer::{bytes_per_sample, data_size, geometry_fits_check, OFFSET_WIDTH};
pub use xml::{scan_xml, ItemKind, XmlAttr, XmlItem};
