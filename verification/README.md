# xisf_header

Reads, edits and writes the header of an XISF (Extensible Image Serialization
Format) file: the FITS keywords and XISF `<Property>` elements embedded in
its XML, with strict keyword access, typed values, and a byte-exact splice of
an edited header back into the container. Image data is never interpreted.

The library in `src/` is verified with Verus. Public functions state their
results in `ensures` over mathematical views (`Seq`, `Map`, `int`); what
`quick_xml` and `skymath` compute is named by uninterpreted spec functions
of the text they read (`read_event_kind`, `date_obs`, ...), so reading a
header is stated as a function of its bytes. The laws of the library are
public proof functions (`law_*`).

- `text`, `number`, `key`, `keyword`, `property`, `value`, `header`: the
  in-memory model and its strict access rules.
- `xml`, `reader`: the XML scan (through `quick_xml`) and the reading of a
  container into a `Header`, with the byte spans the splice needs.
- `writer`: rendering a header and a container header.
- `splice`: the in-place update of a container's bytes.
- `round_trip`: the laws that a written header, and a header spliced into a
  container by an update, read back as written, given that the reader
  reports for the new text the elements written there.

`app/` holds what stays outside the verified library: file I/O, `f64`
values and formatting, `serde` copies of the data types, and an error type
with `Display`.
