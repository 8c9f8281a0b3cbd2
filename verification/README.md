# erff

ERFF is a single-file binary geospatial vector format: a 64-byte header,
a schema section (PROJJSON CRS, geometry and attribute columns, metadata),
size-prefixed feature records with a null bitmap and ISO WKB geometries, a
feature offset table, a packed Hilbert R-tree, and a 32-byte footer.

## Layout

- `src/` — the format, verified with Verus:
  - `types.rs`: column types and their codes, schema, values, features,
    constants; coordinates and float values as IEEE-754 bit patterns.
  - `layout.rs`: the byte encoders of every field as specification, and
    the facts that tie each encoder to its parser.
  - `reader.rs`: parsers of fields, the schema and feature records, and
    `ErffReader` over the bytes of a whole file.
  - `writer.rs`: serializers, and `ErffWriter`, which hands back the bytes
    of each step.
  - `bitmap.rs`: the null bitmap.
  - `wkb.rs`: the WKB structure reader (ISO and EWKB) and encoders.
  - `index.rs`: Hilbert values, the packed R-tree layout, its search,
    and the index section.
  - `laws.rs`: roundtrip laws for the schema, records, WKB, the index
    section and whole files, and the spatial query law.
- `tests/` — runtime tests.
- `app/` — streams (`Read + Seek`, `Write + Seek`) and the floating-point
  side: envelopes, Hilbert scaling of box centres, node box unions and
  query intersection tests.
