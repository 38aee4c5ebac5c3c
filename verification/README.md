# rspack_sources (verified core)

Concatenation of sources and the source-map pieces around it, written in Verus
with contracts proved by the verifier.

- `src/utf16_len.rs`: UTF-16 length of UTF-8 text.
- `src/decoder.rs`: decoder of the base64-VLQ `mappings` field of a source map.
- `src/to_json.rs`: JSON text of a source map, with the string escaping done by
  `json-escape-simd`.
- `src/raw_source.rs`, `src/raw_buffer_source.rs`: sources without mappings,
  given as text or as bytes.
- `src/concat_source.rs`: `ConcatSource`, its optimization (runs of raw sources
  merged), its text, bytes, size, debug text, equality and streams.
- `src/concat_stream.rs`: the chunk and section streams of a concatenation, with
  sources and names renumbered through an `FxHashMap` (`src/fx_map.rs`).
- `src/stream.rs`, `src/mapping.rs`: streams and mappings as plain values.
- `app/`: writing a concatenation to an `std::io::Write`.

The tests under `tests/` run the library.
