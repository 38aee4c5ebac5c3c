//! Verified building blocks for concatenating sources and handling source maps:
//! UTF-16 length of UTF-8 text, the source-map `mappings` decoder, JSON output of
//! a source map, and the concatenation of sources with their chunk streams.

pub mod concat_source;
pub mod concat_stream;
pub mod decoder;
pub mod fx_map;
pub mod mapping;
pub mod raw_buffer_source;
pub mod raw_source;
pub mod stream;
pub mod to_json;
pub mod utf16_len;

pub use concat_source::{BoxSource, ConcatSource, ConcatSourceStream};
pub use decoder::MappingsDecoder;
pub use mapping::{GeneratedInfo, Mapping, OriginalLocation};
pub use raw_buffer_source::RawBufferSource;
pub use raw_source::RawStringSource;
pub use stream::{IndexSourceMap, MapOptions};
pub use to_json::{to_json, SourceMap};
pub use utf16_len::{utf16_len, utf16_length_from_utf8};
