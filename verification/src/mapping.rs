//! Positions in generated and original code, and their pairing in a mapping.
use vstd::prelude::*;

verus! {

/// A position in an original source, with an optional name.
#[derive(Clone, Copy, Debug, PartialEq, Eq, Structural)]
pub struct OriginalLocation {
    pub source_index: u32,
    pub original_line: u32,
    pub original_column: u32,
    pub name_index: Option<u32>,
}

/// A position in the generated code, with the original location it comes from, if any.
#[derive(Clone, Copy, Debug, PartialEq, Eq, Structural)]
pub struct Mapping {
    pub generated_line: u32,
    pub generated_column: u32,
    pub original: Option<OriginalLocation>,
}

/// Where the generated code of a source ends: its last line (counted from 1)
/// and the column after its last character on that line.
#[derive(Clone, Copy, Debug, PartialEq, Eq, Structural)]
pub struct GeneratedInfo {
    pub generated_line: u32,
    pub generated_column: u32,
}

} // verus!
