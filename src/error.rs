use vstd::prelude::*;

verus! {

/// Every way in which decoding a section or building its chunks can fail.
#[derive(Debug, Clone, Copy, PartialEq, Eq, Structural)]
pub enum ConvertError {
    /// The blob names the LZ4 codec, which is not supported.
    UnsupportedCompression,
    /// The compression tag names no known codec.
    InvalidCompression(i64),
    /// The xz decoder reported an error before the end of its stream.
    Decompress,
    /// The blob ends before a value that it announces.
    ShortBlob,
    /// A length prefix is negative.
    NegativeLength,
    /// A mapping table announces no entries.
    NoMapping,
    /// A mapping entry lacks the separator between biome and block.
    MissingSeparator,
    /// A block-state fragment lacks the `:` between key and value.
    MalformedState,
    /// A string is not valid UTF-8.
    InvalidUtf8,
    /// A data point refers to a mapping entry that does not exist.
    UnknownMappingId,
    /// Block coordinates lie outside the chunk.
    OutOfBounds,
    /// A palette holds duplicates or more entries than indices can address.
    InvalidPalette,
    /// Packed palette data holds fewer entries than the store needs.
    ShortPaletteData,
    /// Packed palette data refers past the end of its palette.
    PaletteIndexOutOfRange,
    /// The template chunk lacks the sections that the world height needs.
    BadTemplate,
}

} // verus!
