use vstd::prelude::*;

verus! {

/// Everything that can go wrong while decoding a container.
#[derive(Debug, Clone, Copy, PartialEq, Eq, Structural)]
pub enum BraError {
    /// A fixed header field or the palette block runs past the end of the data.
    MalformedHeader,
    /// The header claims more frames than any real file holds.
    UnreasonableFrameCount,
    /// The palette block has a length other than the one supported size.
    UnsupportedPaletteFormat,
    /// The frame-descriptor table runs past the end of the data.
    TruncatedFrameTable,
    /// A frame's tile table runs past the end of the data.
    TruncatedTileTable,
    /// A frame's tile table or compressed payload lies outside the data.
    FrameOutOfBounds,
    /// A read ran past the end of a compressed region.
    TruncatedCompressedStream,
    /// A back-reference points at output that does not exist.
    InvalidBackReference,
    /// A method-select byte names a method the codec does not know.
    UnknownMethod,
    /// The decompressed stream ended before every tile was filled.
    TruncatedDecompressedStream,
    /// A pixel names a palette entry that does not exist.
    PaletteIndexOutOfRange,
    /// A tile pixel lands outside the frame's raster.
    TileOutOfRaster,
}

} // verus!
