use vstd::prelude::*;

verus! {

/// Every way in which reading a segment stream or a packed plane can fail.
#[derive(Debug, Clone, Copy, PartialEq, Eq, Structural)]
pub enum DecodeError {
    /// A marker did not start with `0xFF`: the stream is out of step.
    InvalidMarkerPrefix,
    /// A marker code outside the supported set.
    UnsupportedMarker(u8),
    /// A quantization table whose precision is not 8 bits.
    UnsupportedPrecision,
    /// A start-of-frame marker of a frame type other than baseline DCT.
    UnsupportedFrameType,
    /// A segment length field smaller than the two bytes of the field itself, or a
    /// quantization-table segment too short to hold its table.
    InvalidSegmentLength,
    /// A read past the last available byte or word.
    UnexpectedEndOfStream,
    /// A packed block whose zero runs reach past the 64th position.
    MalformedPackedBlock,
}

} // verus!
