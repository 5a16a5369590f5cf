//! Marker-segment scanning of JPEG-style streams, zigzag tables, and a
//! run-length packing of 8x8 coefficient blocks with a per-block index.

pub mod codec;
pub mod error;
pub mod markers;
pub mod text;
pub mod zigzag;

pub use codec::{pack, pack_coeffs, unpack, unpack_block, unpack_coeffs, Plane};
pub use error::DecodeError;
pub use markers::{
    find_marker, parse_header, read_header, read_quantization_table, read_word, scan_segments, segment_type,
    skip, ByteCursor, FrameType, QuantizationTable, Segment, SegmentType,
};
pub use text::parse_coefficients;
pub use zigzag::{make_dezigzag_table, make_zigzag_table};
