use gpeg::{
    find_marker, make_dezigzag_table, read_header, read_quantization_table, read_word, scan_segments, segment_type,
    skip, ByteCursor, DecodeError, FrameType, SegmentType,
};

fn app0_stream() -> Vec<u8> {
    let mut data = vec![0xff, 0xd8, 0xff, 0xe0, 0x00, 0x10];
    data.extend_from_slice(b"JFIF\0\x01\x01\x00\x00\x01\x00\x01\x00\x00");
    data.extend_from_slice(&[0xff, 0xd9]);
    data
}

#[test]
fn marker_walk() {
    let segments = scan_segments(app0_stream()).unwrap();
    assert_eq!(segments.len(), 3);
    assert_eq!(segments[0].kind, SegmentType::StartOfImage);
    assert_eq!(segments[0].length, 0);
    assert_eq!(segments[1].kind, SegmentType::App(0));
    assert_eq!(segments[1].length, 14);
    assert!(segments[1].table.is_none());
    assert_eq!(segments[2].kind, SegmentType::EndOfImage);
    assert_eq!(segments[2].length, 0);
}

#[test]
fn stuffing_is_scan_data() {
    let data = vec![
        0xff, 0xd8, 0xff, 0xda, 0x00, 0x02, 0x12, 0xff, 0x00, 0x34, 0xff, 0x00, 0x56, 0xff, 0xd9,
    ];
    let segments = scan_segments(data).unwrap();
    let kinds: Vec<SegmentType> = segments.iter().map(|s| s.kind).collect();
    assert_eq!(kinds, vec![SegmentType::StartOfImage, SegmentType::StartOfScan, SegmentType::EndOfImage]);
}

#[test]
fn find_marker_skips_stuffed_bytes() {
    let mut cursor = ByteCursor::new(vec![0x12, 0xff, 0x00, 0x34, 0xff, 0x00, 0xff, 0xd9, 0xaa]);
    let head = find_marker(&mut cursor).unwrap();
    assert_eq!(head, (SegmentType::EndOfImage, 0));
    assert_eq!(cursor.pos, 8);
}

#[test]
fn find_marker_without_marker_runs_out() {
    let mut cursor = ByteCursor::new(vec![0x12, 0xff, 0x00, 0x34]);
    assert_eq!(find_marker(&mut cursor), Err(DecodeError::UnexpectedEndOfStream));
    assert_eq!(cursor.pos, 0);
}

#[test]
fn invalid_marker_prefix() {
    assert_eq!(scan_segments(vec![0x00, 0xd8]).err(), Some(DecodeError::InvalidMarkerPrefix));
}

#[test]
fn unsupported_marker() {
    assert_eq!(scan_segments(vec![0xff, 0x01]).err(), Some(DecodeError::UnsupportedMarker(0x01)));
    assert_eq!(segment_type(0xfe), Err(DecodeError::UnsupportedMarker(0xfe)));
}

#[test]
fn unsupported_frame_type() {
    let data = vec![0xff, 0xd8, 0xff, 0xc2, 0x00, 0x02, 0xff, 0xd9];
    assert_eq!(scan_segments(data).err(), Some(DecodeError::UnsupportedFrameType));
    assert_eq!(segment_type(0xc0), Ok(SegmentType::StartOfFrame(FrameType::BaselineDct)));
    assert_eq!(segment_type(0xc4), Ok(SegmentType::DefineHuffmanTables));
    assert_eq!(segment_type(0xef), Ok(SegmentType::App(15)));
}

#[test]
fn unexpected_end_of_stream() {
    assert_eq!(scan_segments(vec![0xff, 0xd8, 0xff, 0xe0, 0x00]).err(), Some(DecodeError::UnexpectedEndOfStream));
    let data = vec![0xff, 0xd8, 0xff, 0xe0, 0x00, 0x10, 0x01, 0x02];
    assert_eq!(scan_segments(data).err(), Some(DecodeError::UnexpectedEndOfStream));
    assert_eq!(scan_segments(vec![0xff, 0xd8]).err(), Some(DecodeError::UnexpectedEndOfStream));
}

#[test]
fn invalid_segment_length() {
    let data = vec![0xff, 0xd8, 0xff, 0xe0, 0x00, 0x01, 0xff, 0xd9];
    assert_eq!(scan_segments(data).err(), Some(DecodeError::InvalidSegmentLength));
}

#[test]
fn read_header_reads_length() {
    let mut cursor = ByteCursor::new(vec![0xff, 0xdb, 0x00, 0x43, 0x00]);
    assert_eq!(read_header(&mut cursor), Ok((SegmentType::DefineQuantizationTable, 65)));
    assert_eq!(cursor.pos, 4);
}

#[test]
fn read_word_is_big_endian() {
    let mut cursor = ByteCursor::new(vec![0x12, 0x34, 0x56]);
    assert_eq!(read_word(&mut cursor), Ok(0x1234));
    assert_eq!(cursor.pos, 2);
    assert_eq!(read_word(&mut cursor), Err(DecodeError::UnexpectedEndOfStream));
    assert_eq!(cursor.pos, 2);
}

#[test]
fn skip_within_and_past_end() {
    let mut cursor = ByteCursor::new(vec![1, 2, 3, 4]);
    assert_eq!(skip(&mut cursor, 3), Ok(()));
    assert_eq!(cursor.pos, 3);
    assert_eq!(skip(&mut cursor, 2), Err(DecodeError::UnexpectedEndOfStream));
    assert_eq!(cursor.pos, 3);
}

fn quant_bytes(pqtq: u8) -> Vec<u8> {
    let mut data = vec![pqtq];
    for k in 0..64u8 {
        data.push(k + 1);
    }
    data
}

#[test]
fn quantization_table_natural_order() {
    let mut cursor = ByteCursor::new(quant_bytes(0x01));
    let (id, table) = read_quantization_table(&mut cursor).unwrap();
    assert_eq!(id, 1);
    assert_eq!(cursor.pos, 65);
    let dezigzag = make_dezigzag_table(8);
    for n in 0..64 {
        assert_eq!(table[n] as usize, dezigzag[n] + 1);
    }
    assert_eq!(table[0], 1);
    assert_eq!(table[1], 2);
    assert_eq!(table[8], 3);
    assert_eq!(table[63], 64);
}

#[test]
fn quantization_table_precision() {
    let mut cursor = ByteCursor::new(quant_bytes(0x10));
    assert_eq!(read_quantization_table(&mut cursor), Err(DecodeError::UnsupportedPrecision));
    let mut short = ByteCursor::new(vec![0x00, 1, 2, 3]);
    assert_eq!(read_quantization_table(&mut short), Err(DecodeError::UnexpectedEndOfStream));
}

#[test]
fn quantization_segment_in_walk() {
    let mut data = vec![0xff, 0xd8, 0xff, 0xdb, 0x00, 0x43];
    data.extend(quant_bytes(0x02));
    data.extend_from_slice(&[0xff, 0xd9]);
    let segments = scan_segments(data).unwrap();
    assert_eq!(segments.len(), 3);
    assert_eq!(segments[1].kind, SegmentType::DefineQuantizationTable);
    assert_eq!(segments[1].length, 65);
    let table = segments[1].table.as_ref().unwrap();
    assert_eq!(table.id, 2);
    assert_eq!(table.values[8], 3);
}

#[test]
fn short_quantization_segment() {
    let mut data = vec![0xff, 0xd8, 0xff, 0xdb, 0x00, 0x04];
    data.extend(quant_bytes(0x00));
    data.extend_from_slice(&[0xff, 0xd9]);
    assert_eq!(scan_segments(data).err(), Some(DecodeError::InvalidSegmentLength));
}
