use vstd::prelude::*;

use crate::error::DecodeError;
use crate::zigzag::{dezigzag_order, zigzag_order, lemma_orders_inverse, make_zigzag_table};

verus! {

/// The frame types that a start-of-frame segment may declare.
#[derive(Debug, Clone, Copy, PartialEq, Eq, Structural)]
pub enum FrameType {
    BaselineDct,
}

/// The type of a marker segment, selected by the marker's second byte.
#[derive(Debug, Clone, Copy, PartialEq, Eq, Structural)]
pub enum SegmentType {
    StartOfImage,
    App(u8),
    DefineQuantizationTable,
    StartOfFrame(FrameType),
    DefineHuffmanTables,
    StartOfScan,
    EndOfImage,
}

/// Codes of the start-of-frame markers (all but the baseline one are refused).
pub open spec fn is_frame_code(code: u8) -> bool {
    0xc0 <= code <= 0xcf && code != 0xc4 && code != 0xc8 && code != 0xcc
}

/// The segment type that a marker code selects.
pub open spec fn marker_kind(code: u8) -> Result<SegmentType, DecodeError> {
    if code == 0xd8 {
        Ok(SegmentType::StartOfImage)
    } else if 0xe0 <= code <= 0xef {
        Ok(SegmentType::App((code - 0xe0) as u8))
    } else if code == 0xdb {
        Ok(SegmentType::DefineQuantizationTable)
    } else if code == 0xc0 {
        Ok(SegmentType::StartOfFrame(FrameType::BaselineDct))
    } else if code == 0xc4 {
        Ok(SegmentType::DefineHuffmanTables)
    } else if code == 0xda {
        Ok(SegmentType::StartOfScan)
    } else if code == 0xd9 {
        Ok(SegmentType::EndOfImage)
    } else if is_frame_code(code) {
        Err(DecodeError::UnsupportedFrameType)
    } else {
        Err(DecodeError::UnsupportedMarker(code))
    }
}

/// Whether a length field follows the marker of a segment of this type.
pub open spec fn has_length_field(ty: SegmentType) -> bool {
    !(ty is StartOfImage || ty is EndOfImage)
}

/// The big-endian 16-bit word at `pos`.
pub open spec fn word_at(data: Seq<u8>, pos: int) -> int {
    data[pos] as int * 256 + data[pos + 1] as int
}

/// A header whose marker bytes `hi`, `lo` have been read, with the rest of the
/// stream starting at `pos`: the segment type, its payload length and the position
/// after the header.
pub open spec fn header_after(data: Seq<u8>, pos: int, hi: u8, lo: u8) -> Result<
    (SegmentType, int, int),
    DecodeError,
> {
    if hi != 0xff {
        Err(DecodeError::InvalidMarkerPrefix)
    } else {
        match marker_kind(lo) {
            Err(e) => Err(e),
            Ok(ty) => if !has_length_field(ty) {
                Ok((ty, 0, pos))
            } else if pos + 2 > data.len() {
                Err(DecodeError::UnexpectedEndOfStream)
            } else if word_at(data, pos) < 2 {
                Err(DecodeError::InvalidSegmentLength)
            } else {
                Ok((ty, word_at(data, pos) - 2, pos + 2))
            },
        }
    }
}

/// The header that starts at `pos`.
pub open spec fn header_at(data: Seq<u8>, pos: int) -> Result<(SegmentType, int, int), DecodeError> {
    if pos + 2 > data.len() {
        Err(DecodeError::UnexpectedEndOfStream)
    } else {
        header_after(data, pos + 2, data[pos], data[pos + 1])
    }
}

/// The first header at or after `pos` in entropy-coded data, where `FF 00` is an
/// escaped data byte and not a marker.
pub open spec fn next_marker_at(data: Seq<u8>, pos: int) -> Result<(SegmentType, int, int), DecodeError>
    decreases data.len() - pos,
{
    if pos >= data.len() {
        Err(DecodeError::UnexpectedEndOfStream)
    } else if data[pos] != 0xff {
        next_marker_at(data, pos + 1)
    } else if pos + 1 >= data.len() {
        Err(DecodeError::UnexpectedEndOfStream)
    } else if data[pos + 1] == 0 {
        next_marker_at(data, pos + 2)
    } else {
        header_after(data, pos + 2, data[pos], data[pos + 1])
    }
}

/// A quantization table at `pos`: its id, its 64 entries in natural order and the
/// position after it.
pub open spec fn quant_table_at(data: Seq<u8>, pos: int) -> Result<(int, Seq<u16>, int), DecodeError> {
    if pos >= data.len() {
        Err(DecodeError::UnexpectedEndOfStream)
    } else if data[pos] >= 16 {
        Err(DecodeError::UnsupportedPrecision)
    } else if pos + 65 > data.len() {
        Err(DecodeError::UnexpectedEndOfStream)
    } else {
        Ok(
            (
                data[pos] as int,
                Seq::new(64, |n: int| data[pos + 1 + dezigzag_order()[n]] as u16),
                pos + 65,
            ),
        )
    }
}

/// A position in an in-memory byte stream.
pub struct ByteCursor {
    pub data: Vec<u8>,
    pub pos: usize,
}

impl ByteCursor {
    /// The position lies within the data or just past its end.
    pub open spec fn wf(&self) -> bool {
        self.pos <= self.data@.len()
    }

    pub fn new(data: Vec<u8>) -> (c: ByteCursor)
        ensures
            c.wf(),
            c.data@ == data@,
            c.pos == 0,
    {
        ByteCursor { data, pos: 0 }
    }
}

/// The cursor after a parse with outcome `s` whose last component is the new
/// position: moved there on success, left where it was on failure.
pub open spec fn cursor_after<T>(
    before: ByteCursor,
    after: ByteCursor,
    s: Result<T, DecodeError>,
    new_pos: int,
) -> bool {
    &&& after.data@ == before.data@
    &&& s is Ok ==> after.pos == new_pos
    &&& s is Err ==> after.pos == before.pos
}

/// What a header read hands back, for a header outcome `s`.
pub open spec fn header_result(s: Result<(SegmentType, int, int), DecodeError>) -> Result<
    (SegmentType, usize),
    DecodeError,
> {
    match s {
        Ok((ty, len, _)) => Ok((ty, len as usize)),
        Err(e) => Err(e),
    }
}

/// The position after a header, for a header outcome `s` that succeeded.
pub open spec fn header_end(s: Result<(SegmentType, int, int), DecodeError>) -> int {
    match s {
        Ok((_, _, p)) => p,
        Err(_) => 0,
    }
}

/// Advances past `bytes` bytes.
pub fn skip(input: &mut ByteCursor, bytes: usize) -> (r: Result<(), DecodeError>)
    requires
        old(input).wf(),
    ensures
        final(input).wf(),
        r is Ok <==> old(input).pos + bytes <= old(input).data@.len(),
        r is Err ==> r == Err::<(), DecodeError>(DecodeError::UnexpectedEndOfStream),
        cursor_after(*old(input), *final(input), r, old(input).pos + bytes),
{
    if bytes > input.data.len() - input.pos {
        return Err(DecodeError::UnexpectedEndOfStream);
    }
    input.pos = input.pos + bytes;
    Ok(())
}

/// Reads a big-endian 16-bit word.
pub fn read_word(input: &mut ByteCursor) -> (r: Result<u16, DecodeError>)
    requires
        old(input).wf(),
    ensures
        final(input).wf(),
        r is Ok <==> old(input).pos + 2 <= old(input).data@.len(),
        r is Ok ==> r->Ok_0 as int == word_at(old(input).data@, old(input).pos as int),
        r is Err ==> r == Err::<u16, DecodeError>(DecodeError::UnexpectedEndOfStream),
        cursor_after(*old(input), *final(input), r, old(input).pos + 2),
{
    if input.data.len() - input.pos < 2 {
        return Err(DecodeError::UnexpectedEndOfStream);
    }
    let hi = input.data[input.pos] as u16;
    let lo = input.data[input.pos + 1] as u16;
    input.pos = input.pos + 2;
    Ok(hi * 256 + lo)
}

/// The segment type that a marker code selects.
pub fn segment_type(code: u8) -> (r: Result<SegmentType, DecodeError>)
    ensures
        r == marker_kind(code),
{
    match code {
        0xd8 => Ok(SegmentType::StartOfImage),
        0xe0..=0xef => Ok(SegmentType::App(code - 0xe0)),
        0xdb => Ok(SegmentType::DefineQuantizationTable),
        0xc0 => Ok(SegmentType::StartOfFrame(FrameType::BaselineDct)),
        0xc4 => Ok(SegmentType::DefineHuffmanTables),
        0xda => Ok(SegmentType::StartOfScan),
        0xd9 => Ok(SegmentType::EndOfImage),
        0xc1..=0xc3 | 0xc5..=0xc7 | 0xc9..=0xcb | 0xcd..=0xcf => Err(DecodeError::UnsupportedFrameType),
        _ => Err(DecodeError::UnsupportedMarker(code)),
    }
}

/// Finishes a header whose marker bytes `hi` and `lo` have been read: checks the
/// prefix, selects the type and reads the length field where the type has one.
pub fn parse_header(input: &mut ByteCursor, hi: u8, lo: u8) -> (r: Result<(SegmentType, usize), DecodeError>)
    requires
        old(input).wf(),
    ensures
        final(input).wf(),
        r == header_result(header_after(old(input).data@, old(input).pos as int, hi, lo)),
        cursor_after(
            *old(input),
            *final(input),
            r,
            header_end(header_after(old(input).data@, old(input).pos as int, hi, lo)),
        ),
{
    if hi != 0xff {
        return Err(DecodeError::InvalidMarkerPrefix);
    }
    let ty = match segment_type(lo) {
        Ok(ty) => ty,
        Err(e) => return Err(e),
    };
    match ty {
        SegmentType::StartOfImage | SegmentType::EndOfImage => Ok((ty, 0)),
        _ => {
            let word = match read_word(input) {
                Ok(w) => w,
                Err(e) => return Err(e),
            };
            if word < 2 {
                input.pos = input.pos - 2;
                return Err(DecodeError::InvalidSegmentLength);
            }
            Ok((ty, (word - 2) as usize))
        },
    }
}

/// Reads the header at the cursor.
pub fn read_header(input: &mut ByteCursor) -> (r: Result<(SegmentType, usize), DecodeError>)
    requires
        old(input).wf(),
    ensures
        final(input).wf(),
        r == header_result(header_at(old(input).data@, old(input).pos as int)),
        cursor_after(
            *old(input),
            *final(input),
            r,
            header_end(header_at(old(input).data@, old(input).pos as int)),
        ),
{
    if input.data.len() - input.pos < 2 {
        return Err(DecodeError::UnexpectedEndOfStream);
    }
    let start = input.pos;
    let hi = input.data[start];
    let lo = input.data[start + 1];
    input.pos = start + 2;
    let r = parse_header(input, hi, lo);
    if r.is_err() {
        input.pos = start;
    }
    r
}

/// Scans entropy-coded data for the next marker and reads its header. `FF 00` is an
/// escaped data byte and is passed over.
pub fn find_marker(input: &mut ByteCursor) -> (r: Result<(SegmentType, usize), DecodeError>)
    requires
        old(input).wf(),
    ensures
        final(input).wf(),
        r == header_result(next_marker_at(old(input).data@, old(input).pos as int)),
        cursor_after(
            *old(input),
            *final(input),
            r,
            header_end(next_marker_at(old(input).data@, old(input).pos as int)),
        ),
{
    let start = input.pos;
    let len = input.data.len();
    let mut p: usize = start;
    while p < len
        invariant
            start <= p <= len,
            len == input.data@.len(),
            input.pos == start,
            start == old(input).pos,
            input.data@ == old(input).data@,
            input.wf(),
            next_marker_at(input.data@, p as int) == next_marker_at(input.data@, start as int),
        decreases len - p,
    {
        let hi = input.data[p];
        if hi == 0xff {
            if p + 1 >= len {
                return Err(DecodeError::UnexpectedEndOfStream);
            }
            let lo = input.data[p + 1];
            if lo != 0x00 {
                input.pos = p + 2;
                let r = parse_header(input, hi, lo);
                if r.is_err() {
                    input.pos = start;
                }
                return r;
            }
            p = p + 2;
        } else {
            p = p + 1;
        }
    }
    Err(DecodeError::UnexpectedEndOfStream)
}

/// What a quantization-table read hands back, for a table outcome `s`.
pub open spec fn quant_result_matches(
    r: Result<(usize, Vec<u16>), DecodeError>,
    s: Result<(int, Seq<u16>, int), DecodeError>,
) -> bool {
    match s {
        Ok((id, table, _)) => r is Ok && r->Ok_0.0 == id && r->Ok_0.1@ == table,
        Err(e) => r == Err::<(usize, Vec<u16>), DecodeError>(e),
    }
}

/// The position after a quantization table, for a table outcome `s` that succeeded.
pub open spec fn quant_end(s: Result<(int, Seq<u16>, int), DecodeError>) -> int {
    match s {
        Ok((_, _, p)) => p,
        Err(_) => 0,
    }
}

/// Reads a quantization table: a precision and id byte, then 64 bytes in zigzag
/// order, handed back in natural order.
pub fn read_quantization_table(input: &mut ByteCursor) -> (r: Result<(usize, Vec<u16>), DecodeError>)
    requires
        old(input).wf(),
    ensures
        final(input).wf(),
        quant_result_matches(r, quant_table_at(old(input).data@, old(input).pos as int)),
        cursor_after(
            *old(input),
            *final(input),
            r,
            quant_end(quant_table_at(old(input).data@, old(input).pos as int)),
        ),
{
    let start = input.pos;
    if start >= input.data.len() {
        return Err(DecodeError::UnexpectedEndOfStream);
    }
    let pqtq = input.data[start];
    if pqtq >= 16 {
        return Err(DecodeError::UnsupportedPrecision);
    }
    if input.data.len() - start < 65 {
        return Err(DecodeError::UnexpectedEndOfStream);
    }
    let ghost data = input.data@;
    let tq = pqtq as usize;
    let zigzag = make_zigzag_table(8);
    let mut table: Vec<u16> = vec![0; 64];
    let mut j: usize = 0;
    while j < 8
        invariant
            j <= 8,
            data == input.data@,
            start + 65 <= data.len(),
            data.len() <= usize::MAX,
            crate::zigzag::is_zigzag_table(zigzag@, 8),
            table@.len() == 64,
            forall|k: int|
                0 <= k < j * 8 ==> #[trigger] table@[zigzag_order()[k]] == data[start + 1 + k] as u16,
            forall|n: int|
                0 <= n < 64 && dezigzag_order()[n] >= j * 8 ==> #[trigger] table@[n] == 0,
        decreases 8 - j,
    {
        let mut i: usize = 0;
        while i < 8
            invariant
                j < 8,
                i <= 8,
                data == input.data@,
                start + 65 <= data.len(),
                data.len() <= usize::MAX,
                crate::zigzag::is_zigzag_table(zigzag@, 8),
                table@.len() == 64,
                forall|k: int|
                    0 <= k < j * 8 + i ==> #[trigger] table@[zigzag_order()[k]] == data[start + 1 + k] as u16,
                forall|n: int|
                    0 <= n < 64 && dezigzag_order()[n] >= j * 8 + i ==> #[trigger] table@[n] == 0,
            decreases 8 - i,
        {
            let k: usize = j * 8 + i;
            let n = zigzag[j][i];
            proof {
                lemma_orders_inverse();
            }
            assert(n == zigzag_order()[k as int] && k < 64);
            table.set(n, input.data[start + 1 + k] as u16);
            i += 1;
        }
        j += 1;
    }
    proof {
        lemma_orders_inverse();
        assert forall|n: int| 0 <= n < 64 implies table@[n] == data[start + 1 + dezigzag_order()[n]] as u16 by {
            let k = dezigzag_order()[n];
            assert(table@[zigzag_order()[k]] == data[start + 1 + k] as u16);
        }
    }
    assert(table@ =~= Seq::new(64, |n: int| data[start + 1 + dezigzag_order()[n]] as u16));
    input.pos = start + 65;
    Ok((tq, table))
}

/// A quantization table: its id and its 64 entries in natural order.
pub struct QuantizationTable {
    pub id: usize,
    pub values: Vec<u16>,
}

/// One marker segment of a stream: its type, its payload length, and the table it
/// defines where it is a quantization-table segment.
pub struct Segment {
    pub kind: SegmentType,
    pub length: usize,
    pub table: Option<QuantizationTable>,
}

/// A segment as a value: type, payload length, and id and natural-order entries of
/// its quantization table.
pub type SegmentModel = (SegmentType, int, Option<(int, Seq<u16>)>);

impl View for Segment {
    type V = SegmentModel;

    open spec fn view(&self) -> SegmentModel {
        (
            self.kind,
            self.length as int,
            match self.table {
                Some(t) => Some((t.id as int, t.values@)),
                None => None,
            },
        )
    }
}

/// Skips a payload of `len` bytes at `pos` and reads the header after it.
pub open spec fn header_after_payload(data: Seq<u8>, pos: int, len: int) -> Result<
    (SegmentType, int, int),
    DecodeError,
> {
    if pos + len > data.len() {
        Err(DecodeError::UnexpectedEndOfStream)
    } else {
        header_at(data, pos + len)
    }
}

/// Handles the segment of type `ty` whose payload of `len` bytes starts at `pos`:
/// the quantization table it defines, if any, and the header of the next segment.
/// Scan data has no declared length: the next header is found by scanning. A table
/// segment must be long enough for the table it starts with.
pub open spec fn segment_step(data: Seq<u8>, pos: int, ty: SegmentType, len: int) -> Result<
    (Option<(int, Seq<u16>)>, (SegmentType, int, int)),
    DecodeError,
> {
    if ty is StartOfScan {
        match next_marker_at(data, pos) {
            Ok(h) => Ok((None, h)),
            Err(e) => Err(e),
        }
    } else if ty is DefineQuantizationTable {
        if len < 65 {
            Err(DecodeError::InvalidSegmentLength)
        } else {
            match quant_table_at(data, pos) {
                Err(e) => Err(e),
                Ok((id, table, _)) => match header_after_payload(data, pos, len) {
                    Ok(h) => Ok((Some((id, table)), h)),
                    Err(e) => Err(e),
                },
            }
        }
    } else {
        match header_after_payload(data, pos, len) {
            Ok(h) => Ok((None, h)),
            Err(e) => Err(e),
        }
    }
}

/// A header read moves forward and stays within the stream; its length is never negative.
pub proof fn lemma_header_after_bounds(data: Seq<u8>, pos: int, hi: u8, lo: u8)
    requires
        0 <= pos <= data.len(),
    ensures
        header_after(data, pos, hi, lo) matches Ok((_, l, p)) ==> 0 <= l <= 0xffff && pos <= p <= data.len(),
{
}

/// A header read consumes at least its two marker bytes.
pub proof fn lemma_header_at_bounds(data: Seq<u8>, pos: int)
    requires
        0 <= pos,
    ensures
        header_at(data, pos) matches Ok((_, l, p)) ==> 0 <= l <= 0xffff && pos + 2 <= p <= data.len(),
{
    if pos + 2 <= data.len() {
        lemma_header_after_bounds(data, pos + 2, data[pos], data[pos + 1]);
    }
}

/// A marker search consumes at least the two marker bytes it finds.
pub proof fn lemma_next_marker_bounds(data: Seq<u8>, pos: int)
    requires
        0 <= pos,
    ensures
        next_marker_at(data, pos) matches Ok((_, l, p)) ==> 0 <= l <= 0xffff && pos + 2 <= p <= data.len(),
    decreases data.len() - pos,
{
    if pos >= data.len() {
    } else if data[pos] != 0xff {
        lemma_next_marker_bounds(data, pos + 1);
    } else if pos + 1 >= data.len() {
    } else if data[pos + 1] == 0 {
        lemma_next_marker_bounds(data, pos + 2);
    } else {
        lemma_header_after_bounds(data, pos + 2, data[pos], data[pos + 1]);
    }
}

/// Every segment step moves strictly forward in the stream.
pub proof fn lemma_step_advances(data: Seq<u8>, pos: int, ty: SegmentType, len: int)
    requires
        0 <= pos,
        0 <= len,
    ensures
        segment_step(data, pos, ty, len) matches Ok((_, (_, l, p))) ==> 0 <= l <= 0xffff && pos < p <= data.len(),
{
    lemma_next_marker_bounds(data, pos);
    lemma_header_at_bounds(data, pos + len);
}

/// The segments of a stream from the segment of type `ty` whose payload of `len`
/// bytes starts at `pos`, up to and including the end-of-image segment.
pub open spec fn segments_from(data: Seq<u8>, pos: int, ty: SegmentType, len: int) -> Result<
    Seq<SegmentModel>,
    DecodeError,
>
    decreases data.len() - pos,
    when 0 <= pos && 0 <= len
{
    if ty is EndOfImage {
        Ok(seq![(ty, 0int, None)])
    } else {
        match segment_step(data, pos, ty, len) {
            Err(e) => Err(e),
            Ok((table, (next_ty, next_len, next_pos))) => {
                proof {
                    lemma_step_advances(data, pos, ty, len);
                }
                match segments_from(data, next_pos, next_ty, next_len) {
                    Err(e) => Err(e),
                    Ok(rest) => Ok(seq![(ty, len, table)] + rest),
                }
            },
        }
    }
}

/// The segments of a whole stream, from its first header to its end-of-image
/// segment.
pub open spec fn segments_of(data: Seq<u8>) -> Result<Seq<SegmentModel>, DecodeError> {
    match header_at(data, 0) {
        Err(e) => Err(e),
        Ok((ty, len, pos)) => segments_from(data, pos, ty, len),
    }
}

/// `done` followed by the segments of a walk outcome `rest`, if it succeeded.
pub open spec fn prepend_segments(
    done: Seq<SegmentModel>,
    rest: Result<Seq<SegmentModel>, DecodeError>,
) -> Result<Seq<SegmentModel>, DecodeError> {
    match rest {
        Ok(t) => Ok(done + t),
        Err(e) => Err(e),
    }
}

/// The values of a sequence of segments.
pub open spec fn segment_models(v: Seq<Segment>) -> Seq<SegmentModel> {
    v.map_values(|s: Segment| s@)
}

/// Walks a whole stream segment by segment: after each segment its payload is
/// skipped (a quantization table is decoded first), after scan data the next
/// marker is searched for, and the walk stops at the end-of-image segment, which
/// is the last one handed back.
pub fn scan_segments(data: Vec<u8>) -> (r: Result<Vec<Segment>, DecodeError>)
    ensures
        match segments_of(data@) {
            Ok(segs) => r is Ok && segment_models(r->Ok_0@) == segs,
            Err(e) => r == Err::<Vec<Segment>, DecodeError>(e),
        },
{
    let ghost d = data@;
    let mut input = ByteCursor::new(data);
    let mut head = match read_header(&mut input) {
        Ok(h) => h,
        Err(e) => return Err(e),
    };
    proof {
        lemma_header_at_bounds(d, 0);
    }
    let mut segments: Vec<Segment> = Vec::new();
    while head.0 != SegmentType::EndOfImage
        invariant
            input.wf(),
            input.data@ == d,
            d == data@,
            segments_of(d) == prepend_segments(
                segment_models(segments@),
                segments_from(d, input.pos as int, head.0, head.1 as int),
            ),
        decreases d.len() - input.pos,
    {
        let ghost pos = input.pos as int;
        let (ty, len) = head;
        proof {
            lemma_step_advances(d, pos, ty, len as int);
        }
        let table = match ty {
            SegmentType::StartOfScan => {
                head = match find_marker(&mut input) {
                    Ok(h) => h,
                    Err(e) => {
                        assert(segment_step(d, pos, ty, len as int) == Err::<
                            (Option<(int, Seq<u16>)>, (SegmentType, int, int)),
                            DecodeError,
                        >(e));
                        assert(segments_from(d, pos, ty, len as int) == Err::<Seq<SegmentModel>, DecodeError>(e));
                        return Err(e);
                    },
                };
                proof {
                    lemma_next_marker_bounds(d, pos);
                    assert(next_marker_at(d, pos) == Ok::<(SegmentType, int, int), DecodeError>(
                        (head.0, head.1 as int, input.pos as int),
                    ));
                }
                None
            },
            SegmentType::DefineQuantizationTable => {
                if len < 65 {
                    return Err(DecodeError::InvalidSegmentLength);
                }
                let payload = input.pos;
                let (id, values) = match read_quantization_table(&mut input) {
                    Ok(t) => t,
                    Err(e) => {
                        assert(quant_table_at(d, pos) == Err::<(int, Seq<u16>, int), DecodeError>(e));
                        assert(segment_step(d, pos, ty, len as int) is Err);
                        return Err(e);
                    },
                };
                assert(quant_table_at(d, pos) is Ok);
                input.pos = payload;
                match skip(&mut input, len) {
                    Ok(()) => {},
                    Err(e) => {
                        assert(header_after_payload(d, pos, len as int) is Err);
                        return Err(e);
                    },
                }
                head = match read_header(&mut input) {
                    Ok(h) => h,
                    Err(e) => return Err(e),
                };
                proof {
                    lemma_header_at_bounds(d, pos + len);
                    assert(header_after_payload(d, pos, len as int) == Ok::<(SegmentType, int, int), DecodeError>(
                        (head.0, head.1 as int, input.pos as int),
                    ));
                }
                Some(QuantizationTable { id, values })
            },
            _ => {
                match skip(&mut input, len) {
                    Ok(()) => {},
                    Err(e) => return Err(e),
                }
                head = match read_header(&mut input) {
                    Ok(h) => h,
                    Err(e) => return Err(e),
                };
                proof {
                    lemma_header_at_bounds(d, pos + len);
                    assert(header_after_payload(d, pos, len as int) == Ok::<(SegmentType, int, int), DecodeError>(
                        (head.0, head.1 as int, input.pos as int),
                    ));
                }
                None
            },
        };
        let seg = Segment { kind: ty, length: len, table };
        let ghost done = segment_models(segments@);
        segments.push(seg);
        proof {
            assert(segment_models(segments@) =~= done.push(seg@));
            assert(segment_step(d, pos, ty, len as int) == Ok::<
                (Option<(int, Seq<u16>)>, (SegmentType, int, int)),
                DecodeError,
            >((seg@.2, (head.0, head.1 as int, input.pos as int))));
            let rest = segments_from(d, input.pos as int, head.0, head.1 as int);
            assert(segments_from(d, pos, ty, len as int) == prepend_segments(seq![seg@], rest));
            if rest is Ok {
                assert(done + (seq![seg@] + rest->Ok_0) =~= done.push(seg@) + rest->Ok_0);
            }
        }
    }
    let last = Segment { kind: SegmentType::EndOfImage, length: 0, table: None };
    segments.push(last);
    proof {
        assert(segment_models(segments@) =~= segment_models(segments@.drop_last()).push(last@));
    }
    Ok(segments)
}

} // verus!
