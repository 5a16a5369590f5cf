use vstd::prelude::*;
use vstd::arithmetic::div_mod::{lemma_fundamental_div_mod, lemma_fundamental_div_mod_converse};
use vstd::arithmetic::mul::{lemma_mul_inequality, lemma_mul_strict_inequality};

use crate::error::DecodeError;
use crate::zigzag::{
    block_offset, dezigzag_order, is_zigzag_table, lemma_orders_inverse, make_zigzag_table,
    zigzag_order,
};

verus! {

// ---------------------------------------------------------------------------
// Plane geometry: a plane of `w` x `h` coefficients, both multiples of 8, is cut
// into 8x8 blocks numbered in row-major block-grid order.
// ---------------------------------------------------------------------------

/// Number of 8x8 blocks in a `w` x `h` plane.
pub open spec fn block_count(w: int, h: int) -> int {
    (w / 8) * (h / 8)
}

/// Offset in the plane of the top-left coefficient of block `b`.
pub open spec fn block_base(w: int, b: int) -> int {
    (b / (w / 8)) * 8 * w + (b % (w / 8)) * 8
}

/// Offset in the plane of natural position `p` of block `b`.
pub open spec fn plane_index(w: int, b: int, p: int) -> int {
    block_base(w, b) + block_offset(p, w)
}

/// The block that holds plane offset `idx`.
pub open spec fn block_of(w: int, idx: int) -> int {
    ((idx / w) / 8) * (w / 8) + (idx % w) / 8
}

/// The natural position inside its block of plane offset `idx`.
pub open spec fn position_of(w: int, idx: int) -> int {
    ((idx / w) % 8) * 8 + (idx % w) % 8
}

/// A plane with at least one column whose sides are multiples of 8.
pub open spec fn valid_plane(w: int, h: int) -> bool {
    w > 0 && w % 8 == 0 && h % 8 == 0
}

/// Each position of each block lies inside the plane, and is where it came from.
pub proof fn lemma_plane_index(w: int, h: int, b: int, p: int)
    requires
        valid_plane(w, h),
        0 <= b < block_count(w, h),
        0 <= p < 64,
    ensures
        0 <= plane_index(w, b, p) < w * h,
        block_of(w, plane_index(w, b, p)) == b,
        position_of(w, plane_index(w, b, p)) == p,
{
    let bw = w / 8;
    let bh = h / 8;
    assert(bw > 0);
    lemma_fundamental_div_mod(b, bw);
    let by = b / bw;
    let bx = b % bw;
    assert(by < bh) by {
        if by >= bh {
            lemma_mul_inequality(bh, by, bw);
            assert(bw * by >= bw * bh) by (nonlinear_arith)
                requires bh * bw <= by * bw;
        }
    }
    assert(by >= 0) by {
        if by < 0 {
            lemma_mul_strict_inequality(by, 0, bw);
            assert(bw * by < 0) by (nonlinear_arith)
                requires by * bw < 0 * bw;
        }
    }
    let r = p / 8;
    let c = p % 8;
    let row = by * 8 + r;
    let col = bx * 8 + c;
    let idx = plane_index(w, b, p);
    assert(idx == row * w + col) by (nonlinear_arith)
        requires idx == by * 8 * w + bx * 8 + r * w + c, row == by * 8 + r, col == bx * 8 + c;
    assert(row <= h - 1);
    lemma_mul_inequality(row, h - 1, w);
    assert((h - 1) * w == w * h - w) by (nonlinear_arith);
    assert(0 <= row * w) by (nonlinear_arith)
        requires row >= 0, w > 0;
    lemma_fundamental_div_mod_converse(idx, w, row, col);
    lemma_fundamental_div_mod_converse(row, 8, by, r);
    lemma_fundamental_div_mod_converse(col, 8, bx, c);
    assert(by * bw == bw * by) by (nonlinear_arith);
}

/// Each offset of the plane is a position of one of its blocks.
pub proof fn lemma_plane_position(w: int, h: int, idx: int)
    requires
        valid_plane(w, h),
        0 <= idx < w * h,
    ensures
        0 <= block_of(w, idx) < block_count(w, h),
        0 <= position_of(w, idx) < 64,
        plane_index(w, block_of(w, idx), position_of(w, idx)) == idx,
{
    let bw = w / 8;
    let bh = h / 8;
    let y = idx / w;
    let x = idx % w;
    lemma_fundamental_div_mod(idx, w);
    assert(0 <= y < h) by {
        if y >= h {
            lemma_mul_inequality(h, y, w);
            assert(w * y >= w * h) by (nonlinear_arith)
                requires h * w <= y * w;
        }
        if y < 0 {
            lemma_mul_strict_inequality(y, 0, w);
            assert(w * y < 0) by (nonlinear_arith)
                requires y * w < 0 * w;
        }
    }
    let by = y / 8;
    let bx = x / 8;
    let b = by * bw + bx;
    assert(0 <= by < bh && 0 <= bx < bw);
    assert(0 <= b < bw * bh) by {
        lemma_mul_inequality(by, bh - 1, bw);
        assert((bh - 1) * bw == bw * bh - bw) by (nonlinear_arith);
        assert(0 <= by * bw) by (nonlinear_arith)
            requires by >= 0, bw > 0;
    }
    assert(block_of(w, idx) == b);
    lemma_fundamental_div_mod_converse(b, bw, by, bx);
    let p = (y % 8) * 8 + x % 8;
    lemma_fundamental_div_mod_converse(p, 8, y % 8, x % 8);
    assert(plane_index(w, b, p) == by * 8 * w + bx * 8 + (y % 8) * w + x % 8);
    assert(by * 8 * w + (y % 8) * w == y * w) by (nonlinear_arith)
        requires y == by * 8 + y % 8;
    assert(w * y == y * w) by (nonlinear_arith);
}

// ---------------------------------------------------------------------------
// Packed words: a 4-bit zero run over a 12-bit two's-complement coefficient.
// ---------------------------------------------------------------------------

/// The low 12 bits of a coefficient, as an unsigned value.
pub open spec fn low12(v: i16) -> int {
    (v as int) % 4096
}

/// A coefficient that the 12-bit field holds exactly.
pub open spec fn in_coeff_range(v: i16) -> bool {
    -2048 <= v <= 2047
}

/// The word for a run of `zeros` zeros followed by the coefficient `v`.
pub open spec fn word_of(zeros: int, v: i16) -> u16 {
    (zeros * 4096 + low12(v)) as u16
}

/// A 12-bit two's-complement field as a signed value.
pub open spec fn sign_extend12(b: int) -> int {
    if b >= 2048 {
        b - 4096
    } else {
        b
    }
}

/// The zero-run field of a word.
pub open spec fn word_zeros(wd: u16) -> int {
    wd as int / 4096
}

/// The coefficient field of a word.
pub open spec fn word_value(wd: u16) -> int {
    sign_extend12(wd as int % 4096)
}

/// Packs a zero run and a coefficient into one word: the run in the top 4 bits, the
/// low 12 bits of the coefficient below it.
pub fn pack(zeros: u16, value: i16) -> (r: u16)
    requires
        zeros < 16,
    ensures
        r as int == zeros as int * 4096 + low12(value),
        r == word_of(zeros as int, value),
{
    #[verifier::truncate]
    let v: u16 = value as u16;
    assert(v as int == if value < 0 { value as int + 65536 } else { value as int }) by (bit_vector)
        requires v == value as u16;
    let r = (zeros << 12) | (v & 0x0fff);
    assert(r == zeros * 4096 + v % 4096) by (bit_vector)
        requires zeros < 16u16, r == (zeros << 12u16) | (v & 0x0fffu16);
    r
}

/// Splits a word into its zero run and its sign-extended coefficient.
pub fn unpack(p: u16) -> (r: (u16, i16))
    ensures
        r.0 as int == word_zeros(p),
        r.1 as int == word_value(p),
{
    let zeros: u16 = p >> 12;
    assert(zeros == p / 4096) by (bit_vector)
        requires zeros == p >> 12u16;
    let low: u16 = p & 0x0fff;
    assert(low == p % 4096) by (bit_vector)
        requires low == p & 0x0fffu16;
    let coeff: i16 = if (p & 0x800) == 0x800 {
        let ext: u16 = low | 0xf000;
        #[verifier::truncate]
        let c: i16 = ext as i16;
        assert(c as int == low as int - 4096 && low >= 2048) by (bit_vector)
            requires ext == low | 0xf000u16, c == ext as i16, low < 4096u16, (p & 0x800u16) == 0x800u16,
                low == p & 0x0fffu16;
        c
    } else {
        assert(low < 2048) by (bit_vector)
            requires low == p & 0x0fffu16, (p & 0x800u16) != 0x800u16;
        low as i16
    };
    (zeros, coeff)
}

/// A word decodes to the run and coefficient it was packed from.
pub proof fn lemma_word_round_trip(zeros: int, v: i16)
    requires
        0 <= zeros < 16,
        in_coeff_range(v),
    ensures
        word_zeros(word_of(zeros, v)) == zeros,
        word_value(word_of(zeros, v)) == v as int,
{
    let n = zeros * 4096 + low12(v);
    assert(0 <= low12(v) < 4096);
    assert(0 <= n < 65536);
    assert(word_of(zeros, v) as int == n);
    lemma_fundamental_div_mod_converse(n, 4096, zeros, low12(v));
    if v < 0 {
        lemma_fundamental_div_mod_converse(v as int, 4096, -1, v as int + 4096);
    } else {
        lemma_fundamental_div_mod_converse(v as int, 4096, 0, v as int);
    }
}

// ---------------------------------------------------------------------------
// One block: 64 coefficients in zigzag order.
// ---------------------------------------------------------------------------

/// The filler words that a run of `run` zeros needs before its coefficient: each
/// stands for 16 zeros.
pub open spec fn fillers(run: int) -> Seq<u16> {
    Seq::new((run / 16) as nat, |_j: int| 0xf000u16)
}

/// The words for coefficients `i..` of `c`, after a pending run of `run` zeros.
pub open spec fn pack_run(c: Seq<i16>, i: int, run: int) -> Seq<u16>
    decreases c.len() - i,
{
    if i >= c.len() {
        if run > 0 {
            seq![0u16]
        } else {
            seq![]
        }
    } else if c[i] == 0 {
        pack_run(c, i + 1, run + 1)
    } else {
        fillers(run) + seq![word_of(run % 16, c[i])] + pack_run(c, i + 1, 0)
    }
}

/// The words for one block of coefficients in zigzag order.
pub open spec fn pack_block(c: Seq<i16>) -> Seq<u16> {
    pack_run(c, 0, 0)
}

/// The block that decoding reaches from zigzag position `cursor` with the words from
/// `p` on, having filled `acc` so far, and the position after the block's words.
pub open spec fn unpack_from(words: Seq<u16>, p: int, cursor: int, acc: Seq<i16>) -> Result<
    (Seq<i16>, int),
    DecodeError,
>
    decreases 64 - cursor,
{
    if cursor >= 64 {
        Ok((acc, p))
    } else if p < 0 || p >= words.len() {
        Err(DecodeError::UnexpectedEndOfStream)
    } else {
        let z = word_zeros(words[p]);
        let v = word_value(words[p]);
        if z == 0 && v == 0 {
            Ok((acc, p + 1))
        } else if cursor + z >= 64 {
            Err(DecodeError::MalformedPackedBlock)
        } else {
            unpack_from(words, p + 1, cursor + z + 1, acc.update(cursor + z, v as i16))
        }
    }
}

/// A block of 64 zero coefficients.
pub open spec fn zero_block() -> Seq<i16> {
    Seq::new(64, |_k: int| 0i16)
}

/// The block, in zigzag order, whose words start at `p`, and the position after them.
pub open spec fn unpack_block_at(words: Seq<u16>, p: int) -> Result<(Seq<i16>, int), DecodeError> {
    unpack_from(words, p, 0, zero_block())
}

/// A block takes at most one word per coefficient.
pub proof fn lemma_pack_run_len(c: Seq<i16>, i: int, run: int)
    requires
        0 <= i,
        0 <= run,
    ensures
        pack_run(c, i, run).len() <= c.len() - i + run || (i > c.len() && pack_run(c, i, run).len() <= run),
    decreases c.len() - i,
{
    if i >= c.len() {
    } else if c[i] == 0 {
        lemma_pack_run_len(c, i + 1, run + 1);
    } else {
        lemma_pack_run_len(c, i + 1, 0);
    }
}

/// Before a nonzero coefficient, a run of 16 or more zeros starts with a filler word.
proof fn lemma_pack_run_filler(c: Seq<i16>, i: int, run: int)
    requires
        0 <= i < c.len(),
        c[i] != 0,
        run >= 16,
    ensures
        pack_run(c, i, run) =~= seq![0xf000u16] + pack_run(c, i, run - 16),
{
    lemma_fundamental_div_mod_converse(run, 16, (run - 16) / 16 + 1, (run - 16) % 16);
    assert(fillers(run) =~= seq![0xf000u16] + fillers(run - 16));
}

/// Decoding the words for coefficients `i..` after a pending run of `run` zeros
/// completes a block that agrees with `c` before the run.
proof fn lemma_unpack_pack_run(
    c: Seq<i16>,
    i: int,
    run: int,
    words: Seq<u16>,
    p: int,
    acc: Seq<i16>,
)
    requires
        c.len() == 64,
        forall|j: int| 0 <= j < 64 ==> in_coeff_range(#[trigger] c[j]),
        0 <= run <= i <= 64,
        forall|j: int| i - run <= j < i ==> #[trigger] c[j] == 0,
        acc.len() == 64,
        forall|j: int| 0 <= j < i - run ==> #[trigger] acc[j] == c[j],
        forall|j: int| i - run <= j < 64 ==> #[trigger] acc[j] == 0,
        0 <= p,
        p + pack_run(c, i, run).len() <= words.len(),
        forall|j: int| 0 <= j < pack_run(c, i, run).len() ==> words[p + j] == #[trigger] pack_run(c, i, run)[j],
    ensures
        unpack_from(words, p, i - run, acc) == Ok::<(Seq<i16>, int), DecodeError>(
            (c, p + pack_run(c, i, run).len()),
        ),
    decreases 64 - i, run,
{
    if i == 64 {
        assert(acc =~= c);
        if run > 0 {
            assert(pack_run(c, i, run) =~= seq![0u16]);
            assert(pack_run(c, i, run)[0] == 0u16);
            assert(words[p + 0] == 0u16);
        }
    } else if c[i] == 0 {
        lemma_unpack_pack_run(c, i + 1, run + 1, words, p, acc);
    } else if run >= 16 {
        lemma_pack_run_filler(c, i, run);
        let cursor = i - run;
        assert(pack_run(c, i, run)[0] == 0xf000u16);
        assert(words[p + 0] == 0xf000u16);
        assert(word_zeros(0xf000u16) == 15 && word_value(0xf000u16) == 0);
        let acc2 = acc.update(cursor + 15, 0i16);
        assert forall|j: int| 0 <= j < 1 + pack_run(c, i, run - 16).len() - 1 implies words[(p + 1) + j]
            == #[trigger] pack_run(c, i, run - 16)[j] by {
            assert(pack_run(c, i, run)[j + 1] == pack_run(c, i, run - 16)[j]);
        }
        lemma_unpack_pack_run(c, i, run - 16, words, p + 1, acc2);
    } else {
        assert(fillers(run) =~= Seq::<u16>::empty());
        let wd = word_of(run, c[i]);
        assert(pack_run(c, i, run) =~= seq![wd] + pack_run(c, i + 1, 0));
        lemma_word_round_trip(run, c[i]);
        assert(pack_run(c, i, run)[0] == wd);
        assert(words[p + 0] == wd);
        let acc2 = acc.update(i, c[i]);
        assert forall|j: int| 0 <= j < pack_run(c, i + 1, 0).len() implies words[(p + 1) + j]
            == #[trigger] pack_run(c, i + 1, 0)[j] by {
            assert(pack_run(c, i, run)[j + 1] == pack_run(c, i + 1, 0)[j]);
        }
        lemma_unpack_pack_run(c, i + 1, 0, words, p + 1, acc2);
    }
}

/// A tail of zeros packs to one terminator word, or to nothing where it is empty.
proof fn lemma_pack_run_zeros(c: Seq<i16>, i: int, run: int)
    requires
        0 <= i <= c.len(),
        0 <= run,
        forall|j: int| 0 <= j < c.len() ==> #[trigger] c[j] == 0,
    ensures
        pack_run(c, i, run) == (if run > 0 || i < c.len() {
            seq![0u16]
        } else {
            seq![]
        }),
    decreases c.len() - i,
{
    if i < c.len() {
        lemma_pack_run_zeros(c, i + 1, run + 1);
    }
}

/// An all-zero block packs to the terminator word alone.
pub proof fn lemma_zero_block_packs_to_sentinel(c: Seq<i16>)
    requires
        c.len() == 64,
        forall|j: int| 0 <= j < 64 ==> #[trigger] c[j] == 0,
    ensures
        pack_block(c) == seq![0u16],
        word_zeros(pack_block(c)[0]) == 0 && word_value(pack_block(c)[0]) == 0,
{
    lemma_pack_run_zeros(c, 0, 0);
}

/// Decoding a block's words, wherever they stand in a stream, gives back the block.
pub proof fn lemma_block_round_trip(c: Seq<i16>, words: Seq<u16>, p: int)
    requires
        c.len() == 64,
        forall|j: int| 0 <= j < 64 ==> in_coeff_range(#[trigger] c[j]),
        0 <= p,
        p + pack_block(c).len() <= words.len(),
        forall|j: int| 0 <= j < pack_block(c).len() ==> words[p + j] == #[trigger] pack_block(c)[j],
    ensures
        unpack_block_at(words, p) == Ok::<(Seq<i16>, int), DecodeError>((c, p + pack_block(c).len())),
{
    lemma_unpack_pack_run(c, 0, 0, words, p, zero_block());
}

// ---------------------------------------------------------------------------
// A whole plane.
// ---------------------------------------------------------------------------

/// The 64 coefficients of block `b` of a plane of width `w`, in zigzag order.
pub open spec fn block_coeffs(data: Seq<i16>, w: int, b: int) -> Seq<i16> {
    Seq::new(64, |k: int| data[plane_index(w, b, zigzag_order()[k])])
}

/// The words of the first `n` blocks of a plane, one block after another.
pub open spec fn packed_blocks(data: Seq<i16>, w: int, n: int) -> Seq<u16>
    decreases n,
{
    if n <= 0 {
        seq![]
    } else {
        packed_blocks(data, w, n - 1) + pack_block(block_coeffs(data, w, n - 1))
    }
}

/// A length rounded up to the next multiple of 512.
pub open spec fn padded_len(l: int) -> int {
    if l % 512 == 0 {
        l
    } else {
        l + (512 - l % 512)
    }
}

/// The packed stream of a `w` x `h` plane: the words of all its blocks, then zero
/// words up to a multiple of 512.
pub open spec fn packed_stream(data: Seq<i16>, w: int, h: int) -> Seq<u16> {
    let body = packed_blocks(data, w, block_count(w, h));
    body + Seq::new((padded_len(body.len() as int) - body.len()) as nat, |_j: int| 0u16)
}

/// The first `n` blocks of a packed stream, each in zigzag order, read one after
/// another from its start, and the position after them.
pub open spec fn unpack_blocks(words: Seq<u16>, n: int) -> Result<(Seq<Seq<i16>>, int), DecodeError>
    decreases n,
{
    if n <= 0 {
        Ok((seq![], 0))
    } else {
        match unpack_blocks(words, n - 1) {
            Err(e) => Err(e),
            Ok((blocks, p)) => match unpack_block_at(words, p) {
                Err(e) => Err(e),
                Ok((block, q)) => Ok((blocks.push(block), q)),
            },
        }
    }
}

/// The natural-order plane whose blocks, in zigzag order, are `blocks`.
pub open spec fn plane_of_blocks(w: int, h: int, blocks: Seq<Seq<i16>>) -> Seq<i16> {
    Seq::new(
        (w * h) as nat,
        |idx: int| blocks[block_of(w, idx)][dezigzag_order()[position_of(w, idx)]],
    )
}

/// The plane that a packed stream of a `w` x `h` plane decodes to.
pub open spec fn unpack_plane(w: int, h: int, words: Seq<u16>) -> Result<Seq<i16>, DecodeError> {
    match unpack_blocks(words, block_count(w, h)) {
        Ok((blocks, _)) => Ok(plane_of_blocks(w, h, blocks)),
        Err(e) => Err(e),
    }
}

/// The words of fewer blocks are a prefix of the words of more.
pub proof fn lemma_packed_blocks_prefix(data: Seq<i16>, w: int, n: int, m: int)
    requires
        0 <= n <= m,
    ensures
        packed_blocks(data, w, n).len() <= packed_blocks(data, w, m).len(),
        forall|j: int|
            0 <= j < packed_blocks(data, w, n).len() ==> #[trigger] packed_blocks(data, w, m)[j]
                == packed_blocks(data, w, n)[j],
    decreases m - n,
{
    if n < m {
        lemma_packed_blocks_prefix(data, w, n, m - 1);
    }
}

/// Reading the first `n` blocks of a packed stream gives back the first `n` blocks of
/// the plane, and stops where their words end.
proof fn lemma_unpack_blocks_prefix(data: Seq<i16>, w: int, h: int, n: int)
    requires
        valid_plane(w, h),
        data.len() == w * h,
        forall|j: int| 0 <= j < data.len() ==> in_coeff_range(#[trigger] data[j]),
        0 <= n <= block_count(w, h),
    ensures
        unpack_blocks(packed_stream(data, w, h), n) == Ok::<(Seq<Seq<i16>>, int), DecodeError>(
            (Seq::new(n as nat, |b: int| block_coeffs(data, w, b)), packed_blocks(data, w, n).len() as int),
        ),
    decreases n,
{
    let words = packed_stream(data, w, h);
    let nb = block_count(w, h);
    if n > 0 {
        lemma_unpack_blocks_prefix(data, w, h, n - 1);
        let c = block_coeffs(data, w, n - 1);
        let p = packed_blocks(data, w, n - 1).len() as int;
        assert forall|k: int| 0 <= k < 64 implies in_coeff_range(#[trigger] c[k]) by {
            lemma_orders_inverse();
            lemma_plane_index(w, h, n - 1, zigzag_order()[k]);
        }
        lemma_packed_blocks_prefix(data, w, n, nb);
        assert forall|j: int| 0 <= j < pack_block(c).len() implies words[p + j] == #[trigger] pack_block(c)[j] by {
            assert(packed_blocks(data, w, n)[p + j] == pack_block(c)[j]);
        }
        lemma_block_round_trip(c, words, p);
        assert(Seq::new((n - 1) as nat, |b: int| block_coeffs(data, w, b)).push(c) =~= Seq::new(
            n as nat,
            |b: int| block_coeffs(data, w, b),
        ));
    } else {
        assert(Seq::new(n as nat, |b: int| block_coeffs(data, w, b)) =~= seq![]);
    }
}

/// An all-zero block of a plane takes exactly one word in its packed stream, the
/// terminator, at the block's index.
pub proof fn lemma_zero_block_in_stream(data: Seq<i16>, w: int, h: int, b: int)
    requires
        valid_plane(w, h),
        data.len() == w * h,
        0 <= b < block_count(w, h),
        forall|p: int| 0 <= p < 64 ==> #[trigger] data[plane_index(w, b, p)] == 0,
    ensures
        packed_blocks(data, w, b + 1).len() == packed_blocks(data, w, b).len() + 1,
        packed_stream(data, w, h)[packed_blocks(data, w, b).len() as int] == 0,
{
    let c = block_coeffs(data, w, b);
    assert forall|k: int| 0 <= k < 64 implies #[trigger] c[k] == 0 by {
        lemma_orders_inverse();
    }
    lemma_zero_block_packs_to_sentinel(c);
    let l = packed_blocks(data, w, b).len() as int;
    assert(packed_blocks(data, w, b + 1)[l] == 0u16);
    lemma_packed_blocks_prefix(data, w, b + 1, block_count(w, h));
}

/// Round trip: unpacking the packed stream of a plane whose coefficients fit in 12
/// bits gives back the plane.
pub proof fn lemma_round_trip(width: u32, height: u32, data: Seq<i16>)
    requires
        width % 8 == 0,
        height % 8 == 0,
        data.len() == width * height,
        forall|j: int| 0 <= j < data.len() ==> in_coeff_range(#[trigger] data[j]),
    ensures
        unpack_plane(width as int, height as int, packed_stream(data, width as int, height as int))
            == Ok::<Seq<i16>, DecodeError>(data),
{
    let w = width as int;
    let h = height as int;
    let nb = block_count(w, h);
    if w == 0 {
        assert(nb == 0);
        assert(plane_of_blocks(w, h, seq![]) =~= data);
    } else {
        assert(nb >= 0) by (nonlinear_arith)
            requires nb == (w / 8) * (h / 8), w >= 0, h >= 0;
        lemma_unpack_blocks_prefix(data, w, h, nb);
        let blocks = Seq::new(nb as nat, |b: int| block_coeffs(data, w, b));
        assert forall|idx: int| 0 <= idx < w * h implies #[trigger] plane_of_blocks(w, h, blocks)[idx]
            == data[idx] by {
            lemma_plane_position(w, h, idx);
            lemma_orders_inverse();
        }
        assert(plane_of_blocks(w, h, blocks) =~= data);
    }
}

/// A block's words take at most 64 words, and `n` blocks at most `64 * n`.
pub proof fn lemma_packed_blocks_len(data: Seq<i16>, w: int, n: int)
    requires
        0 <= n,
    ensures
        packed_blocks(data, w, n).len() <= 64 * n,
    decreases n,
{
    if n > 0 {
        lemma_packed_blocks_len(data, w, n - 1);
        lemma_pack_run_len(block_coeffs(data, w, n - 1), 0, 0);
    }
}

/// Appends the words of one block, given in zigzag order.
pub fn pack_block_into(coeffs: &Vec<i16>, packed: &mut Vec<u16>)
    requires
        coeffs@.len() == 64,
    ensures
        final(packed)@ == old(packed)@ + pack_block(coeffs@),
{
    let ghost c = coeffs@;
    let mut zeros: u16 = 0;
    let mut k: usize = 0;
    while k < 64
        invariant
            k <= 64,
            zeros <= k,
            c == coeffs@,
            c.len() == 64,
            old(packed)@ + pack_block(c) == packed@ + pack_run(c, k as int, zeros as int),
        decreases 64 - k,
    {
        let coeff = coeffs[k];
        if coeff == 0 {
            zeros = zeros + 1;
        } else {
            while zeros > 15
                invariant
                    k < 64,
                    c == coeffs@,
                    c.len() == 64,
                    c[k as int] == coeff,
                    coeff != 0,
                    zeros <= k,
                    old(packed)@ + pack_block(c) == packed@ + pack_run(c, k as int, zeros as int),
                decreases zeros,
            {
                proof {
                    lemma_pack_run_filler(c, k as int, zeros as int);
                }
                let filler = pack(15, 0);
                assert(filler == 0xf000u16);
                let ghost before = packed@;
                packed.push(filler);
                proof {
                    assert(before + (seq![filler] + pack_run(c, k as int, zeros - 16)) =~= packed@ + pack_run(
                        c,
                        k as int,
                        zeros - 16,
                    ));
                }
                zeros = zeros - 16;
            }
            let wd = pack(zeros, coeff);
            let ghost before = packed@;
            packed.push(wd);
            proof {
                assert(fillers(zeros as int) =~= Seq::<u16>::empty());
                assert(pack_run(c, k as int, zeros as int) =~= seq![wd] + pack_run(c, k + 1, 0));
                assert(before + (seq![wd] + pack_run(c, k + 1, 0)) =~= packed@ + pack_run(c, k + 1, 0));
            }
            zeros = 0;
        }
        k += 1;
    }
    if zeros > 0 {
        let ghost before = packed@;
        packed.push(0);
        assert(before + seq![0u16] =~= packed@);
    } else {
        assert(packed@ + seq![] =~= packed@);
    }
}

/// Offset of the top-left coefficient of block `b`.
fn block_start(width: u32, height: u32, b: usize) -> (r: usize)
    requires
        valid_plane(width as int, height as int),
        b < block_count(width as int, height as int),
        width * height <= u32::MAX,
    ensures
        r == block_base(width as int, b as int),
{
    let bw = (width / 8) as usize;
    let w = width as usize;
    let by = b / bw;
    let bx = b % bw;
    proof {
        lemma_plane_index(width as int, height as int, b as int, 0);
        assert(by * 8 * w >= 0 && by * 8 <= by * 8 * w) by (nonlinear_arith)
            requires by >= 0, w >= 1;
        assert(by * 8 * w <= block_base(width as int, b as int));
    }
    by * 8 * w + bx * 8
}

/// The 64 coefficients of block `b`, in zigzag order.
fn gather_block(data: &[i16], width: u32, height: u32, b: usize, zigzag: &Vec<Vec<usize>>) -> (coeffs: Vec<i16>)
    requires
        valid_plane(width as int, height as int),
        b < block_count(width as int, height as int),
        width * height <= u32::MAX,
        data@.len() == width * height,
        is_zigzag_table(zigzag@, width as int),
    ensures
        coeffs@ == block_coeffs(data@, width as int, b as int),
{
    let base = block_start(width, height, b);
    let mut coeffs: Vec<i16> = Vec::new();
    let mut j: usize = 0;
    while j < 8
        invariant
            j <= 8,
            valid_plane(width as int, height as int),
            b < block_count(width as int, height as int),
            data@.len() == width * height,
            width * height <= u32::MAX,
            is_zigzag_table(zigzag@, width as int),
            base == block_base(width as int, b as int),
            coeffs@.len() == j * 8,
            forall|k: int|
                0 <= k < j * 8 ==> #[trigger] coeffs@[k] == data@[plane_index(
                    width as int,
                    b as int,
                    zigzag_order()[k],
                )],
        decreases 8 - j,
    {
        let mut i: usize = 0;
        while i < 8
            invariant
                j < 8,
                i <= 8,
                valid_plane(width as int, height as int),
                b < block_count(width as int, height as int),
                data@.len() == width * height,
                width * height <= u32::MAX,
                is_zigzag_table(zigzag@, width as int),
                base == block_base(width as int, b as int),
                coeffs@.len() == j * 8 + i,
                forall|k: int|
                    0 <= k < j * 8 + i ==> #[trigger] coeffs@[k] == data@[plane_index(
                        width as int,
                        b as int,
                        zigzag_order()[k],
                    )],
            decreases 8 - i,
        {
            proof {
                lemma_orders_inverse();
                lemma_plane_index(width as int, height as int, b as int, zigzag_order()[j * 8 + i]);
            }
            let off = zigzag[j][i];
            assert(off == block_offset(zigzag_order()[j * 8 + i], width as int));
            assert(base + off < width * height);
            coeffs.push(data[base + off]);
            i += 1;
        }
        j += 1;
    }
    assert(coeffs@ =~= block_coeffs(data@, width as int, b as int));
    coeffs
}

/// Packs a `width` x `height` plane of natural-order coefficients: each block in
/// block-grid order, as zero runs and coefficients in zigzag order, ending in a
/// terminator word where the block ends in zeros; then zero words up to a multiple
/// of 512. Also hands back the position of each block's first word.
pub fn pack_coeffs(width: u32, height: u32, data: &[i16]) -> (r: (Vec<u16>, Vec<u32>))
    requires
        width % 8 == 0,
        height % 8 == 0,
        width * height <= u32::MAX,
        data@.len() == width * height,
    ensures
        r.0@ == packed_stream(data@, width as int, height as int),
        r.0@.len() % 512 == 0,
        r.1@.len() == block_count(width as int, height as int),
        forall|b: int|
            0 <= b < r.1@.len() ==> #[trigger] r.1@[b] == packed_blocks(data@, width as int, b).len(),
        r.1@.len() > 0 ==> r.1@[0] == 0,
        forall|b: int| 0 <= b < r.1@.len() - 1 ==> #[trigger] r.1@[b] <= r.1@[b + 1],
{
    let ghost w = width as int;
    let ghost h = height as int;
    proof {
        assert((width / 8) * (height / 8) * 64 == width * height) by (nonlinear_arith)
            requires width % 8 == 0, height % 8 == 0;
    }
    let nb: usize = ((width / 8) * (height / 8)) as usize;
    let mut packed: Vec<u16> = Vec::new();
    let mut indices: Vec<u32> = Vec::new();
    if nb > 0 {
        proof {
            assert(height >= 8 && width >= 8) by (nonlinear_arith)
                requires (width / 8) * (height / 8) > 0, width % 8 == 0, height % 8 == 0;
            assert(width * 8 <= width * height) by (nonlinear_arith)
                requires height >= 8;
        }
        let zigzag = make_zigzag_table(width);
        let mut b: usize = 0;
        while b < nb
            invariant
                b <= nb,
                nb == block_count(w, h),
                nb * 64 == w * h,
                w == width,
                h == height,
                valid_plane(w, h),
                width * height <= u32::MAX,
                data@.len() == width * height,
                is_zigzag_table(zigzag@, w),
                packed@ == packed_blocks(data@, w, b as int),
                indices@.len() == b,
                forall|bb: int| 0 <= bb < b ==> #[trigger] indices@[bb] == packed_blocks(data@, w, bb).len(),
            decreases nb - b,
        {
            proof {
                lemma_packed_blocks_len(data@, w, b as int);
            }
            indices.push(packed.len() as u32);
            let coeffs = gather_block(data, width, height, b, &zigzag);
            pack_block_into(&coeffs, &mut packed);
            b += 1;
        }
    }
    let ghost body = packed@;
    proof {
        lemma_packed_blocks_len(data@, w, nb as int);
        if nb == 0 {
            assert(packed@ == packed_blocks(data@, w, 0));
        }
    }
    let overage = packed.len() % 512;
    if overage > 0 {
        let extra = 512 - overage;
        let mut n: usize = 0;
        while n < extra
            invariant
                n <= extra,
                packed@ == body + Seq::new(n as nat, |_j: int| 0u16),
            decreases extra - n,
        {
            packed.push(0);
            n += 1;
            assert(packed@ =~= body + Seq::new(n as nat, |_j: int| 0u16));
        }
    }
    assert(packed@ =~= packed_stream(data@, w, h));
    proof {
        assert forall|b: int| 0 <= b < indices@.len() - 1 implies #[trigger] indices@[b] <= indices@[b + 1] by {
            lemma_packed_blocks_prefix(data@, w, b, b + 1);
        }
    }
    (packed, indices)
}

/// What a block read hands back, for a block outcome `s`.
pub open spec fn block_result_matches(
    r: Result<(Vec<i16>, usize), DecodeError>,
    s: Result<(Seq<i16>, int), DecodeError>,
) -> bool {
    match s {
        Ok((block, q)) => r is Ok && r->Ok_0.0@ == block && r->Ok_0.1 == q,
        Err(e) => r == Err::<(Vec<i16>, usize), DecodeError>(e),
    }
}

/// Decodes the block whose words start at `p`: its 64 coefficients in zigzag order
/// and the position after its words. A terminator word ends the block early; so does
/// reaching the 64th position.
pub fn unpack_block(data: &[u16], p: usize) -> (r: Result<(Vec<i16>, usize), DecodeError>)
    ensures
        block_result_matches(r, unpack_block_at(data@, p as int)),
{
    let mut block: Vec<i16> = vec![0; 64];
    assert(block@ =~= zero_block());
    let mut q: usize = p;
    let mut cursor: usize = 0;
    while cursor < 64
        invariant
            cursor <= 64,
            block@.len() == 64,
            unpack_from(data@, q as int, cursor as int, block@) == unpack_block_at(data@, p as int),
        decreases 64 - cursor,
    {
        if q >= data.len() {
            return Err(DecodeError::UnexpectedEndOfStream);
        }
        let (zeros, coeff) = unpack(data[q]);
        q = q + 1;
        if zeros == 0 && coeff == 0 {
            return Ok((block, q));
        }
        let pos = cursor + zeros as usize;
        if pos >= 64 {
            return Err(DecodeError::MalformedPackedBlock);
        }
        block.set(pos, coeff);
        cursor = pos + 1;
    }
    Ok((block, q))
}

/// A decoded block has 64 coefficients.
pub proof fn lemma_unpack_from_len(words: Seq<u16>, p: int, cursor: int, acc: Seq<i16>)
    requires
        acc.len() == 64,
        0 <= cursor,
    ensures
        unpack_from(words, p, cursor, acc) matches Ok((block, _)) ==> block.len() == 64,
    decreases 64 - cursor,
{
    if cursor < 64 && 0 <= p < words.len() {
        let z = word_zeros(words[p]);
        let v = word_value(words[p]);
        assert(z >= 0);
        if !(z == 0 && v == 0) && cursor + z < 64 {
            lemma_unpack_from_len(words, p + 1, cursor + z + 1, acc.update(cursor + z, v as i16));
        }
    }
}

/// Once reading a block fails, reading more blocks fails the same way.
pub proof fn lemma_unpack_blocks_err(words: Seq<u16>, n: int, m: int)
    requires
        0 <= n <= m,
        unpack_blocks(words, n) is Err,
    ensures
        unpack_blocks(words, m) == unpack_blocks(words, n),
    decreases m - n,
{
    if n < m {
        lemma_unpack_blocks_err(words, n, m - 1);
    }
}

/// The value a plane offset holds once blocks `0..b` have been written from `blocks`
/// and block `b` up to zigzag position `k` from `current`.
pub open spec fn partly_unpacked(
    w: int,
    idx: int,
    blocks: Seq<Seq<i16>>,
    b: int,
    current: Seq<i16>,
    k: int,
) -> i16 {
    let blk = block_of(w, idx);
    let z = dezigzag_order()[position_of(w, idx)];
    if blk < b {
        blocks[blk][z]
    } else if blk == b && z < k {
        current[z]
    } else {
        0
    }
}

/// Unpacks the packed stream of a `width` x `height` plane into natural-order
/// coefficients, reading its blocks one after another from the start of the stream.
pub fn unpack_coeffs(width: u32, height: u32, data: &[u16]) -> (r: Result<Vec<i16>, DecodeError>)
    requires
        width % 8 == 0,
        height % 8 == 0,
        width * height <= u32::MAX,
    ensures
        match unpack_plane(width as int, height as int, data@) {
            Ok(plane) => r is Ok && r->Ok_0@ == plane,
            Err(e) => r == Err::<Vec<i16>, DecodeError>(e),
        },
{
    let ghost w = width as int;
    let ghost h = height as int;
    proof {
        assert((width / 8) * (height / 8) * 64 == width * height) by (nonlinear_arith)
            requires width % 8 == 0, height % 8 == 0;
    }
    let nb: usize = ((width / 8) * (height / 8)) as usize;
    let size: usize = (width * height) as usize;
    let mut coeffs: Vec<i16> = vec![0; size];
    if nb == 0 {
        proof {
            assert(width == 0 || height == 0) by (nonlinear_arith)
                requires (width / 8) * (height / 8) == 0, width % 8 == 0, height % 8 == 0;
            assert(coeffs@ =~= plane_of_blocks(w, h, seq![]));
        }
        return Ok(coeffs);
    }
    proof {
        assert(height >= 8 && width >= 8) by (nonlinear_arith)
            requires (width / 8) * (height / 8) > 0, width % 8 == 0, height % 8 == 0;
        assert(width * 8 <= width * height) by (nonlinear_arith)
            requires height >= 8;
    }
    let zigzag = make_zigzag_table(width);
    let ghost mut blocks: Seq<Seq<i16>> = seq![];
    let mut p: usize = 0;
    let mut b: usize = 0;
    while b < nb
        invariant
            b <= nb,
            nb == block_count(w, h),
            w == width,
            h == height,
            valid_plane(w, h),
            width * height <= u32::MAX,
            is_zigzag_table(zigzag@, w),
            unpack_blocks(data@, b as int) == Ok::<(Seq<Seq<i16>>, int), DecodeError>((blocks, p as int)),
            blocks.len() == b,
            forall|bb: int| 0 <= bb < b ==> (#[trigger] blocks[bb]).len() == 64,
            coeffs@.len() == w * h,
            forall|idx: int|
                0 <= idx < w * h ==> #[trigger] coeffs@[idx] == partly_unpacked(
                    w,
                    idx,
                    blocks,
                    b as int,
                    seq![],
                    0,
                ),
        decreases nb - b,
    {
        let (block, q) = match unpack_block(data, p) {
            Ok(res) => res,
            Err(e) => {
                proof {
                    lemma_unpack_blocks_err(data@, b + 1, nb as int);
                }
                return Err(e);
            },
        };
        proof {
            lemma_unpack_from_len(data@, p as int, 0, zero_block());
        }
        let base = block_start(width, height, b);
        let mut k: usize = 0;
        while k < 64
            invariant
                k <= 64,
                b < nb,
                nb == block_count(w, h),
                w == width,
                h == height,
                valid_plane(w, h),
                width * height <= u32::MAX,
                is_zigzag_table(zigzag@, w),
                base == block_base(w, b as int),
                block@.len() == 64,
                blocks.len() == b,
                coeffs@.len() == w * h,
                forall|idx: int|
                    0 <= idx < w * h ==> #[trigger] coeffs@[idx] == partly_unpacked(
                        w,
                        idx,
                        blocks,
                        b as int,
                        block@,
                        k as int,
                    ),
            decreases 64 - k,
        {
            let off = zigzag[k / 8][k % 8];
            proof {
                lemma_orders_inverse();
                assert(k == (k / 8) * 8 + k % 8);
                lemma_plane_index(w, h, b as int, zigzag_order()[k as int]);
            }
            assert(off == block_offset(zigzag_order()[k as int], w));
            let ghost target = base + off;
            assert(target < w * h);
            let ghost before = coeffs@;
            coeffs.set(base + off, block[k]);
            proof {
                assert forall|idx: int| 0 <= idx < w * h implies #[trigger] coeffs@[idx] == partly_unpacked(
                    w,
                    idx,
                    blocks,
                    b as int,
                    block@,
                    k + 1,
                ) by {
                    if idx != target {
                        lemma_plane_position(w, h, idx);
                        assert(before[idx] == partly_unpacked(w, idx, blocks, b as int, block@, k as int));
                    }
                }
            }
            k += 1;
        }
        proof {
            let nblocks = blocks.push(block@);
            assert forall|idx: int| 0 <= idx < w * h implies #[trigger] coeffs@[idx] == partly_unpacked(
                w,
                idx,
                nblocks,
                b + 1,
                seq![],
                0,
            ) by {
                lemma_plane_position(w, h, idx);
                lemma_orders_inverse();
                assert(partly_unpacked(w, idx, blocks, b as int, block@, 64) == partly_unpacked(
                    w,
                    idx,
                    nblocks,
                    b + 1,
                    seq![],
                    0,
                ));
            }
            blocks = nblocks;
        }
        p = q;
        b += 1;
    }
    proof {
        assert forall|idx: int| 0 <= idx < w * h implies #[trigger] coeffs@[idx] == plane_of_blocks(w, h, blocks)[idx] by {
            lemma_plane_position(w, h, idx);
        }
        assert(coeffs@ =~= plane_of_blocks(w, h, blocks));
    }
    Ok(coeffs)
}

/// A packed plane: its packed stream and the position of each block's first word.
pub struct Plane {
    pub width: u32,
    pub height: u32,
    pub packed_coeffs: Vec<u16>,
    pub packed_indices: Vec<u32>,
}

impl Plane {
    /// Whether this is the packed form of the natural-order plane `data`.
    pub open spec fn packs(&self, data: Seq<i16>) -> bool {
        &&& data.len() == self.width * self.height
        &&& self.packed_coeffs@ == packed_stream(data, self.width as int, self.height as int)
        &&& self.packed_indices@.len() == block_count(self.width as int, self.height as int)
        &&& forall|b: int|
            0 <= b < self.packed_indices@.len() ==> #[trigger] self.packed_indices@[b] == packed_blocks(
                data,
                self.width as int,
                b,
            ).len()
    }

    /// Packs a `width` x `height` plane of natural-order coefficients.
    pub fn from_coeffs(width: u32, height: u32, data: &[i16]) -> (plane: Plane)
        requires
            width % 8 == 0,
            height % 8 == 0,
            width * height <= u32::MAX,
            data@.len() == width * height,
        ensures
            plane.width == width,
            plane.height == height,
            plane.packs(data@),
    {
        let (packed_coeffs, packed_indices) = pack_coeffs(width, height, data);
        Plane { width, height, packed_coeffs, packed_indices }
    }

    /// The natural-order coefficients of this plane.
    pub fn unpack(&self) -> (r: Result<Vec<i16>, DecodeError>)
        requires
            self.width % 8 == 0,
            self.height % 8 == 0,
            self.width * self.height <= u32::MAX,
        ensures
            match unpack_plane(self.width as int, self.height as int, self.packed_coeffs@) {
                Ok(plane) => r is Ok && r->Ok_0@ == plane,
                Err(e) => r == Err::<Vec<i16>, DecodeError>(e),
            },
    {
        unpack_coeffs(self.width, self.height, &self.packed_coeffs)
    }
}

} // verus!
