use vstd::prelude::*;
use vstd::arithmetic::div_mod::lemma_fundamental_div_mod_converse;

verus! {

/// Position in natural (row-major) order of each zigzag-scan position of an 8x8 block.
pub open spec fn zigzag_order() -> Seq<int> {
    seq![
         0,  1,  8, 16,  9,  2,  3, 10,
        17, 24, 32, 25, 18, 11,  4,  5,
        12, 19, 26, 33, 40, 48, 41, 34,
        27, 20, 13,  6,  7, 14, 21, 28,
        35, 42, 49, 56, 57, 50, 43, 36,
        29, 22, 15, 23, 30, 37, 44, 51,
        58, 59, 52, 45, 38, 31, 39, 46,
        53, 60, 61, 54, 47, 55, 62, 63,
    ]
}

/// Zigzag-scan position of each natural (row-major) position of an 8x8 block.
pub open spec fn dezigzag_order() -> Seq<int> {
    seq![
         0,  1,  5,  6, 14, 15, 27, 28,
         2,  4,  7, 13, 16, 26, 29, 42,
         3,  8, 12, 17, 25, 30, 41, 43,
         9, 11, 18, 24, 31, 40, 44, 53,
        10, 19, 23, 32, 39, 45, 52, 54,
        20, 22, 33, 38, 46, 51, 55, 60,
        21, 34, 37, 47, 50, 56, 59, 61,
        35, 36, 48, 49, 57, 58, 62, 63,
    ]
}

/// Linear offset of position `p` of an 8x8 block embedded in a plane whose rows are
/// `stride` elements apart.
pub open spec fn block_offset(p: int, stride: int) -> int {
    (p / 8) * stride + p % 8
}

/// A stride for which every offset inside a block fits in a `u32`.
pub open spec fn valid_stride(stride: u32) -> bool {
    7 * stride + 7 <= u32::MAX
}

/// `t` is the 8x8 zigzag table for rows `stride` apart.
pub open spec fn is_zigzag_table(t: Seq<Vec<usize>>, stride: int) -> bool {
    &&& t.len() == 8
    &&& forall|j: int| 0 <= j < 8 ==> #[trigger] t[j]@.len() == 8
    &&& forall|j: int, i: int|
        0 <= j < 8 && 0 <= i < 8 ==> #[trigger] t[j]@[i] == block_offset(
            zigzag_order()[j * 8 + i],
            stride,
        )
}

/// `t` is the 64-entry de-zigzag table for rows `stride` apart.
pub open spec fn is_dezigzag_table(t: Seq<usize>, stride: int) -> bool {
    &&& t.len() == 64
    &&& forall|n: int| 0 <= n < 64 ==> #[trigger] t[n] == block_offset(dezigzag_order()[n], stride)
}

/// The offset of block position `p` for rows `stride` apart.
fn scaled_offset(p: u32, stride: u32) -> (r: usize)
    requires
        p < 64,
        valid_stride(stride),
    ensures
        r == block_offset(p as int, stride as int),
{
    let base_row = p >> 3;
    let base_col = p % 8;
    assert(base_row == p / 8 && base_row <= 7) by (bit_vector)
        requires base_row == p >> 3u32, p < 64u32;
    assert(base_row * stride <= 7 * stride) by (nonlinear_arith)
        requires base_row <= 7;
    (base_row * stride + base_col) as usize
}

/// The 8x8 zigzag table for rows `stride` apart: entry `[j][i]` is the offset of
/// zigzag position `j * 8 + i`.
pub fn make_zigzag_table(stride: u32) -> (table: Vec<Vec<usize>>)
    requires
        valid_stride(stride),
    ensures
        is_zigzag_table(table@, stride as int),
{
    let base: [u32; 64] = [
         0,  1,  8, 16,  9,  2,  3, 10,
        17, 24, 32, 25, 18, 11,  4,  5,
        12, 19, 26, 33, 40, 48, 41, 34,
        27, 20, 13,  6,  7, 14, 21, 28,
        35, 42, 49, 56, 57, 50, 43, 36,
        29, 22, 15, 23, 30, 37, 44, 51,
        58, 59, 52, 45, 38, 31, 39, 46,
        53, 60, 61, 54, 47, 55, 62, 63,
    ];
    assert(forall|k: int| 0 <= k < 64 ==> base@[k] as int == #[trigger] zigzag_order()[k]);
    assert(forall|k: int| 0 <= k < 64 ==> base@[k] < 64);
    let mut table: Vec<Vec<usize>> = Vec::new();
    let mut j: usize = 0;
    while j < 8
        invariant
            j <= 8,
            valid_stride(stride),
            table@.len() == j,
            forall|k: int| 0 <= k < 64 ==> base@[k] as int == #[trigger] zigzag_order()[k],
            forall|k: int| 0 <= k < 64 ==> #[trigger] base@[k] < 64,
            forall|jj: int| 0 <= jj < j ==> #[trigger] table@[jj]@.len() == 8,
            forall|jj: int, i: int|
                0 <= jj < j && 0 <= i < 8 ==> #[trigger] table@[jj]@[i] == block_offset(
                    zigzag_order()[jj * 8 + i],
                    stride as int,
                ),
        decreases 8 - j,
    {
        let mut row: Vec<usize> = Vec::new();
        let mut i: usize = 0;
        while i < 8
            invariant
                j < 8,
                i <= 8,
                valid_stride(stride),
                row@.len() == i,
                forall|k: int| 0 <= k < 64 ==> base@[k] as int == #[trigger] zigzag_order()[k],
                forall|k: int| 0 <= k < 64 ==> #[trigger] base@[k] < 64,
                forall|ii: int| 0 <= ii < i ==> #[trigger] row@[ii] == block_offset(
                    zigzag_order()[j * 8 + ii],
                    stride as int,
                ),
            decreases 8 - i,
        {
            let off = scaled_offset(base[j * 8 + i], stride);
            row.push(off);
            i += 1;
        }
        table.push(row);
        j += 1;
    }
    table
}

/// The 64-entry de-zigzag table for rows `stride` apart: entry `n` is the offset of
/// the zigzag position of natural position `n`.
pub fn make_dezigzag_table(stride: u32) -> (table: Vec<usize>)
    requires
        valid_stride(stride),
    ensures
        is_dezigzag_table(table@, stride as int),
{
    let base: [u32; 64] = [
         0,  1,  5,  6, 14, 15, 27, 28,
         2,  4,  7, 13, 16, 26, 29, 42,
         3,  8, 12, 17, 25, 30, 41, 43,
         9, 11, 18, 24, 31, 40, 44, 53,
        10, 19, 23, 32, 39, 45, 52, 54,
        20, 22, 33, 38, 46, 51, 55, 60,
        21, 34, 37, 47, 50, 56, 59, 61,
        35, 36, 48, 49, 57, 58, 62, 63,
    ];
    assert(forall|k: int| 0 <= k < 64 ==> base@[k] as int == #[trigger] dezigzag_order()[k]);
    assert(forall|k: int| 0 <= k < 64 ==> base@[k] < 64);
    let mut table: Vec<usize> = Vec::new();
    let mut n: usize = 0;
    while n < 64
        invariant
            n <= 64,
            valid_stride(stride),
            table@.len() == n,
            forall|k: int| 0 <= k < 64 ==> base@[k] as int == #[trigger] dezigzag_order()[k],
            forall|k: int| 0 <= k < 64 ==> #[trigger] base@[k] < 64,
            forall|m: int| 0 <= m < n ==> #[trigger] table@[m] == block_offset(
                dezigzag_order()[m],
                stride as int,
            ),
        decreases 64 - n,
    {
        let off = scaled_offset(base[n], stride);
        table.push(off);
        n += 1;
    }
    table
}

proof fn lemma_orders_inverse_at(n: int)
    requires
        0 <= n < 64,
    ensures
        0 <= zigzag_order()[n] < 64,
        0 <= dezigzag_order()[n] < 64,
        zigzag_order()[dezigzag_order()[n]] == n,
        dezigzag_order()[zigzag_order()[n]] == n,
{
    let z = zigzag_order();
    let d = dezigzag_order();
    assert(z.len() == 64 && d.len() == 64);
    if n < 16 {
        assert(n == 0 || n == 1 || n == 2 || n == 3 || n == 4 || n == 5 || n == 6 || n == 7
            || n == 8 || n == 9 || n == 10 || n == 11 || n == 12 || n == 13 || n == 14 || n == 15);
    } else if n < 32 {
        assert(n == 16 || n == 17 || n == 18 || n == 19 || n == 20 || n == 21 || n == 22 || n == 23
            || n == 24 || n == 25 || n == 26 || n == 27 || n == 28 || n == 29 || n == 30 || n == 31);
    } else if n < 48 {
        assert(n == 32 || n == 33 || n == 34 || n == 35 || n == 36 || n == 37 || n == 38 || n == 39
            || n == 40 || n == 41 || n == 42 || n == 43 || n == 44 || n == 45 || n == 46 || n == 47);
    } else {
        assert(n == 48 || n == 49 || n == 50 || n == 51 || n == 52 || n == 53 || n == 54 || n == 55
            || n == 56 || n == 57 || n == 58 || n == 59 || n == 60 || n == 61 || n == 62 || n == 63);
    }
}

/// The zigzag and de-zigzag orders are inverse permutations of the 64 positions
/// of a block.
pub proof fn lemma_orders_inverse()
    ensures
        forall|n: int| 0 <= n < 64 ==> 0 <= #[trigger] zigzag_order()[n] < 64,
        forall|n: int| 0 <= n < 64 ==> 0 <= #[trigger] dezigzag_order()[n] < 64,
        forall|n: int| 0 <= n < 64 ==> #[trigger] zigzag_order()[dezigzag_order()[n]] == n,
        forall|n: int| 0 <= n < 64 ==> #[trigger] dezigzag_order()[zigzag_order()[n]] == n,
{
    assert forall|n: int| 0 <= n < 64 implies {
        &&& 0 <= #[trigger] zigzag_order()[n] < 64
        &&& 0 <= dezigzag_order()[n] < 64
        &&& zigzag_order()[dezigzag_order()[n]] == n
        &&& dezigzag_order()[zigzag_order()[n]] == n
    } by {
        lemma_orders_inverse_at(n);
    }
}

/// For a stride of at least 8, the row and column of a block position can be read
/// back from its offset.
pub proof fn lemma_block_offset_split(p: int, stride: int)
    requires
        0 <= p < 64,
        stride >= 8,
    ensures
        block_offset(p, stride) / stride == p / 8,
        block_offset(p, stride) % stride == p % 8,
{
    lemma_fundamental_div_mod_converse(block_offset(p, stride), stride, p / 8, p % 8);
}

/// Zigzag inverse law: for a stride of at least 8, looking up the zigzag table at the
/// row and column of a de-zigzag entry gives back the offset of the natural position,
/// and looking up the de-zigzag table at the position of a zigzag entry gives back the
/// offset of the zigzag position. (Below 8 distinct positions share offsets.)
pub proof fn lemma_zigzag_inverse(stride: u32, zz: Seq<Vec<usize>>, dz: Seq<usize>)
    requires
        valid_stride(stride),
        stride >= 8,
        is_zigzag_table(zz, stride as int),
        is_dezigzag_table(dz, stride as int),
    ensures
        forall|n: int|
            0 <= n < 64 ==> zz[(#[trigger] dz[n]) as int / stride as int]@[dz[n] as int % stride as int]
                == block_offset(n, stride as int),
        forall|j: int, i: int|
            0 <= j < 8 && 0 <= i < 8 ==> dz[((#[trigger] zz[j]@[i]) as int / stride as int) * 8 + zz[j]@[i] as int
                % stride as int] == block_offset(j * 8 + i, stride as int),
{
    let s = stride as int;
    lemma_orders_inverse();
    assert forall|n: int| 0 <= n < 64 implies zz[(#[trigger] dz[n]) as int / s]@[dz[n] as int % s] == block_offset(n, s) by {
        let z = dezigzag_order()[n];
        lemma_block_offset_split(z, s);
        assert(z == (z / 8) * 8 + z % 8);
    }
    assert forall|j: int, i: int| 0 <= j < 8 && 0 <= i < 8 implies dz[((#[trigger] zz[j]@[i]) as int / s) * 8
        + zz[j]@[i] as int % s] == block_offset(j * 8 + i, s) by {
        let p = zigzag_order()[j * 8 + i];
        lemma_block_offset_split(p, s);
        assert(p == (p / 8) * 8 + p % 8);
    }
}

} // verus!
