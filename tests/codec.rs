use gpeg::{
    make_dezigzag_table, make_zigzag_table, pack, pack_coeffs, unpack, unpack_block, unpack_coeffs, DecodeError,
    Plane,
};

/// Natural-order data of one 8x8 block whose zigzag-ordered coefficients are `zz`.
fn block_from_zigzag(zz: &[i16; 64]) -> Vec<i16> {
    let table = make_zigzag_table(8);
    let mut data = vec![0i16; 64];
    for k in 0..64 {
        data[table[k / 8][k % 8]] = zz[k];
    }
    data
}

/// Two blocks side by side (16x8): the given one, then one with a single DC value.
fn with_marker_block(first: &[i16]) -> Vec<i16> {
    let mut data = vec![0i16; 128];
    for y in 0..8 {
        for x in 0..8 {
            data[y * 16 + x] = first[y * 8 + x];
        }
    }
    data[8] = 7;
    data
}

#[test]
fn zigzag_tables() {
    let zz = make_zigzag_table(8);
    assert_eq!(zz[0], vec![0, 1, 8, 16, 9, 2, 3, 10]);
    assert_eq!(zz[7][7], 63);
    let wide = make_zigzag_table(1024);
    assert_eq!(wide[0][2], 1024);
    assert_eq!(wide[0][3], 2048);
    assert_eq!(wide[7][7], 7 * 1024 + 7);
    let dz = make_dezigzag_table(8);
    assert_eq!(&dz[0..8], &[0, 1, 5, 6, 14, 15, 27, 28]);
}

#[test]
fn zigzag_inverse_law() {
    for &stride in &[8u32, 9, 64, 1024] {
        let zz = make_zigzag_table(stride);
        let dz = make_dezigzag_table(stride);
        let s = stride as usize;
        for n in 0..64 {
            let off = dz[n];
            assert_eq!(zz[off / s][off % s], (n / 8) * s + n % 8);
        }
    }
    let zz = make_zigzag_table(8);
    let dz = make_dezigzag_table(8);
    for n in 0..64 {
        assert_eq!(zz[dz[n] / 8][dz[n] % 8], n);
    }
}

#[test]
fn pack_words() {
    assert_eq!(pack(0, 5), 0x0005);
    assert_eq!(pack(2, 3), 0x2003);
    assert_eq!(pack(15, 0), 0xf000);
    assert_eq!(pack(0, -1), 0x0fff);
    assert_eq!(pack(4, -2048), 0x4800);
    assert_eq!(pack(1, 2047), 0x17ff);
}

#[test]
fn unpack_words() {
    assert_eq!(unpack(0x0005), (0, 5));
    assert_eq!(unpack(0x2003), (2, 3));
    assert_eq!(unpack(0x0fff), (0, -1));
    assert_eq!(unpack(0x4800), (4, -2048));
    assert_eq!(unpack(0xf000), (15, 0));
    assert_eq!(unpack(0x17ff), (1, 2047));
}

#[test]
fn pack_example() {
    let mut zz = [0i16; 64];
    zz[0] = 5;
    zz[3] = 3;
    let data = with_marker_block(&block_from_zigzag(&zz));
    let (packed, indices) = pack_coeffs(16, 8, &data);
    assert_eq!(indices, vec![0, 3]);
    assert_eq!(&packed[0..3], &[pack(0, 5), pack(2, 3), pack(0, 0)]);
    assert_eq!(&packed[3..5], &[pack(0, 7), 0]);
    assert_eq!(packed.len(), 512);
}

#[test]
fn run_chaining() {
    let v: i16 = -9;
    let mut zz = [0i16; 64];
    zz[20] = v;
    let data = with_marker_block(&block_from_zigzag(&zz));
    let (packed, indices) = pack_coeffs(16, 8, &data);
    assert_eq!(&packed[0..3], &[pack(15, 0), pack(4, v), pack(0, 0)]);
    assert_eq!(indices, vec![0, 3]);
}

#[test]
fn long_run_chaining() {
    let mut zz = [0i16; 64];
    zz[63] = 1;
    let (packed, _) = pack_coeffs(8, 8, &block_from_zigzag(&zz));
    assert_eq!(&packed[0..4], &[pack(15, 0), pack(15, 0), pack(15, 0), pack(15, 1)]);
    assert_eq!(unpack_coeffs(8, 8, &packed).unwrap(), block_from_zigzag(&zz));
}

#[test]
fn zero_block_is_one_sentinel() {
    let data = with_marker_block(&[0i16; 64]);
    let (packed, indices) = pack_coeffs(16, 8, &data);
    assert_eq!(indices, vec![0, 1]);
    assert_eq!(packed[0], 0);
    assert_eq!(packed[1], pack(0, 7));
}

#[test]
fn full_block_has_no_terminator() {
    let first: Vec<i16> = (0..64).map(|i| i as i16 + 1).collect();
    let data = with_marker_block(&first);
    let (packed, indices) = pack_coeffs(16, 8, &data);
    assert_eq!(indices, vec![0, 64]);
    assert!(packed[0..64].iter().all(|&w| w >> 12 == 0 && w != 0));
    assert_eq!(unpack_coeffs(16, 8, &packed).unwrap(), data);
}

fn sample_plane(width: usize, height: usize, seed: u32) -> Vec<i16> {
    let mut state = seed;
    let mut data = Vec::with_capacity(width * height);
    for i in 0..width * height {
        state = state.wrapping_mul(1664525).wrapping_add(1013904223);
        let v = if (state >> 28) < 9 { 0 } else { ((state >> 8) % 4096) as i32 - 2048 };
        data.push(if i % 97 == 0 { 2047 } else if i % 89 == 0 { -2048 } else { v as i16 });
    }
    data
}

#[test]
fn round_trip() {
    for &(w, h, seed) in &[(8u32, 8u32, 1u32), (16, 8, 2), (24, 16, 3), (64, 64, 4), (128, 40, 5)] {
        let data = sample_plane(w as usize, h as usize, seed);
        let (packed, _) = pack_coeffs(w, h, &data);
        assert_eq!(unpack_coeffs(w, h, &packed).unwrap(), data);
    }
}

#[test]
fn padding_and_index_laws() {
    for &(w, h, seed) in &[(8u32, 8u32, 7u32), (64, 64, 8), (256, 64, 9)] {
        let data = sample_plane(w as usize, h as usize, seed);
        let (packed, indices) = pack_coeffs(w, h, &data);
        assert_eq!(packed.len() % 512, 0);
        assert!(packed.len() > 0);
        assert_eq!(indices.len(), ((w / 8) * (h / 8)) as usize);
        assert_eq!(indices[0], 0);
        for i in 0..indices.len() - 1 {
            assert!(indices[i] <= indices[i + 1]);
        }
    }
    let full: Vec<i16> = vec![3; 64 * 64];
    let (packed, _) = pack_coeffs(64, 64, &full);
    assert_eq!(packed.len(), 4096);
}

#[test]
fn empty_plane() {
    let (packed, indices) = pack_coeffs(0, 0, &[]);
    assert!(packed.is_empty());
    assert!(indices.is_empty());
    assert_eq!(unpack_coeffs(0, 0, &[]), Ok(vec![]));
}

#[test]
fn unpack_errors() {
    assert_eq!(unpack_coeffs(8, 8, &[]), Err(DecodeError::UnexpectedEndOfStream));
    let mut words = vec![pack(0, 1); 50];
    words.push(pack(15, 1));
    assert_eq!(unpack_coeffs(8, 8, &words), Err(DecodeError::MalformedPackedBlock));
    assert_eq!(unpack_block(&words, 0), Err(DecodeError::MalformedPackedBlock));
}

#[test]
fn unpack_block_stops_at_sentinel() {
    let words = vec![pack(0, 5), pack(2, 3), 0, pack(0, 9)];
    let (block, next) = unpack_block(&words, 0).unwrap();
    assert_eq!(next, 3);
    assert_eq!(block[0], 5);
    assert_eq!(block[3], 3);
    assert!(block.iter().enumerate().all(|(k, &v)| k == 0 || k == 3 || v == 0));
}

#[test]
fn plane_from_coeffs() {
    let data = sample_plane(32, 16, 11);
    let plane = Plane::from_coeffs(32, 16, &data);
    assert_eq!(plane.width, 32);
    assert_eq!(plane.height, 16);
    assert_eq!(plane.packed_indices.len(), 8);
    assert_eq!(plane.packed_coeffs.len() % 512, 0);
    assert_eq!(plane.unpack().unwrap(), data);
}
