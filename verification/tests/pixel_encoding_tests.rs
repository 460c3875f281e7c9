use journey_kernel::pixel_encoding::{
    bitmap_bytes_for_exp, decode_tile_bitmap, decode_tile_coord_list, decode_tile_coord_u32,
    encode_tile_bitmap, encode_tile_coord_list, encode_tile_coord_u32, set_lsb_bit, test_lsb_bit,
};

#[test]
fn bitmap_bytes_for_supported_exponents() {
    assert_eq!(bitmap_bytes_for_exp(2), Ok(2));
    assert_eq!(bitmap_bytes_for_exp(3), Ok(8));
    assert_eq!(bitmap_bytes_for_exp(10), Ok(131072));
    assert_eq!(bitmap_bytes_for_exp(15), Ok(1 << 27));
}

#[test]
fn bitmap_bytes_for_unsupported_exponents() {
    let msg = "bitmap exponent out of supported range [2, 15]".to_string();
    assert_eq!(bitmap_bytes_for_exp(0), Err(msg.clone()));
    assert_eq!(bitmap_bytes_for_exp(1), Err(msg.clone()));
    assert_eq!(bitmap_bytes_for_exp(16), Err(msg));
}

#[test]
fn lsb_bits_set_and_test() {
    let mut bytes = [0u8, 0u8];
    set_lsb_bit(&mut bytes, 9, true);
    assert_eq!(bytes, [0, 2]);
    assert!(test_lsb_bit(&bytes, 9));
    assert!(!test_lsb_bit(&bytes, 8));
    set_lsb_bit(&mut bytes, 0, true);
    assert_eq!(bytes, [1, 2]);
    set_lsb_bit(&mut bytes, 9, false);
    assert_eq!(bytes, [1, 0]);
    assert!(!test_lsb_bit(&bytes, 9));
}

#[test]
fn encode_bitmap_sets_row_major_bits() {
    let bytes = encode_tile_bitmap(&[(0, 0), (3, 0), (1, 2)], 2).unwrap();
    assert_eq!(bytes, vec![0b0000_1001, 0b0000_0010]);
}

#[test]
fn encode_bitmap_rejects_out_of_bounds() {
    assert_eq!(
        encode_tile_bitmap(&[(0, 0), (4, 0), (-1, 0)], 2),
        Err("pixel (4, 0) is outside bitmap bounds [0, 4)".to_string())
    );
    assert_eq!(
        encode_tile_bitmap(&[(1, -3)], 2),
        Err("pixel (1, -3) is outside bitmap bounds [0, 4)".to_string())
    );
}

#[test]
fn encode_bitmap_rejects_unsupported_exponent() {
    assert_eq!(
        encode_tile_bitmap(&[], 1),
        Err("bitmap exponent out of supported range [2, 15]".to_string())
    );
}

#[test]
fn decode_bitmap_lists_set_pixels() {
    assert_eq!(decode_tile_bitmap(&[9, 2], 2), Ok(vec![(0, 0), (3, 0), (1, 2)]));
    assert_eq!(decode_tile_bitmap(&[0, 0], 2), Ok(vec![]));
}

#[test]
fn decode_bitmap_errors() {
    assert_eq!(
        decode_tile_bitmap(&[1, 2, 3], 2),
        Err("bitmap length mismatch: expected 2, got 3".to_string())
    );
    assert_eq!(
        decode_tile_bitmap(&[1, 2], 16),
        Err("bitmap exponent out of supported range [2, 15]".to_string())
    );
}

#[test]
fn bitmap_roundtrip_gives_sorted_unique_pixels() {
    let pixels = vec![(5, 7), (0, 0), (5, 7), (7, 0)];
    let bytes = encode_tile_bitmap(&pixels, 3).unwrap();
    assert_eq!(bytes.len(), 8);
    assert_eq!(decode_tile_bitmap(&bytes, 3), Ok(vec![(0, 0), (7, 0), (5, 7)]));
}

#[test]
fn encode_coord_list_sorts_and_dedups() {
    let bytes = encode_tile_coord_list(&[(3, 1), (0, 2), (3, 1)], 4).unwrap();
    assert_eq!(bytes, vec![0, 0, 2, 0, 3, 0, 1, 0]);
}

#[test]
fn encode_coord_list_rejects_out_of_bounds() {
    assert_eq!(
        encode_tile_coord_list(&[(16, 0), (2, 20)], 4),
        Err("pixel (2, 20) is outside bitmap bounds [0, 16)".to_string())
    );
}

#[test]
fn decode_coord_list_reads_pairs() {
    assert_eq!(decode_tile_coord_list(&[0, 0, 2, 0, 3, 0, 1, 0], 4), Ok(vec![(0, 2), (3, 1)]));
    assert_eq!(decode_tile_coord_list(&[], 4), Ok(vec![]));
}

#[test]
fn decode_coord_list_errors() {
    assert_eq!(
        decode_tile_coord_list(&[0, 0, 2], 4),
        Err("coordinate list byte length must be divisible by 4".to_string())
    );
    assert_eq!(
        decode_tile_coord_list(&[16, 0, 0, 0], 4),
        Err("decoded coordinate (16, 0) is outside bitmap bounds [0, 16)".to_string())
    );
}

#[test]
fn coord_list_roundtrip() {
    let pixels = vec![(9, 1), (2, 3), (9, 1), (0, 15)];
    let bytes = encode_tile_coord_list(&pixels, 4).unwrap();
    assert_eq!(decode_tile_coord_list(&bytes, 4), Ok(vec![(0, 15), (2, 3), (9, 1)]));
}

#[test]
fn encode_coord_u32_packs_sorted_indices() {
    let bytes = encode_tile_coord_u32(&[(1, 1), (0, 0), (1, 1)], 2).unwrap();
    assert_eq!(bytes, vec![0, 0, 0, 0, 5, 0, 0, 0]);
    let wide = encode_tile_coord_u32(&[(1023, 1023)], 10).unwrap();
    assert_eq!(wide, (1023u32 + 1023 * 1024).to_le_bytes().to_vec());
}

#[test]
fn encode_coord_u32_rejects_out_of_bounds() {
    assert_eq!(
        encode_tile_coord_u32(&[(0, 0), (0, 4)], 2),
        Err("pixel (0, 4) is outside bitmap bounds [0, 4)".to_string())
    );
}

#[test]
fn decode_coord_u32_unpacks() {
    assert_eq!(decode_tile_coord_u32(&[5, 0, 0, 0, 0, 0, 0, 0], 2), Ok(vec![(1, 1), (0, 0)]));
}

#[test]
fn decode_coord_u32_errors() {
    assert_eq!(
        decode_tile_coord_u32(&[5, 0, 0], 2),
        Err("u32 index list byte length must be divisible by 4".to_string())
    );
    assert_eq!(
        decode_tile_coord_u32(&[16, 0, 0, 0], 2),
        Err("decoded index 16 is outside bitmap bounds [0, 16)".to_string())
    );
}

#[test]
fn coord_u32_roundtrip() {
    let pixels = vec![(3, 2), (1, 0), (3, 2)];
    let bytes = encode_tile_coord_u32(&pixels, 3).unwrap();
    assert_eq!(decode_tile_coord_u32(&bytes, 3), Ok(vec![(1, 0), (3, 2)]));
}

#[test]
fn decoding_then_encoding_a_bitmap_gives_it_back() {
    // a 4x4 tile: 2 bytes
    let bytes = vec![0b1010_0001u8, 0b0100_0000];
    let pixels = decode_tile_bitmap(&bytes, 2).unwrap();
    assert_eq!(encode_tile_bitmap(&pixels, 2).unwrap(), bytes);
}

#[test]
fn index_list_and_bitmap_decode_alike() {
    let pixels = vec![(3, 1), (0, 0), (2, 3), (3, 1)];
    let from_bitmap = decode_tile_bitmap(&encode_tile_bitmap(&pixels, 2).unwrap(), 2).unwrap();
    let from_list = decode_tile_coord_u32(&encode_tile_coord_u32(&pixels, 2).unwrap(), 2).unwrap();
    assert_eq!(from_list, from_bitmap);
    assert_eq!(from_list, vec![(0, 0), (3, 1), (2, 3)]);
}
