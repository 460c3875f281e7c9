use journey_kernel::bitmap2d::{bitvec_from_bytes_lsb, bitvec_to_bytes_lsb, BitMap2D};
use journey_kernel::bits::BitVec;

fn bits(b: &BitVec) -> Vec<bool> {
    (0..b.len()).map(|i| b.at(i)).collect()
}

fn bitvec(v: &[bool]) -> BitVec {
    let mut b = BitVec::repeat(false, v.len());
    for (i, &x) in v.iter().enumerate() {
        b.set(i, x);
    }
    b
}

#[test]
fn to_bytes_lsb_packs_low_bit_first() {
    let mut b = BitVec::repeat(false, 10);
    b.set(0, true);
    b.set(3, true);
    b.set(9, true);
    assert_eq!(bitvec_to_bytes_lsb(&b), vec![0b0000_1001, 0b0000_0010]);
}

#[test]
fn to_bytes_lsb_empty_and_whole_bytes() {
    let empty = BitVec::repeat(false, 0);
    assert_eq!(bitvec_to_bytes_lsb(&empty), Vec::<u8>::new());
    let full = BitVec::repeat(true, 16);
    assert_eq!(bitvec_to_bytes_lsb(&full), vec![0xff, 0xff]);
}

#[test]
fn from_bytes_lsb_reads_low_bit_first() {
    let b = bitvec_from_bytes_lsb(&[0b0000_1001, 0b0000_0010, 0xff], 10);
    assert_eq!(b.len(), 10);
    let expected = [true, false, false, true, false, false, false, false, false, true];
    assert_eq!(bits(&b), expected.to_vec());
}

#[test]
fn lsb_bytes_roundtrip() {
    let pattern: Vec<bool> = (0..37).map(|i| i % 3 == 0 || i % 7 == 1).collect();
    let b = bitvec(&pattern);
    let bytes = bitvec_to_bytes_lsb(&b);
    assert_eq!(bytes.len(), 5);
    let back = bitvec_from_bytes_lsb(&bytes, 37);
    assert_eq!(bits(&back), pattern);
    assert_eq!(back, b);
}

#[test]
fn precomputed_levels_are_kept() {
    let base = bitvec(&[true, false, false, false]);
    let lod = bitvec(&[false]);
    let bm = BitMap2D::from_precomputed(1, base.clone(), vec![lod.clone()]);
    assert_eq!(bm.num_levels(), 2);
    assert_eq!(bm.level_at_offset(0).unwrap(), &base);
    assert_eq!(bm.level_at_offset(1).unwrap(), &lod);
    assert!(bm.level_at_offset(2).is_none());
    assert!(bm.lod_level(1).is_none());
    let all = bm.into_all_levels();
    assert_eq!(all, vec![base, lod]);
}

#[test]
fn pyramid_of_a_pattern() {
    let mut bm = BitMap2D::new(2);
    bm.set(3, 0, true);
    bm.set(0, 3, true);
    bm.build_lods();
    assert_eq!(bm.num_levels(), 3);
    assert_eq!(bits(bm.lod_level(0).unwrap()), vec![false, true, true, false]);
    assert_eq!(bits(bm.lod_level(1).unwrap()), vec![true]);
    let levels = bm.into_all_levels();
    assert_eq!(levels.len(), 3);
    assert_eq!(levels[0].len(), 16);
}

#[test]
fn pyramid_apex_of_empty_is_clear() {
    let mut bm = BitMap2D::new(3);
    bm.build_lods();
    assert!(!bm.lod_levels().last().unwrap().at(0));
}

#[test]
fn downscale_then_pyramid_agree() {
    let mut bm = BitMap2D::new(3);
    bm.set(2, 5, true);
    bm.set(7, 0, true);
    let mut whole = bm.clone();
    whole.build_lods();
    let mut half = bm.downscale();
    half.build_lods();
    assert_eq!(half.as_bitvec(), whole.lod_level(0).unwrap());
    for k in 0..half.lod_levels().len() {
        assert_eq!(half.lod_level(k).unwrap(), whole.lod_level(k + 1).unwrap());
    }
}

#[test]
fn bitvec_basics() {
    let mut b = BitVec::repeat(true, 3);
    assert_eq!(b.len(), 3);
    assert!(!b.not_any());
    b.set(0, false);
    b.set(1, false);
    b.set(2, false);
    assert!(b.not_any());
    assert!(!b.at(1));
}
