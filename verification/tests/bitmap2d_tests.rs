use journey_kernel::bitmap2d::BitMap2D;
use journey_kernel::bits::BitVec;
use journey_kernel::tile::GenericTile;

#[test]
fn new_is_empty() {
    let bm = BitMap2D::new(3);
    assert!(bm.is_empty());
    assert_eq!(bm.side(), 8);
    assert_eq!(bm.width_exp(), 3);
    for y in 0..8 {
        for x in 0..8 {
            assert!(!bm.get(x, y));
        }
    }
}

#[test]
fn set_get_roundtrip() {
    let mut bm = BitMap2D::new(2);
    assert!(bm.is_empty());

    bm.set(1, 2, true);
    assert!(!bm.is_empty());
    assert!(bm.get(1, 2));
    assert!(!bm.get(0, 0));
    assert!(!bm.get(2, 1));

    bm.set(1, 2, false);
    assert!(bm.is_empty());
}

#[test]
fn from_bitvec_wraps_correctly() {
    let mut bits = BitVec::repeat(false, 16);
    bits.set(5, true); // (1, 1) in a 4x4 grid
    let bm = BitMap2D::from_bitvec(2, bits);
    assert!(bm.get(1, 1));
    assert!(!bm.get(0, 0));
}

#[test]
fn downscale_4x4_to_2x2() {
    // 4x4 grid:
    // row0: 1 0 0 0
    // row1: 0 0 0 0
    // row2: 0 0 0 1
    // row3: 0 0 0 0
    let mut bm = BitMap2D::new(2);
    bm.set(0, 0, true); // top-left 2x2 block has a pixel
    bm.set(3, 2, true); // bottom-right 2x2 block has a pixel

    let ds = bm.downscale();
    assert_eq!(ds.width_exp(), 1);
    assert_eq!(ds.side(), 2);
    // (0,0) block: has (0,0) set -> true
    assert!(ds.get(0, 0));
    // (1,0) block: top-right 2x2 -> all zero
    assert!(!ds.get(1, 0));
    // (0,1) block: bottom-left 2x2 -> all zero
    assert!(!ds.get(0, 1));
    // (1,1) block: has (3,2) set -> true
    assert!(ds.get(1, 1));
}

#[test]
fn downscale_empty_returns_empty() {
    let bm = BitMap2D::new(3);
    let ds = bm.downscale();
    assert!(ds.is_empty());
    assert_eq!(ds.width_exp(), 2);
}

#[test]
fn build_lods_level_count() {
    let mut bm = BitMap2D::new(4); // 16x16
    bm.set(5, 5, true);
    bm.build_lods();
    // width_exp=4 -> lods: 8x8, 4x4, 2x2, 1x1 = 4 levels
    assert_eq!(bm.lod_levels().len(), 4);
    assert_eq!(bm.lod_level(0).unwrap().len(), 64); // 8x8
    assert_eq!(bm.lod_level(1).unwrap().len(), 16); // 4x4
    assert_eq!(bm.lod_level(2).unwrap().len(), 4); // 2x2
    assert_eq!(bm.lod_level(3).unwrap().len(), 1); // 1x1
}

#[test]
fn build_lods_matches_manual_downscale() {
    let mut bm = BitMap2D::new(3); // 8x8
    bm.set(1, 1, true);
    bm.set(6, 7, true);

    // Build LODs via build_lods
    let mut bm_with_lods = bm.clone();
    bm_with_lods.build_lods();

    // Build manually via chained downscale
    let ds1 = bm.downscale();
    let ds2 = ds1.downscale();
    let ds3 = ds2.downscale();

    assert_eq!(bm_with_lods.lod_level(0).unwrap(), ds1.as_bitvec());
    assert_eq!(bm_with_lods.lod_level(1).unwrap(), ds2.as_bitvec());
    assert_eq!(bm_with_lods.lod_level(2).unwrap(), ds3.as_bitvec());
}

#[test]
fn build_lods_final_level_is_1x1() {
    let mut bm = BitMap2D::new(5); // 32x32
    bm.set(0, 0, true);
    bm.build_lods();

    let last = bm.lod_levels().last().unwrap();
    assert_eq!(last.len(), 1);
    assert!(last.at(0)); // should be true since there's data
}

#[test]
fn build_lods_matches_tile_build_leaf_mipmap() {
    // Create a known pattern
    let width_exp: u8 = 3; // 8x8
    let mut bits = BitVec::repeat(false, 64);
    bits.set(0, true); // (0,0)
    bits.set(9, true); // (1,1)
    bits.set(63, true); // (7,7)

    // Build via GenericTile
    let tile_mipmap = GenericTile::build_leaf_mipmap_from_level0(width_exp as i16, bits.clone());

    // Build via BitMap2D
    let mut bm = BitMap2D::from_bitvec(width_exp, bits);
    bm.build_lods();

    // tile_mipmap[0] is the full-res level (same as bm.bits)
    assert_eq!(&tile_mipmap[0], bm.as_bitvec());

    // tile_mipmap[1..] should match bm.lod_levels()
    for (k, tile_level) in tile_mipmap[1..].iter().enumerate() {
        assert_eq!(tile_level, bm.lod_level(k).unwrap(), "LOD level {} mismatch", k);
    }
}

#[test]
fn width_exp_0_no_lods() {
    let mut bm = BitMap2D::new(0);
    assert_eq!(bm.side(), 1);
    bm.set(0, 0, true);
    bm.build_lods();
    assert_eq!(bm.lod_levels().len(), 0);
}
