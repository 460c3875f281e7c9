use journey_kernel::bits::BitVec;
use journey_kernel::tile::{index_to_xy, xy_to_index, GenericTile, MissingSubTile};

fn bits(b: &BitVec) -> Vec<bool> {
    (0..b.len()).map(|i| b.at(i)).collect()
}

fn bitvec(v: &[bool]) -> BitVec {
    let mut b = BitVec::repeat(false, v.len());
    for (i, &x) in v.iter().enumerate() {
        b.set(i, x);
    }
    b
}

/// A 4x4 leaf with pixels (0, 0) and (3, 3).
fn corner_leaf() -> GenericTile {
    GenericTile::from_msb_bitmap(2, &[0b1000_0000, 0b0000_0001])
}

#[test]
fn xy_index_conversions() {
    assert_eq!(xy_to_index(3, 2, 2), 11);
    assert_eq!(index_to_xy(11, 2), (3, 2));
    assert_eq!(xy_to_index(0, 0, 5), 0);
    assert_eq!(index_to_xy(33, 5), (1, 1));
    // the index is taken as an i64 and split rounding toward zero
    assert_eq!(index_to_xy(usize::MAX, 1), (-1, 0));
    assert_eq!(index_to_xy(5, 63), (5, 0));
}

#[test]
fn xy_index_roundtrip() {
    for w in 0..4i16 {
        let side = 1i64 << w;
        for y in 0..side {
            for x in 0..side {
                assert_eq!(index_to_xy(xy_to_index(x, y, w), w), (x, y));
            }
        }
    }
}

#[test]
fn new_tile_has_empty_slots() {
    let t = GenericTile::new(2);
    assert_eq!(t.width_exp(), 2);
    for y in 0..4 {
        for x in 0..4 {
            assert!(!t.has_sub_tile(x, y));
            assert!(t.get_sub_tile(x, y).is_none());
        }
    }
    assert!(t.mipmap_levels().is_empty());
    assert!(t.iter_present_sub_tiles().is_empty());
}

#[test]
fn set_get_evict_sub_tile() {
    let mut t = GenericTile::new(1);
    t.set_sub_tile(1, 0, GenericTile::new(3));
    assert!(t.has_sub_tile(1, 0));
    assert!(!t.has_sub_tile(0, 1));
    assert_eq!(t.get_sub_tile(1, 0).unwrap().width_exp(), 3);
    t.evict_sub_tile(1, 0);
    assert!(!t.has_sub_tile(1, 0));
}

#[test]
fn present_sub_tiles_in_slot_order() {
    let mut t = GenericTile::new(1);
    t.set_sub_tile(0, 1, GenericTile::new(2));
    t.set_sub_tile(1, 0, GenericTile::new(3));
    let present: Vec<(i64, i64, i16)> = t
        .iter_present_sub_tiles()
        .into_iter()
        .map(|(x, y, s)| (x, y, s.width_exp()))
        .collect();
    assert_eq!(present, vec![(1, 0, 3), (0, 1, 2)]);
}

#[test]
fn compute_mipmap_marks_loaded_slots() {
    let mut t = GenericTile::new(1);
    t.set_sub_tile(1, 0, GenericTile::new(0));
    t.set_sub_tile(0, 1, GenericTile::new(0));
    t.compute_mipmap();
    let levels = t.mipmap_levels();
    assert_eq!(levels.len(), 2);
    assert_eq!(bits(&levels[0]), vec![false, true, true, false]);
    assert_eq!(bits(&levels[1]), vec![true]);
}

#[test]
fn from_msb_bitmap_reads_high_bit_first() {
    let leaf = corner_leaf();
    assert_eq!(leaf.width_exp(), 2);
    let levels = leaf.mipmap_levels();
    assert_eq!(levels.len(), 3);
    let mut expected = vec![false; 16];
    expected[0] = true;
    expected[15] = true;
    assert_eq!(bits(&levels[0]), expected);
    assert_eq!(bits(&levels[1]), vec![true, false, false, true]);
    assert_eq!(bits(&levels[2]), vec![true]);
}

#[test]
fn from_precomputed_mipmap_keeps_levels() {
    let base = bitvec(&[false, true, false, false]);
    let top = bitvec(&[true]);
    let leaf = GenericTile::from_precomputed_mipmap(1, vec![base.clone(), top.clone()]);
    assert_eq!(leaf.width_exp(), 1);
    assert_eq!(leaf.mipmap_levels(), vec![base, top]);
    let bare = GenericTile::from_precomputed_mipmap(4, vec![]);
    assert!(bare.mipmap_levels().is_empty());
}

#[test]
fn set_mipmap_replaces_and_clears() {
    let mut t = GenericTile::new(1);
    let base = bitvec(&[true; 16]);
    let half = bitvec(&[true; 4]);
    t.set_mipmap(vec![base.clone(), half.clone()]);
    assert_eq!(t.mipmap_levels(), vec![base, half]);
    t.set_mipmap(vec![]);
    assert!(t.mipmap_levels().is_empty());
}

#[test]
fn downgrade_keeps_only_the_mipmap() {
    let mut inner = GenericTile::new(1);
    inner.set_sub_tile(0, 0, GenericTile::new(0));
    inner.compute_mipmap();
    let mut root = GenericTile::new(1);
    root.set_sub_tile(1, 1, inner);
    root.downgrade_sub_tile_to_mipmap(1, 1);
    let sub = root.get_sub_tile(1, 1).unwrap();
    assert_eq!(sub.width_exp(), 1);
    assert!(sub.iter_present_sub_tiles().is_empty());
    assert_eq!(bits(&sub.mipmap_levels()[0]), vec![true, false, false, false]);
    // downgrading an empty slot leaves it empty
    root.downgrade_sub_tile_to_mipmap(0, 0);
    assert!(!root.has_sub_tile(0, 0));
}

#[test]
fn to_bytes_of_an_empty_tile() {
    let t = GenericTile::new(0);
    assert_eq!(t.to_bytes(), vec![0, 0, 0, 0, 0, 0, 0, 1, 0, 0, 0, 0]);
}

#[test]
fn to_bytes_of_a_leaf() {
    let leaf = GenericTile::from_precomputed_mipmap(1, vec![bitvec(&[true, false, false, true]), bitvec(&[true])]);
    assert_eq!(
        leaf.to_bytes(),
        vec![
            1, 0, // width_exp
            1, // is_leaf
            2, 0, 0, 0, // two levels
            4, 0, 0, 0, 0, 0, 0, 0, 0b1001, // level 0: 4 bits
            1, 0, 0, 0, 0, 0, 0, 0, 1, // level 1: 1 bit
            0, 0, 0, 0, // no slots
        ]
    );
}

#[test]
fn bytes_roundtrip_of_a_tree() {
    let mut root = GenericTile::new(1);
    root.set_sub_tile(0, 0, corner_leaf());
    root.set_sub_tile(1, 1, GenericTile::new(1));
    root.compute_mipmap();
    let bytes = root.to_bytes();
    let back = GenericTile::from_bytes(&bytes).unwrap();
    assert_eq!(back.to_bytes(), bytes);
    assert_eq!(back.width_exp(), 1);
    assert!(back.has_sub_tile(0, 0));
    assert!(!back.has_sub_tile(1, 0));
    assert!(back.has_sub_tile(1, 1));
    assert_eq!(back.mipmap_levels(), root.mipmap_levels());
    assert_eq!(back.get_sub_tile(0, 0).unwrap().mipmap_levels(), corner_leaf().mipmap_levels());
}

#[test]
fn from_bytes_reports_truncation() {
    let err = |b: &[u8]| GenericTile::from_bytes(b).err().unwrap();
    assert_eq!(err(&[]), "Insufficient data for width_exp");
    assert_eq!(err(&[0, 0]), "Insufficient data for is_leaf");
    assert_eq!(err(&[0, 0, 0, 1, 0]), "Insufficient data for mipmap_count");
    assert_eq!(err(&[0, 0, 0, 1, 0, 0, 0, 4, 0]), "Insufficient data for bit_count");
    assert_eq!(err(&[0, 0, 0, 1, 0, 0, 0, 4, 0, 0, 0, 0, 0, 0, 0]), "Insufficient data for mipmap level");
    assert_eq!(err(&[0, 0, 0, 0, 0, 0, 0, 1, 0]), "Insufficient data for sub_tiles_count");
    assert_eq!(err(&[0, 0, 0, 0, 0, 0, 0, 1, 0, 0, 0]), "Insufficient data for sub_tile exists flag");
    // a present sub-tile is read in place, so its own header reports the shortfall
    assert_eq!(err(&[0, 0, 0, 0, 0, 0, 0, 1, 0, 0, 0, 1]), "Insufficient data for width_exp");
    assert_eq!(err(&[0, 0, 0, 0, 0, 0, 0, 1, 0, 0, 0, 1, 5, 0]), "Insufficient data for is_leaf");
}

#[test]
fn from_bytes_of_a_truncated_sub_tile() {
    // the sub-tile's own bytes stop short
    assert_eq!(
        GenericTile::from_bytes(&[0, 0, 0, 0, 0, 0, 0, 1, 0, 0, 0, 1, 1, 0, 0, 0, 0]).err().unwrap(),
        "Insufficient data for mipmap_count"
    );
}

#[test]
fn sub_tiles_are_written_in_place() {
    let mut root = GenericTile::new(0);
    let leaf = GenericTile::from_precomputed_mipmap(0, vec![bitvec(&[true])]);
    root.set_sub_tile(0, 0, leaf);
    let leaf_bytes = vec![
        0, 0, // width_exp
        1, // is_leaf
        1, 0, 0, 0, // one level
        1, 0, 0, 0, 0, 0, 0, 0, 1, // one bit, set
        0, 0, 0, 0, // no slots
    ];
    let mut expected = vec![0, 0, 0, 0, 0, 0, 0, 1, 0, 0, 0, 1];
    expected.extend_from_slice(&leaf_bytes);
    assert_eq!(root.to_bytes(), expected);
    let back = GenericTile::from_bytes(&expected).unwrap();
    assert_eq!(back.to_bytes(), expected);
    assert_eq!(back.get_sub_tile(0, 0).unwrap().to_bytes(), leaf_bytes);
}

#[test]
fn from_bytes_then_to_bytes_gives_the_bytes_back() {
    let bytes = vec![1, 0, 1, 2, 0, 0, 0, 4, 0, 0, 0, 0, 0, 0, 0, 9, 1, 0, 0, 0, 0, 0, 0, 0, 1, 0, 0, 0, 0];
    let t = GenericTile::from_bytes(&bytes).unwrap();
    assert_eq!(t.width_exp(), 1);
    let levels = t.mipmap_levels();
    assert_eq!(levels.len(), 2);
    assert_eq!(bits(&levels[0]), vec![true, false, false, true]);
    assert_eq!(bits(&levels[1]), vec![true]);
    let extracted = t.extract_mipmap(0, 0, 0, 1).unwrap();
    assert_eq!(bits(&extracted[0]), vec![true, false, false, true]);
    assert_eq!(bits(&extracted[1]), vec![true]);
    assert_eq!(t.to_bytes(), bytes);
}

#[test]
fn check_ready_finds_unloaded_marked_slots() {
    let mut root = GenericTile::new(1);
    root.set_sub_tile(0, 0, corner_leaf());
    root.set_sub_tile(1, 1, corner_leaf());
    root.compute_mipmap();
    root.evict_sub_tile(1, 1);
    let missing = MissingSubTile { x: 1, y: 1, parent_width_exp: 1 };
    // the mipmap alone answers coarse queries
    assert_eq!(root.check_ready(0, 0, 0, 1), vec![]);
    // finer queries need the sub-tiles
    assert_eq!(root.check_ready(0, 0, 0, 2), vec![missing]);
    assert_eq!(root.check_ready(1, 1, 1, 2), vec![missing]);
    assert_eq!(root.check_ready(0, 0, 1, 2), vec![]);
    // below the grid, the query descends to the slot that holds it
    assert_eq!(root.check_ready(3, 3, 2, 0), vec![missing]);
    assert_eq!(root.check_ready(0, 0, 2, 3), vec![]);
}

#[test]
fn check_ready_reports_only_unloaded_marked_slots() {
    let mut root = GenericTile::new(1);
    root.set_sub_tile(0, 0, corner_leaf());
    root.set_sub_tile(1, 0, corner_leaf());
    root.set_sub_tile(1, 1, corner_leaf());
    root.compute_mipmap();
    root.evict_sub_tile(1, 0);
    root.evict_sub_tile(1, 1);
    let reported = root.check_ready(0, 0, 0, 2);
    assert_eq!(reported.len(), 2);
    let base = &root.mipmap_levels()[0];
    for m in &reported {
        assert_eq!(m.parent_width_exp, 1);
        assert!(!root.has_sub_tile(m.x, m.y));
        assert!(base.at((m.x + 2 * m.y) as usize));
    }
}

#[test]
fn check_ready_descends_into_loaded_sub_tiles() {
    let mut inner = GenericTile::new(1);
    inner.set_sub_tile(1, 0, corner_leaf());
    inner.compute_mipmap();
    inner.evict_sub_tile(1, 0);
    let mut root = GenericTile::new(1);
    root.set_sub_tile(0, 1, inner);
    root.compute_mipmap();
    assert_eq!(
        root.check_ready(0, 0, 0, 3),
        vec![MissingSubTile { x: 1, y: 0, parent_width_exp: 1 }]
    );
    // a leaf never reports anything missing
    assert_eq!(corner_leaf().check_ready(0, 0, 0, 5), vec![]);
}

#[test]
fn clone_agrees_with_the_tree() {
    let mut root = GenericTile::new(1);
    root.set_sub_tile(0, 0, corner_leaf());
    root.compute_mipmap();
    let copy = root.clone();
    assert_eq!(copy.to_bytes(), root.to_bytes());
    assert_eq!(copy.get_sub_tile(0, 0).unwrap().mipmap_levels(), corner_leaf().mipmap_levels());
    root.evict_sub_tile(0, 0);
    assert!(copy.has_sub_tile(0, 0));
}

#[test]
fn every_prefix_of_the_bytes_is_an_error() {
    let mut root = GenericTile::new(1);
    root.set_sub_tile(0, 0, corner_leaf());
    root.set_sub_tile(1, 1, GenericTile::new(1));
    root.compute_mipmap();
    let bytes = root.to_bytes();
    for n in 0..bytes.len() {
        let err = GenericTile::from_bytes(&bytes[..n]).err().unwrap();
        assert!(err.starts_with("Insufficient data for "));
    }
    assert!(GenericTile::from_bytes(&bytes).is_ok());
}

#[test]
fn bytes_would_abort_flags_a_mis_sized_base() {
    let good = GenericTile::from_precomputed_mipmap(1, vec![bitvec(&[true, false, false, true])]).to_bytes();
    assert!(!GenericTile::bytes_would_abort(&good));
    // width 1 promises a 4-bit base, the level holds 3 bits
    let bad = vec![1, 0, 1, 1, 0, 0, 0, 3, 0, 0, 0, 0, 0, 0, 0, 0b101, 0, 0, 0, 0];
    assert!(GenericTile::bytes_would_abort(&bad));
    // a short input is an error, not an abort
    assert!(!GenericTile::bytes_would_abort(&bad[..5]));
}
