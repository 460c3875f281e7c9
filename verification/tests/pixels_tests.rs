use journey_kernel::bits::BitVec;
use journey_kernel::tile::{get_tile_pixels, GenericTile};
use journey_kernel::tile_iter::{IndexIter, MipmapIter, OverscanIter, SubtileIter, TilePixelIter};

fn bits(b: &BitVec) -> Vec<bool> {
    (0..b.len()).map(|i| b.at(i)).collect()
}

fn bitvec(v: &[bool]) -> BitVec {
    let mut b = BitVec::repeat(false, v.len());
    for (i, &x) in v.iter().enumerate() {
        b.set(i, x);
    }
    b
}

/// A 4x4 leaf with pixels (0, 0) and (3, 3).
fn corner_leaf() -> GenericTile {
    GenericTile::from_msb_bitmap(2, &[0b1000_0000, 0b0000_0001])
}

fn drain(mut it: TilePixelIter<'_>) -> Vec<(i64, i64)> {
    let mut out = Vec::new();
    while let Some(p) = it.next() {
        out.push(p);
    }
    out
}

#[test]
fn index_iter_walks_the_window_row_major() {
    let mut it = IndexIter::new(1, 0, 1);
    assert_eq!(it.get_min_xy(), (2, 0));
    let mut cells = Vec::new();
    while let Some(c) = it.next() {
        cells.push(c);
    }
    assert_eq!(cells, vec![(2, 0), (3, 0), (2, 1), (3, 1)]);
    assert_eq!(it.next(), None);
}

#[test]
fn mipmap_iter_lists_set_cells_of_the_window() {
    let level = bitvec(&[true, false, false, false, false, true, false, false, false, false, true, true, false, false, false, true]);
    let mut it = MipmapIter::new(&level, 10, 20, 1, 1, 1, 2);
    let mut out = Vec::new();
    while let Some(p) = it.next() {
        out.push(p);
    }
    // window (2..4, 2..4): cells (2,2), (3,2), (3,3) are set
    assert_eq!(out, vec![(10, 20), (11, 20), (11, 21)]);
}

#[test]
fn overscan_iter_expands_cells_to_blocks() {
    let base = bitvec(&[false, true, false, false]);
    let mut it = OverscanIter::new(&base, 0, 0, 0, 0, 0, 1, 1);
    let mut out = Vec::new();
    while let Some(p) = it.next() {
        out.push(p);
    }
    assert_eq!(out, vec![(2, 0), (3, 0), (2, 1), (3, 1)]);
}

#[test]
fn subtile_iter_places_each_sub_tile() {
    let slots = vec![None, Some(Box::new(corner_leaf())), None, Some(Box::new(corner_leaf()))];
    let mut it = SubtileIter::new(&slots, 0, 0, 0, 0, 0, 1, 1);
    let mut out = Vec::new();
    while let Some(p) = it.next() {
        out.push(p);
    }
    assert_eq!(out, vec![(2, 0), (3, 1), (2, 2), (3, 3)]);
}

#[test]
fn pixels_from_the_mipmap() {
    let leaf = corner_leaf();
    assert_eq!(get_tile_pixels(&leaf, 0, 0, 0, 2), vec![(0, 0), (3, 3)]);
    assert_eq!(get_tile_pixels(&leaf, 0, 0, 0, 1), vec![(0, 0), (1, 1)]);
    assert_eq!(get_tile_pixels(&leaf, 0, 0, 0, 0), vec![(0, 0)]);
    assert_eq!(get_tile_pixels(&leaf, 1, 1, 1, 1), vec![(1, 1)]);
    assert_eq!(get_tile_pixels(&leaf, 1, 0, 1, 1), vec![]);
}

#[test]
fn pixels_of_a_leaf_finer_than_its_grid() {
    let leaf = corner_leaf();
    assert_eq!(
        get_tile_pixels(&leaf, 0, 0, 0, 3),
        vec![(0, 0), (1, 0), (0, 1), (1, 1), (6, 6), (7, 6), (6, 7), (7, 7)]
    );
    assert_eq!(drain(leaf.iter_pixels(5, 7, 0, 0, 0, 3)).len(), 8);
    assert_eq!(drain(leaf.iter_pixels(5, 7, 0, 0, 0, 3))[0], (5, 7));
}

#[test]
fn pixels_of_sub_tiles() {
    let mut root = GenericTile::new(1);
    root.set_sub_tile(1, 0, corner_leaf());
    assert_eq!(get_tile_pixels(&root, 0, 0, 0, 3), vec![(4, 0), (7, 3)]);
    // a zoomed-in query descends into the sub-tile
    assert_eq!(get_tile_pixels(&root, 1, 0, 1, 2), vec![(0, 0), (3, 3)]);
    assert_eq!(get_tile_pixels(&root, 0, 1, 1, 2), vec![]);
}

#[test]
fn pixels_of_a_grid_mipmap() {
    let mut root = GenericTile::new(1);
    root.set_sub_tile(1, 0, corner_leaf());
    root.compute_mipmap();
    assert_eq!(get_tile_pixels(&root, 0, 0, 0, 1), vec![(1, 0)]);
    assert_eq!(get_tile_pixels(&root, 0, 0, 0, 0), vec![(0, 0)]);
}

#[test]
fn extract_leaf_levels() {
    let leaf = corner_leaf();
    let all = leaf.mipmap_levels();
    assert_eq!(leaf.extract_mipmap(0, 0, 0, 2), Some(all.clone()));
    assert_eq!(leaf.extract_mipmap(0, 0, 0, 1), Some(all[1..].to_vec()));
    assert_eq!(leaf.extract_mipmap(0, 0, 0, 0), Some(all[2..].to_vec()));
}

#[test]
fn extract_leaf_oversampled() {
    let leaf = corner_leaf();
    let m = leaf.extract_mipmap(0, 0, 0, 3).unwrap();
    assert_eq!(m.len(), 4);
    let mut expected = vec![false; 64];
    for (x, y) in [(0, 0), (1, 0), (0, 1), (1, 1), (6, 6), (7, 6), (6, 7), (7, 7)] {
        expected[x + 8 * y] = true;
    }
    assert_eq!(bits(&m[0]), expected);
    assert_eq!(m[1..].to_vec(), leaf.mipmap_levels());
}

#[test]
fn extract_composes_sub_tiles() {
    let mut root = GenericTile::new(1);
    root.set_sub_tile(1, 0, corner_leaf());
    let m = root.extract_mipmap(0, 0, 0, 3).unwrap();
    assert_eq!(m.len(), 4);
    let mut l0 = vec![false; 64];
    l0[4] = true;
    l0[7 + 8 * 3] = true;
    assert_eq!(bits(&m[0]), l0);
    let mut l1 = vec![false; 16];
    l1[2] = true;
    l1[3 + 4] = true;
    assert_eq!(bits(&m[1]), l1);
    assert_eq!(bits(&m[2]), vec![false, true, false, false]);
    assert_eq!(bits(&m[3]), vec![true]);
}

#[test]
fn extract_composes_whole_words() {
    // sub-tiles whose rows are whole machine words take the word path
    let exp = 7i16;
    let side = 1usize << exp;
    let mut level0 = BitVec::repeat(false, side * side);
    level0.set(0, true);
    level0.set(side * side - 1, true);
    let levels = GenericTile::build_leaf_mipmap_from_level0(exp, level0);
    let leaf = GenericTile::from_precomputed_mipmap(exp, levels);
    let mut root = GenericTile::new(1);
    root.set_sub_tile(0, 1, leaf);
    let m = root.extract_mipmap(0, 0, 0, exp + 1).unwrap();
    assert_eq!(m.len(), (exp + 2) as usize);
    let out_side = 2 * side;
    let l0 = bits(&m[0]);
    assert_eq!(l0.len(), out_side * out_side);
    let set: Vec<usize> = (0..l0.len()).filter(|&i| l0[i]).collect();
    assert_eq!(set, vec![side * out_side, (2 * side - 1) * out_side + side - 1]);
    assert_eq!(bits(&m[(exp + 1) as usize]), vec![true]);
    assert_eq!(bits(&m[exp as usize]), vec![false, false, true, false]);
}

#[test]
fn extract_by_pixels_and_none_when_empty() {
    let leaf = corner_leaf();
    let m = leaf.extract_mipmap(1, 1, 1, 1).unwrap();
    assert_eq!(m.len(), 2);
    assert_eq!(bits(&m[0]), vec![false, false, false, true]);
    assert_eq!(bits(&m[1]), vec![true]);
    assert_eq!(leaf.extract_mipmap(1, 0, 1, 1), None);
}

#[test]
fn extract_descends_below_the_grid() {
    let mut root = GenericTile::new(1);
    root.set_sub_tile(1, 0, corner_leaf());
    let m = root.extract_mipmap(2, 0, 2, 2).unwrap();
    assert_eq!(m.len(), 3);
    let mut l0 = vec![false; 16];
    for i in [0, 1, 4, 5] {
        l0[i] = true;
    }
    assert_eq!(bits(&m[0]), l0);
    assert_eq!(bits(&m[1]), vec![true, false, false, false]);
    assert_eq!(bits(&m[2]), vec![true]);
    assert_eq!(root.extract_mipmap(0, 0, 1, 2), None);
    assert_eq!(corner_leaf().extract_mipmap(0, 0, 3, 2), None);
}

#[test]
fn pixels_stay_inside_the_tile() {
    let mut root = GenericTile::new(1);
    root.set_sub_tile(1, 0, corner_leaf());
    root.set_sub_tile(0, 1, corner_leaf());
    root.compute_mipmap();
    for res in 0..5i16 {
        let side = 1i64 << res;
        for (x, y, z) in [(0, 0, 0), (1, 0, 1), (0, 1, 1), (3, 1, 2)] {
            for (px, py) in get_tile_pixels(&root, x, y, z, res) {
                assert!(0 <= px && px < side && 0 <= py && py < side);
            }
        }
        for (px, py) in drain(root.iter_pixels(-7, 9, 0, 0, 0, res)) {
            assert!(-7 <= px && px < -7 + side && 9 <= py && py < 9 + side);
        }
    }
}

fn raster(pixels: &[(i64, i64)], res: i16) -> Vec<bool> {
    let side = 1i64 << res;
    let mut out = vec![false; (side * side) as usize];
    for &(x, y) in pixels {
        out[(x + y * side) as usize] = true;
    }
    out
}

#[test]
fn extract_agrees_with_listed_pixels() {
    let mut root = GenericTile::new(1);
    root.set_sub_tile(1, 0, corner_leaf());
    root.set_sub_tile(0, 1, corner_leaf());
    root.compute_mipmap();
    let leaf = corner_leaf();
    for res in 0..5i16 {
        let pixels = get_tile_pixels(&leaf, 0, 0, 0, res);
        let extracted = leaf.extract_mipmap(0, 0, 0, res).unwrap();
        assert_eq!(bits(&extracted[0]), raster(&pixels, res));
    }
    for res in 2..6i16 {
        let pixels = get_tile_pixels(&root, 0, 0, 0, res);
        let extracted = root.extract_mipmap(0, 0, 0, res).unwrap();
        assert_eq!(bits(&extracted[0]), raster(&pixels, res));
    }
    for (x, y, z, res) in [(1, 0, 1, 2), (1, 0, 1, 1), (2, 1, 2, 1), (3, 3, 2, 0)] {
        let pixels = get_tile_pixels(&root, x, y, z, res);
        match root.extract_mipmap(x, y, z, res) {
            Some(levels) => assert_eq!(bits(&levels[0]), raster(&pixels, res)),
            None => assert!(pixels.is_empty()),
        }
    }
}

#[test]
fn extracted_mipmaps_are_never_empty() {
    let mut root = GenericTile::new(1);
    root.set_sub_tile(1, 0, corner_leaf());
    root.set_sub_tile(0, 1, corner_leaf());
    root.compute_mipmap();
    let mut found = 0;
    for z in 0..4i16 {
        for res in 0..5i16 {
            let side = 1i64 << z;
            for y in 0..side {
                for x in 0..side {
                    if let Some(levels) = root.extract_mipmap(x, y, z, res) {
                        found += 1;
                        assert!(!levels.is_empty());
                        assert_eq!(levels[0].len(), 1usize << (2 * res));
                        assert!(bits(&levels[0]).iter().any(|&b| b));
                    }
                }
            }
        }
    }
    assert!(found > 0);
    // a quarter of the leaf holding no pixel gives nothing
    assert_eq!(corner_leaf().extract_mipmap(1, 0, 1, 3), None);
}
