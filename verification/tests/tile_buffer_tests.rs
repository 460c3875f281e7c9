use journey_kernel::bitmap2d::BitMap2D;
use journey_kernel::tile_buffer::TileBuffer;

fn bitmap(pixels: &[(usize, usize)]) -> BitMap2D {
    let mut bm = BitMap2D::new(2);
    for &(x, y) in pixels {
        bm.set(x, y, true);
    }
    bm.build_lods();
    bm
}

/// A 2x2 window at zoom 1 with 4x4 bitmaps: pixels (0, 0) and (3, 3) in cell (0, 0), and
/// pixel (1, 2) in cell (1, 1).
fn grid() -> TileBuffer {
    TileBuffer::from_parsed(
        0,
        0,
        0,
        2,
        2,
        1,
        2,
        vec![(0, 0, bitmap(&[(0, 0), (3, 3)])), (1, 1, bitmap(&[(1, 2)]))],
    )
}

#[test]
fn tile_buffer_finds_placed_tiles() {
    let g = grid();
    assert!(g.find_tile(0, 0).is_some());
    assert!(g.find_tile(1, 1).is_some());
    assert!(g.find_tile(1, 0).is_none());
    assert!(g.find_tile(5, 5).is_none());
    assert!(g.find_tile(1, 1).unwrap().get(1, 2));
    assert_eq!(g.tile_count(), 2);
    assert_eq!(g.total_pixel_count(), 3);
}

#[test]
fn tile_buffer_later_tile_replaces_earlier() {
    let g = TileBuffer::from_parsed(
        0,
        10,
        20,
        1,
        1,
        0,
        2,
        vec![(10, 20, bitmap(&[(0, 0)])), (10, 20, bitmap(&[(2, 2)]))],
    );
    let bm = g.find_tile(10, 20).unwrap();
    assert!(!bm.get(0, 0));
    assert!(bm.get(2, 2));
    assert!(g.find_tile(9, 20).is_none());
}

#[test]
fn tile_buffer_clamps_the_resolution() {
    let g = grid();
    assert_eq!(g.clamped_query_render_exp(0, 9), 3);
    assert_eq!(g.clamped_query_render_exp(2, 9), 1);
    assert_eq!(g.clamped_query_render_exp(1, 1), 1);
    assert_eq!(g.clamped_query_render_exp(7, 5), 0);
}

#[test]
fn tile_buffer_pixels_within_a_cell() {
    let g = grid();
    assert_eq!(g.get_tile_pixels(0, 0, 1, 2), vec![0, 0, 3, 3]);
    assert_eq!(g.get_tile_pixels(1, 1, 1, 2), vec![1, 2]);
    assert_eq!(g.get_tile_pixels(1, 0, 1, 2), Vec::<u16>::new());
    // a quarter of cell (0, 0) at 2x2
    assert_eq!(g.get_tile_pixels(0, 0, 2, 1), vec![0, 0]);
    // out of the zoom's range
    assert_eq!(g.get_tile_pixels(2, 0, 1, 2), Vec::<u16>::new());
    assert_eq!(g.get_tile_pixels(0, 0, 40, 2), Vec::<u16>::new());
}

#[test]
fn tile_buffer_pixels_across_cells() {
    let g = grid();
    // finer than the cells: each cell's pixels at its offset
    assert_eq!(g.get_tile_pixels(0, 0, 0, 3), vec![0, 0, 3, 3, 5, 6]);
    // coarser than the cells: one output pixel per non-empty cell
    assert_eq!(g.get_tile_pixels(0, 0, 0, 0), vec![0, 0, 0, 0]);
}

#[test]
fn tile_buffer_range_queries_concatenate_tiles() {
    let mut g = grid();
    assert_eq!(g.query_range_pixels(0, 0, 1, 2, 2, 2), vec![0, 0, 3, 3, 1, 2]);
    assert_eq!(g.query_range_pixels(0, 0, 1, 0, 2, 2), Vec::<u16>::new());
    g.set_render_exp(1);
    assert_eq!(g.tile_count(), 2);
}

#[test]
fn tile_buffer_with_a_deep_grid_answers_at_its_own_zoom() {
    let g = TileBuffer::from_parsed(0, 0, 0, 1, 1, 20, 12, Vec::new());
    assert_eq!(g.get_tile_pixels(0, 0, 20, 12), Vec::<u16>::new());
    assert_eq!(g.get_tile_pixels(0, 0, 19, 12), Vec::<u16>::new());
    assert_eq!(g.tile_count(), 0);
}
