use crate::bitmap2d::BitMap2D;
use crate::bits::any_set;
use crate::tile::{get_tile_pixels, lemma_pixels_in_tile, pyramid, GenericTile};
use vstd::arithmetic::power2::pow2;
use vstd::prelude::*;

verus! {

/// The pixels of a list moved by `(ox, oy)` that land within `0..=u16::MAX` on both axes,
/// flattened as `x, y, x, y, ...`.
pub open spec fn pack(ps: Seq<(int, int)>, ox: int, oy: int) -> Seq<u16>
    decreases ps.len(),
{
    if ps.len() == 0 {
        Seq::empty()
    } else {
        let qx = ox + ps.last().0;
        let qy = oy + ps.last().1;
        pack(ps.drop_last(), ox, oy) + if 0 <= qx <= u16::MAX && 0 <= qy <= u16::MAX {
            seq![qx as u16, qy as u16]
        } else {
            Seq::empty()
        }
    }
}

/// The resolution a query at zoom `tz` is answered at: the requested one, but no finer than
/// the grid's own detail allows (that limit kept, as a byte, modulo 256).
pub open spec fn clamp_render(grid_exp: int, bitmap_exp: int, tz: int, requested: int) -> int {
    let most = if grid_exp + bitmap_exp - tz > 0 {
        (grid_exp + bitmap_exp - tz) % 256
    } else {
        0
    };
    if requested < most {
        requested
    } else {
        most
    }
}

/// A rectangular window of the tile grid at zoom `tile_grid_exp`, each present cell a leaf
/// tile holding a `2^tile_bitmap_exp`-wide bitmap, row-major from the origin.
pub struct TileBuffer {
    grid_origin_x: u16,
    grid_origin_y: u16,
    grid_w: u16,
    grid_h: u16,
    tiles: Vec<Option<GenericTile>>,
    level0_exp: u8,
    tile_grid_exp: u8,
    tile_bitmap_exp: u8,
    render_exp: u8,
}

impl TileBuffer {
    /// One slot per cell of the window.
    pub closed spec fn wf(self) -> bool {
        &&& self.tiles@.len() == self.grid_w * self.grid_h
        &&& forall|i: int| 0 <= i < self.tiles@.len() ==> (#[trigger] self.tiles@[i] matches Some(t) ==> holds_bitmap(t))
    }

    pub closed spec fn grid_exp(self) -> int {
        self.tile_grid_exp as int
    }

    pub closed spec fn bitmap_exp(self) -> int {
        self.tile_bitmap_exp as int
    }

    pub closed spec fn render(self) -> int {
        self.render_exp as int
    }

    /// The leaf at grid cell `(gx, gy)`, `None` outside the window or where nothing is held.
    pub closed spec fn cell(self, gx: int, gy: int) -> Option<GenericTile> {
        let dx = gx - self.grid_origin_x;
        let dy = gy - self.grid_origin_y;
        if 0 <= dx < self.grid_w && 0 <= dy < self.grid_h {
            self.tiles@[dy * self.grid_w + dx]
        } else {
            None
        }
    }

    /// The bitmap held at grid cell `(gx, gy)`.
    pub closed spec fn bitmap_at(self, gx: int, gy: int) -> Option<BitMap2D> {
        leaf_bitmap(self.cell(gx, gy))
    }

    /// What the first `k` cells, row-major, of the `n x n` block at `(bx, by)` give at
    /// resolution `2^sr` each: every held tile's pixels, placed at its cell's offset.
    pub closed spec fn cells_fine(self, bx: int, by: int, n: int, sr: nat, k: nat) -> Seq<u16>
        decreases k,
    {
        if k == 0 || n <= 0 {
            Seq::empty()
        } else {
            let c = (k - 1) as int;
            let dx = c % n;
            let dy = c / n;
            self.cells_fine(bx, by, n, sr, (k - 1) as nat) + if bx + dx > u16::MAX || by + dy > u16::MAX {
                Seq::empty()
            } else {
                match self.cell(bx + dx, by + dy) {
                    Some(t) => pack(t.pixels(0, 0, 0, 0, 0, sr as int), dx * pow2(sr), dy * pow2(sr)),
                    None => Seq::empty(),
                }
            }
        }
    }

    /// What the first `k` cells, row-major, of the `n x n` block at `(bx, by)` give when
    /// `2^cs x 2^cs` cells make one output pixel: that pixel, once per held non-empty tile.
    pub closed spec fn cells_coarse(self, bx: int, by: int, n: int, cs: nat, k: nat) -> Seq<u16>
        decreases k,
    {
        if k == 0 || n <= 0 {
            Seq::empty()
        } else {
            let c = (k - 1) as int;
            let dx = c % n;
            let dy = c / n;
            let ox = dx / pow2(cs) as int;
            let oy = dy / pow2(cs) as int;
            self.cells_coarse(bx, by, n, cs, (k - 1) as nat) + if bx + dx > u16::MAX || by + dy > u16::MAX {
                Seq::empty()
            } else {
                match self.bitmap_at(bx + dx, by + dy) {
                    Some(bm) => if any_set(bm.base()) && ox <= u16::MAX && oy <= u16::MAX {
                        seq![ox as u16, oy as u16]
                    } else {
                        Seq::empty()
                    },
                    None => Seq::empty(),
                }
            }
        }
    }

    /// The pixels of map tile `(tx, ty)` at zoom `tz`, at the clamped resolution, flattened
    /// as `x, y, ...`:
    /// - at or below the grid's zoom, those of the part of the grid cell that holds it;
    /// - above it, at a resolution of at least one pixel per cell, every held cell's pixels
    ///   placed at its offset, cell by cell, row-major, the block's first cell computed in
    ///   32-bit arithmetic (`tx << span`, wrapping);
    /// - above it and coarser, one output pixel per held non-empty cell.
    /// Nothing for a tile outside zoom `tz`'s range.
    pub closed spec fn tile_pixels(self, tx: int, ty: int, tz: int, requested: int) -> Seq<u16> {
        if tz >= 32 || tx >= pow2(tz as nat) || ty >= pow2(tz as nat) {
            Seq::empty()
        } else {
            let r = clamp_render(self.tile_grid_exp as int, self.tile_bitmap_exp as int, tz, requested);
            if tz >= self.tile_grid_exp {
                let dz = (tz - self.tile_grid_exp) as nat;
                let p = pow2(dz) as int;
                if tx / p > u16::MAX || ty / p > u16::MAX {
                    Seq::empty()
                } else {
                    match self.cell(tx / p, ty / p) {
                        Some(t) => pack(t.pixels(0, 0, tx % p, ty % p, dz as int, r), 0, 0),
                        None => Seq::empty(),
                    }
                }
            } else {
                let span = (self.tile_grid_exp - tz) as nat;
                let n = pow2(span) as int;
                let bx = (tx * n) % pow2(32) as int;
                let by = (ty * n) % pow2(32) as int;
                if r >= span {
                    self.cells_fine(bx, by, n, (r - span) as nat, (n * n) as nat)
                } else {
                    self.cells_coarse(bx, by, n, (span - r) as nat, (n * n) as nat)
                }
            }
        }
    }

    /// The queries that can be answered: every held tile they read can list the part of it
    /// that they ask for, and, where the query covers several cells, the 32-bit shifts it
    /// makes stay below 32 (a block at most `2^31` cells wide, and, at one pixel per cell or
    /// finer, a resolution below `2^32`).
    pub closed spec fn query_ok(self, tx: int, ty: int, tz: int, requested: int) -> bool {
        tz < 32 && tx < pow2(tz as nat) && ty < pow2(tz as nat) ==> {
            let r = clamp_render(self.tile_grid_exp as int, self.tile_bitmap_exp as int, tz, requested);
            if tz >= self.tile_grid_exp {
                let dz = (tz - self.tile_grid_exp) as nat;
                let p = pow2(dz) as int;
                self.cell(tx / p, ty / p) matches Some(t) ==> t.pixels_ok(0, 0, tx % p, ty % p, dz as int, r)
            } else {
                let span = (self.tile_grid_exp - tz) as nat;
                let n = pow2(span) as int;
                let bx = (tx * n) % pow2(32) as int;
                let by = (ty * n) % pow2(32) as int;
                &&& span < 32
                &&& r >= span ==> {
                    &&& r < 32
                    &&& forall|gx: int, gy: int|
                        bx <= gx < bx + n && by <= gy < by + n ==> (#[trigger] self.cell(gx, gy) matches Some(t)
                            ==> t.pixels_ok(0, 0, 0, 0, 0, r - span))
                }
            }
        }
    }

    /// The bitmap of each cell of the window, row-major.
    pub closed spec fn bitmaps(self) -> Seq<Option<BitMap2D>> {
        self.tiles@.map_values(|o: Option<GenericTile>| leaf_bitmap(o))
    }

    /// Places each parsed tile `(x, y, bitmap)` at its cell of a `grid_w x grid_h` window
    /// whose first cell is `(origin_x, origin_y)`; a later tile for the same cell replaces an
    /// earlier one.
    pub fn from_parsed(
        level0_exp: u8,
        origin_x: u16,
        origin_y: u16,
        grid_w: u16,
        grid_h: u16,
        tile_grid_exp: u8,
        tile_bitmap_exp: u8,
        parsed: Vec<(u16, u16, BitMap2D)>,
    ) -> (r: Self)
        requires
            forall|i: int|
                0 <= i < parsed@.len() ==> {
                    let p = #[trigger] parsed@[i];
                    origin_x <= p.0 < origin_x + grid_w && origin_y <= p.1 < origin_y + grid_h
                },
        ensures
            r.wf(),
            r.grid_exp() == tile_grid_exp,
            r.bitmap_exp() == tile_bitmap_exp,
            r.render() == tile_bitmap_exp,
            r.origin() == (origin_x as int, origin_y as int),
            r.size() == (grid_w as int, grid_h as int),
            r.bitmaps() == place(
                Seq::new((grid_w * grid_h) as nat, |_i: int| None::<BitMap2D>),
                parsed@,
                origin_x as int,
                origin_y as int,
                grid_w as int,
            ),
    {
        proof {
            assert(grid_w * grid_h <= 0xffff * 0xffff) by (nonlinear_arith)
                requires
                    grid_w <= 0xffff,
                    grid_h <= 0xffff,
            ;
        }
        let total = grid_w as usize * grid_h as usize;
        let mut tiles: Vec<Option<GenericTile>> = Vec::new();
        let mut k: usize = 0;
        while k < total
            invariant
                k <= total,
                tiles@.len() == k,
                forall|j: int| 0 <= j < k ==> #[trigger] tiles@[j] is None,
            decreases total - k,
        {
            tiles.push(None);
            k += 1;
        }
        let count = parsed.len();
        let ghost items = parsed@;
        let ghost empty = Seq::new(total as nat, |_i: int| None::<BitMap2D>);
        proof {
            assert(tiles@.map_values(|o: Option<GenericTile>| leaf_bitmap(o)) =~= empty);
            assert(items.take(0) =~= Seq::<(u16, u16, BitMap2D)>::empty());
            assert(items.skip(0) =~= items);
            assert(items.len() == count);
        }
        let mut parsed = parsed;
        let mut n: usize = 0;
        while parsed.len() > 0
            invariant
                tiles@.len() == total,
                total == grid_w * grid_h,
                n <= items.len(),
                items.len() <= usize::MAX,
                n + parsed@.len() == items.len(),
                parsed@ == items.skip(n as int),
                forall|i: int|
                    0 <= i < items.len() ==> {
                        let p = #[trigger] items[i];
                        origin_x <= p.0 < origin_x + grid_w && origin_y <= p.1 < origin_y + grid_h
                    },
                forall|j: int| 0 <= j < tiles@.len() ==> (#[trigger] tiles@[j] matches Some(t) ==> holds_bitmap(t)),
                tiles@.map_values(|o: Option<GenericTile>| leaf_bitmap(o)) == place(
                    empty,
                    items.take(n as int),
                    origin_x as int,
                    origin_y as int,
                    grid_w as int,
                ),
            decreases parsed@.len(),
        {
            let ghost before = tiles@;
            let (x, y, bm) = parsed.remove(0);
            proof {
                assert(items[n as int] == (x, y, bm));
            }
            proof {
                assert((y - origin_y) * grid_w + (x - origin_x) < total) by (nonlinear_arith)
                    requires
                        0 <= y - origin_y < grid_h,
                        0 <= x - origin_x < grid_w,
                        total == grid_w * grid_h,
                ;
                assert(0 <= (y - origin_y) * grid_w) by (nonlinear_arith)
                    requires
                        0 <= y - origin_y,
                        0 <= grid_w,
                ;
            }
            let idx = (y - origin_y) as usize * grid_w as usize + (x - origin_x) as usize;
            let leaf = GenericTile::leaf_from_bitmap(bm);
            tiles.set(idx, Some(leaf));
            proof {
                assert(items.take(n + 1).drop_last() =~= items.take(n as int));
                assert(items.take(n + 1).last() == items[n as int]);
                assert(tiles@.map_values(|o: Option<GenericTile>| leaf_bitmap(o)) =~= before.map_values(
                    |o: Option<GenericTile>| leaf_bitmap(o),
                ).update(idx as int, Some(bm)));
                assert(parsed@ =~= items.skip(n + 1));
            }
            n += 1;
        }
        proof {
            assert(items.take(n as int) =~= items);
        }
        TileBuffer {
            grid_origin_x: origin_x,
            grid_origin_y: origin_y,
            grid_w,
            grid_h,
            tiles,
            level0_exp,
            tile_grid_exp,
            tile_bitmap_exp,
            render_exp: tile_bitmap_exp,
        }
    }

    /// The leaf at grid cell `(grid_x, grid_y)`.
    fn find_leaf(&self, grid_x: u16, grid_y: u16) -> (r: Option<&GenericTile>)
        requires
            self.wf(),
        ensures
            r is None <==> self.cell(grid_x as int, grid_y as int) is None,
            r matches Some(t) ==> self.cell(grid_x as int, grid_y as int) == Some(*t),
    {
        if grid_x < self.grid_origin_x || grid_y < self.grid_origin_y {
            return None;
        }
        let dx = (grid_x - self.grid_origin_x) as usize;
        let dy = (grid_y - self.grid_origin_y) as usize;
        if dx >= self.grid_w as usize || dy >= self.grid_h as usize {
            return None;
        }
        proof {
            assert(dy * self.grid_w + dx < self.grid_w * self.grid_h) by (nonlinear_arith)
                requires
                    dx < self.grid_w,
                    dy < self.grid_h,
            ;
            assert(self.grid_w * self.grid_h <= 0xffff * 0xffff) by (nonlinear_arith)
                requires
                    self.grid_w <= 0xffff,
                    self.grid_h <= 0xffff,
            ;
            assert(0 <= dy * self.grid_w) by (nonlinear_arith)
                requires
                    0 <= dy,
                    0 <= self.grid_w,
            ;
        }
        match &self.tiles[dy * self.grid_w as usize + dx] {
            Some(t) => Some(t),
            None => None,
        }
    }

    /// The bitmap held at grid cell `(grid_x, grid_y)`, if the window holds one there.
    pub fn find_tile(&self, grid_x: u16, grid_y: u16) -> (r: Option<&BitMap2D>)
        requires
            self.wf(),
        ensures
            r is None <==> self.bitmap_at(grid_x as int, grid_y as int) is None,
            r matches Some(b) ==> self.bitmap_at(grid_x as int, grid_y as int) == Some(*b),
    {
        match self.find_leaf(grid_x, grid_y) {
            Some(t) => t.mipmap_ref(),
            None => None,
        }
    }

    /// The resolution a query at zoom `tile_z` is answered at.
    pub fn clamped_query_render_exp(&self, tile_z: u8, requested_render_exp: u8) -> (r: u8)
        ensures
            r == clamp_render(self.grid_exp(), self.bitmap_exp(), tile_z as int, requested_render_exp as int),
    {
        let world_detail_exp = self.tile_grid_exp as i16 + self.tile_bitmap_exp as i16;
        let diff = world_detail_exp - tile_z as i16;
        let max_render_exp: u8 = if diff > 0 {
            proof {
                assert(diff as u8 == diff % 256) by (bit_vector)
                    requires
                        0 < diff <= 510,
                ;
            }
            #[verifier::truncate] (diff as u8)
        } else {
            0
        };
        if requested_render_exp < max_render_exp {
            requested_render_exp
        } else {
            max_render_exp
        }
    }

    pub fn set_render_exp(&mut self, exp: u8)
        ensures
            final(self).render() == exp,
            final(self).wf() == old(self).wf(),
            final(self).bitmaps() == old(self).bitmaps(),
            final(self).grid_exp() == old(self).grid_exp(),
            final(self).bitmap_exp() == old(self).bitmap_exp(),
            final(self).origin() == old(self).origin(),
            final(self).size() == old(self).size(),
            forall|gx: int, gy: int| #[trigger] final(self).cell(gx, gy) == old(self).cell(gx, gy),
    {
        self.render_exp = exp;
    }

    /// The number of cells that hold a tile.
    pub fn tile_count(&self) -> (r: u32)
        requires
            self.wf(),
        ensures
            r == self.bitmaps().filter(|o: Option<BitMap2D>| o is Some).len(),
    {
        let mut count: u32 = 0;
        let mut i: usize = 0;
        proof {
            assert(self.tiles@.len() <= 0xffff * 0xffff) by (nonlinear_arith)
                requires
                    self.tiles@.len() == self.grid_w * self.grid_h,
                    self.grid_w <= 0xffff,
                    self.grid_h <= 0xffff,
            ;
            assert(self.bitmaps().take(0).filter(|o: Option<BitMap2D>| o is Some) =~= Seq::<Option<BitMap2D>>::empty());
        }
        while i < self.tiles.len()
            invariant
                i <= self.tiles@.len(),
                self.tiles@.len() <= 0xffff * 0xffff,
                count <= i,
                count == self.bitmaps().take(i as int).filter(|o: Option<BitMap2D>| o is Some).len(),
            decreases self.tiles.len() - i,
        {
            let held = match &self.tiles[i] {
                Some(t) => t.mipmap_ref().is_some(),
                None => false,
            };
            proof {
                let v = self.bitmaps();
                assert(v.take(i + 1).drop_last() =~= v.take(i as int));
                assert(v[i as int] == leaf_bitmap(self.tiles@[i as int]));
                reveal(Seq::filter);
            }
            if held {
                count += 1;
            }
            i += 1;
        }
        proof {
            assert(self.bitmaps().take(i as int) =~= self.bitmaps());
        }
        count
    }

    /// Pixels of map tile `(tile_x, tile_y)` at zoom `tile_z`, at the clamped resolution,
    /// flattened as `x, y, ...`.
    #[verifier::rlimit(50)]
    pub fn get_tile_pixels(&self, tile_x: u32, tile_y: u32, tile_z: u8, render_exp: u8) -> (r: Vec<u16>)
        requires
            self.wf(),
            self.query_ok(tile_x as int, tile_y as int, tile_z as int, render_exp as int),
        ensures
            r@ == self.tile_pixels(tile_x as int, tile_y as int, tile_z as int, render_exp as int),
    {
        if tile_z >= 32 {
            return Vec::new();
        }
        proof {
            vstd::bits::lemma_u32_pow2_no_overflow(tile_z as nat);
            vstd::bits::lemma_u32_shl_is_mul(1, tile_z as u32);
        }
        let tiles_per_axis = 1u32 << tile_z;
        if tile_x >= tiles_per_axis || tile_y >= tiles_per_axis {
            return Vec::new();
        }
        let r = self.clamped_query_render_exp(tile_z, render_exp);
        let mut packed: Vec<u16> = Vec::new();
        if tile_z >= self.tile_grid_exp {
            let dz = tile_z - self.tile_grid_exp;
            let ghost p = pow2(dz as nat) as int;
            proof {
                vstd::bits::lemma_u32_shr_is_div(tile_x, dz as u32);
                vstd::bits::lemma_u32_shr_is_div(tile_y, dz as u32);
                vstd::arithmetic::power2::lemma_pow2_pos(dz as nat);
            }
            let parent_x = tile_x >> (dz as u32);
            let parent_y = tile_y >> (dz as u32);
            if parent_x > 0xffff || parent_y > 0xffff {
                return Vec::new();
            }
            let tile = match self.find_leaf(parent_x as u16, parent_y as u16) {
                Some(t) => t,
                None => return Vec::new(),
            };
            let child_mask: u32 = if dz == 0 {
                0
            } else {
                proof {
                    vstd::bits::lemma_u32_pow2_no_overflow(dz as nat);
                    vstd::bits::lemma_u32_shl_is_mul(1, dz as u32);
                }
                (1u32 << (dz as u32)) - 1
            };
            proof {
                if dz == 0 {
                    assert(tile_x & 0u32 == 0u32 && tile_y & 0u32 == 0u32) by (bit_vector);
                    vstd::arithmetic::power2::lemma2_to64();
                } else {
                    assert(vstd::bits::low_bits_mask(dz as nat) == pow2(dz as nat) - 1) by {
                        reveal(vstd::bits::low_bits_mask);
                    }
                    vstd::bits::lemma_u32_low_bits_mask_is_mod(tile_x, dz as nat);
                    vstd::bits::lemma_u32_low_bits_mask_is_mod(tile_y, dz as nat);
                }
            }
            let child_x = (tile_x & child_mask) as i64;
            let child_y = (tile_y & child_mask) as i64;
            proof {
                assert(child_x == (tile_x as int) % p && child_y == (tile_y as int) % p);
                assert(self.cell((tile_x as int) / p, (tile_y as int) / p) == Some(*tile));
            }
            let ps = get_tile_pixels(tile, child_x, child_y, dz as i16, r as i16);
            let ghost pis = tile.pixels(0, 0, child_x as int, child_y as int, dz as int, r as int);
            proof {
                lemma_pixels_in_tile(*tile, 0, 0, child_x as int, child_y as int, dz as int, r as int);
            }
            append_packed(&mut packed, &ps, 0, 0, Ghost(pis));
            return packed;
        }
        let span = self.tile_grid_exp - tile_z;
        proof {
            vstd::bits::lemma_u32_pow2_no_overflow(span as nat);
            vstd::bits::lemma_u32_shl_is_mul(1, span as u32);
            vstd::arithmetic::power2::lemma_pow2_pos(span as nat);
            vstd::arithmetic::power2::lemma2_to64();
        }
        let n = 1u32 << (span as u32);
        proof {
            assert(tile_x as u64 * n as u64 <= u64::MAX && tile_y as u64 * n as u64 <= u64::MAX) by (nonlinear_arith)
                requires
                    tile_x <= u32::MAX,
                    tile_y <= u32::MAX,
                    n <= u32::MAX,
            ;
        }
        // `tile_x << span`, which drops the bits shifted past 32.
        let base_x = ((tile_x as u64 * n as u64) % 0x1_0000_0000u64) as u32;
        let base_y = ((tile_y as u64 * n as u64) % 0x1_0000_0000u64) as u32;
        proof {
            lemma_block_start_fits(tile_x as int, n as int, span as nat);
            lemma_block_start_fits(tile_y as int, n as int, span as nat);
        }
        if r >= span {
            let sr = r - span;
            self.fill_fine(&mut packed, base_x, base_y, n, span, sr);
        } else {
            let cs = span - r;
            self.fill_coarse(&mut packed, base_x, base_y, n, cs);
        }
        packed
    }

    /// Appends what the cells of the `n x n` block at `(base_x, base_y)` give at `2^sr`
    /// pixels each.
    #[verifier::rlimit(50)]
    fn fill_fine(&self, out: &mut Vec<u16>, base_x: u32, base_y: u32, n: u32, span: u8, sr: u8)
        requires
            self.wf(),
            old(out)@.len() == 0,
            n == pow2(span as nat),
            span + sr < 32,
            base_x + n <= pow2(32),
            base_y + n <= pow2(32),
            forall|gx: int, gy: int|
                base_x <= gx < base_x + n && base_y <= gy < base_y + n ==> (#[trigger] self.cell(gx, gy) matches Some(t)
                    ==> t.pixels_ok(0, 0, 0, 0, 0, sr as int)),
        ensures
            final(out)@ == self.cells_fine(base_x as int, base_y as int, n as int, sr as nat, (n * n) as nat),
    {
        proof {
            vstd::arithmetic::power2::lemma_pow2_pos(span as nat);
            vstd::arithmetic::power2::lemma_pow2_pos(sr as nat);
            vstd::arithmetic::power2::lemma_pow2_adds(span as nat, sr as nat);
            vstd::arithmetic::power2::lemma_pow2_strictly_increases((span + sr) as nat, 32);
            vstd::arithmetic::power2::lemma2_to64();
            vstd::bits::lemma_u32_pow2_no_overflow(sr as nat);
        }
        let ghost nn = n as int;
        let ghost q = pow2(sr as nat) as int;
        let mut dy: u32 = 0;
        while dy < n
            invariant
                self.wf(),
                nn == n,
                n == pow2(span as nat),
                q == pow2(sr as nat),
                n * q == pow2((span + sr) as nat),
                n * q < pow2(32),
                n > 0,
                q > 0,
                pow2(32) == 0x1_0000_0000,
                sr < 32,
                base_x + n <= pow2(32),
                base_y + n <= pow2(32),
                dy <= n,
                forall|gx: int, gy: int|
                    base_x <= gx < base_x + n && base_y <= gy < base_y + n ==> (#[trigger] self.cell(gx, gy) matches Some(t)
                        ==> t.pixels_ok(0, 0, 0, 0, 0, sr as int)),
                out@ == self.cells_fine(base_x as int, base_y as int, n as int, sr as nat, (dy * n) as nat),
            decreases n - dy,
        {
            let mut dx: u32 = 0;
            while dx < n
                invariant
                    self.wf(),
                    nn == n,
                    q == pow2(sr as nat),
                    n * q < pow2(32),
                    n > 0,
                    q > 0,
                    pow2(32) == 0x1_0000_0000,
                    sr < 32,
                    base_x + n <= pow2(32),
                    base_y + n <= pow2(32),
                    dy < n,
                    dx <= n,
                    forall|gx: int, gy: int|
                        base_x <= gx < base_x + n && base_y <= gy < base_y + n ==> (#[trigger] self.cell(gx, gy) matches Some(t)
                            ==> t.pixels_ok(0, 0, 0, 0, 0, sr as int)),
                    out@ == self.cells_fine(base_x as int, base_y as int, n as int, sr as nat, (dy * n + dx) as nat),
                decreases n - dx,
            {
                let ghost k = dy * n + dx;
                proof {
                    assert(dy * n + dx < n * n) by (nonlinear_arith)
                        requires
                            dy < n,
                            dx < n,
                    ;
                    vstd::arithmetic::div_mod::lemma_fundamental_div_mod_converse(k, nn, dy as int, dx as int);
                    assert(self.cells_fine(base_x as int, base_y as int, n as int, sr as nat, (k + 1) as nat)
                        == self.cells_fine(base_x as int, base_y as int, n as int, sr as nat, k as nat) + if base_x
                        + dx > u16::MAX || base_y + dy > u16::MAX {
                        Seq::empty()
                    } else {
                        match self.cell(base_x + dx, base_y + dy) {
                            Some(t) => pack(t.pixels(0, 0, 0, 0, 0, sr as int), dx * q, dy * q),
                            None => Seq::empty(),
                        }
                    });
                }
                let gx = base_x + dx;
                let gy = base_y + dy;
                if gx <= 0xffff && gy <= 0xffff {
                    if let Some(tile) = self.find_leaf(gx as u16, gy as u16) {
                        let ps = get_tile_pixels(tile, 0, 0, 0, sr as i16);
                        let ghost pis = tile.pixels(0, 0, 0, 0, 0, sr as int);
                        proof {
                            lemma_pixels_in_tile(*tile, 0, 0, 0, 0, 0, sr as int);
                            assert(dx * q + q <= n * q && dy * q + q <= n * q) by (nonlinear_arith)
                                requires
                                    dx < n,
                                    dy < n,
                                    q > 0,
                            ;
                            vstd::bits::lemma_u32_shl_is_mul(dx, sr as u32);
                            vstd::bits::lemma_u32_shl_is_mul(dy, sr as u32);
                        }
                        let ox = dx << (sr as u32);
                        let oy = dy << (sr as u32);
                        append_packed(out, &ps, ox, oy, Ghost(pis));
                    }
                }
                proof {
                    assert(dy * n + (dx + 1) == k + 1);
                }
                dx += 1;
            }
            proof {
                assert(dy * n + n == (dy + 1) * n) by (nonlinear_arith);
            }
            dy += 1;
        }
    }

    /// Appends, for the cells of the `n x n` block at `(base_x, base_y)` that hold a
    /// non-empty tile, the output pixel that `2^cs x 2^cs` cells make.
    fn fill_coarse(&self, out: &mut Vec<u16>, base_x: u32, base_y: u32, n: u32, cs: u8)
        requires
            self.wf(),
            old(out)@.len() == 0,
            n > 0,
            cs < 32,
            base_x + n <= pow2(32),
            base_y + n <= pow2(32),
        ensures
            final(out)@ == self.cells_coarse(base_x as int, base_y as int, n as int, cs as nat, (n * n) as nat),
    {
        proof {
            vstd::arithmetic::power2::lemma2_to64();
        }
        let ghost nn = n as int;
        let ghost d = pow2(cs as nat) as int;
        proof {
            vstd::arithmetic::power2::lemma_pow2_pos(cs as nat);
        }
        let mut dy: u32 = 0;
        while dy < n
            invariant
                self.wf(),
                nn == n,
                n > 0,
                cs < 32,
                d == pow2(cs as nat),
                d > 0,
                base_x + n <= pow2(32),
                base_y + n <= pow2(32),
                pow2(32) == 0x1_0000_0000,
                dy <= n,
                out@ == self.cells_coarse(base_x as int, base_y as int, n as int, cs as nat, (dy * n) as nat),
            decreases n - dy,
        {
            let mut dx: u32 = 0;
            while dx < n
                invariant
                    self.wf(),
                    nn == n,
                    n > 0,
                    cs < 32,
                    d == pow2(cs as nat),
                    d > 0,
                    base_x + n <= pow2(32),
                    base_y + n <= pow2(32),
                    pow2(32) == 0x1_0000_0000,
                    dy < n,
                    dx <= n,
                    out@ == self.cells_coarse(base_x as int, base_y as int, n as int, cs as nat, (dy * n + dx) as nat),
                decreases n - dx,
            {
                let ghost k = dy * n + dx;
                proof {
                    assert(dy * n + dx < n * n) by (nonlinear_arith)
                        requires
                            dy < n,
                            dx < n,
                    ;
                    vstd::arithmetic::div_mod::lemma_fundamental_div_mod_converse(k, nn, dy as int, dx as int);
                    vstd::bits::lemma_u32_shr_is_div(dx, cs as u32);
                    vstd::bits::lemma_u32_shr_is_div(dy, cs as u32);
                }
                let gx = base_x + dx;
                let gy = base_y + dy;
                if gx <= 0xffff && gy <= 0xffff {
                    if let Some(tile) = self.find_leaf(gx as u16, gy as u16) {
                        if let Some(bm) = tile.mipmap_ref() {
                            if !bm.is_empty() {
                                let out_x = dx >> (cs as u32);
                                let out_y = dy >> (cs as u32);
                                if out_x <= 0xffff && out_y <= 0xffff {
                                    out.push(out_x as u16);
                                    out.push(out_y as u16);
                                }
                            }
                        }
                    }
                }
                proof {
                    let extra = if base_x + dx > u16::MAX || base_y + dy > u16::MAX {
                        Seq::<u16>::empty()
                    } else {
                        match self.bitmap_at(base_x + dx, base_y + dy) {
                            Some(bm) => if any_set(bm.base()) && (dx as int) / d <= u16::MAX && (dy as int) / d <= u16::MAX {
                                seq![((dx as int) / d) as u16, ((dy as int) / d) as u16]
                            } else {
                                Seq::empty()
                            },
                            None => Seq::empty(),
                        }
                    };
                    assert(self.cells_coarse(base_x as int, base_y as int, n as int, cs as nat, (k + 1) as nat)
                        == self.cells_coarse(base_x as int, base_y as int, n as int, cs as nat, k as nat) + extra);
                    assert(out@ =~= self.cells_coarse(base_x as int, base_y as int, n as int, cs as nat, (k + 1) as nat));
                    assert(dy * n + (dx + 1) == k + 1);
                }
                dx += 1;
            }
            proof {
                assert(dy * n + n == (dy + 1) * n) by (nonlinear_arith);
            }
            dy += 1;
        }
    }

    /// What the first `k` tiles, row-major, of the `w`-wide range of map tiles at `(x, y)`
    /// give: each tile's pixels, tiles whose coordinates pass `u32::MAX` skipped.
    pub closed spec fn range_pixels(self, x: int, y: int, z: int, w: int, requested: int, k: nat) -> Seq<u16>
        decreases k,
    {
        if k == 0 || w <= 0 {
            Seq::empty()
        } else {
            let c = (k - 1) as int;
            let tx = x + c % w;
            let ty = y + c / w;
            self.range_pixels(x, y, z, w, requested, (k - 1) as nat) + if tx > u32::MAX || ty > u32::MAX {
                Seq::empty()
            } else {
                self.tile_pixels(tx, ty, z, requested)
            }
        }
    }

    /// The pixels of every map tile of the `w x h` range at `(x, y)`, zoom `z`, tile by tile,
    /// row-major.
    pub fn query_range_pixels(&self, x: u32, y: u32, z: u8, w: u32, h: u32, render_exp: u8) -> (r: Vec<u16>)
        requires
            self.wf(),
            forall|tx: int, ty: int|
                x <= tx < x + w && y <= ty < y + h && tx <= u32::MAX && ty <= u32::MAX ==> #[trigger] self.query_ok(
                    tx,
                    ty,
                    z as int,
                    render_exp as int,
                ),
        ensures
            r@ == self.range_pixels(x as int, y as int, z as int, w as int, render_exp as int, (w * h) as nat),
    {
        let mut out: Vec<u16> = Vec::new();
        if w == 0 || h == 0 {
            proof {
                assert(w * h == 0) by (nonlinear_arith)
                    requires
                        w == 0 || h == 0,
                ;
            }
            return out;
        }
        let ghost ww = w as int;
        let mut dy: u32 = 0;
        while dy < h
            invariant
                self.wf(),
                ww == w,
                w > 0,
                dy <= h,
                forall|tx: int, ty: int|
                    x <= tx < x + w && y <= ty < y + h && tx <= u32::MAX && ty <= u32::MAX ==> #[trigger] self.query_ok(
                        tx,
                        ty,
                        z as int,
                        render_exp as int,
                    ),
                out@ == self.range_pixels(x as int, y as int, z as int, w as int, render_exp as int, (dy * w) as nat),
            decreases h - dy,
        {
            let mut dx: u32 = 0;
            while dx < w
                invariant
                    self.wf(),
                    ww == w,
                    w > 0,
                    dy < h,
                    dx <= w,
                    forall|tx: int, ty: int|
                        x <= tx < x + w && y <= ty < y + h && tx <= u32::MAX && ty <= u32::MAX ==> #[trigger] self.query_ok(
                            tx,
                            ty,
                            z as int,
                            render_exp as int,
                        ),
                    out@ == self.range_pixels(x as int, y as int, z as int, w as int, render_exp as int, (dy * w + dx) as nat),
                decreases w - dx,
            {
                let ghost k = dy * w + dx;
                proof {
                    vstd::arithmetic::div_mod::lemma_fundamental_div_mod_converse(k, ww, dy as int, dx as int);
                }
                let ghost before = out@;
                match x.checked_add(dx) {
                    Some(tile_x) => match y.checked_add(dy) {
                        Some(tile_y) => {
                            let mut tile_pixels = self.get_tile_pixels(tile_x, tile_y, z, render_exp);
                            out.append(&mut tile_pixels);
                        },
                        None => {},
                    },
                    None => {},
                }
                proof {
                    assert(out@ =~= self.range_pixels(
                        x as int,
                        y as int,
                        z as int,
                        w as int,
                        render_exp as int,
                        (k + 1) as nat,
                    ));
                    assert(dy * w + (dx + 1) == k + 1);
                }
                dx += 1;
            }
            proof {
                assert(dy * w + w == (dy + 1) * w) by (nonlinear_arith);
            }
            dy += 1;
        }
        proof {
            assert(dy * w == w * h) by (nonlinear_arith)
                requires
                    dy == h,
            ;
        }
        out
    }

    /// The number of pixels the first `k` cells' tiles hold at the grid's bitmap resolution.
    pub closed spec fn pixel_total(self, k: nat) -> int
        decreases k,
    {
        if k == 0 {
            0
        } else {
            self.pixel_total((k - 1) as nat) + match self.tiles@[k - 1] {
                Some(t) => t.pixels(0, 0, 0, 0, 0, self.tile_bitmap_exp as int).len() as int,
                None => 0,
            }
        }
    }

    /// The number of pixels all held tiles hold at the grid's bitmap resolution.
    pub closed spec fn all_pixels(self) -> int {
        self.pixel_total(self.tiles@.len())
    }

    /// Every held tile can list its pixels at the grid's bitmap resolution.
    pub closed spec fn pixels_listable(self) -> bool {
        forall|i: int|
            0 <= i < self.tiles@.len() ==> (#[trigger] self.tiles@[i] matches Some(t) ==> t.pixels_ok(
                0,
                0,
                0,
                0,
                0,
                self.tile_bitmap_exp as int,
            ))
    }

    /// The number of pixels all held tiles hold at the grid's bitmap resolution.
    pub fn total_pixel_count(&self) -> (r: u32)
        requires
            self.wf(),
            self.pixels_listable(),
            self.all_pixels() <= u32::MAX,
        ensures
            r == self.all_pixels(),
    {
        let mut count: u32 = 0;
        let mut i: usize = 0;
        while i < self.tiles.len()
            invariant
                self.wf(),
                self.pixels_listable(),
                i <= self.tiles@.len(),
                self.pixel_total(self.tiles@.len()) <= u32::MAX,
                count == self.pixel_total(i as nat),
            decreases self.tiles.len() - i,
        {
            proof {
                self.lemma_pixel_total_grows((i + 1) as nat, self.tiles@.len());
            }
            match &self.tiles[i] {
                Some(t) => {
                    let ps = get_tile_pixels(t, 0, 0, 0, self.tile_bitmap_exp as i16);
                    proof {
                        assert(ps@.len() == ps@.map_values(|p: (i64, i64)| (p.0 as int, p.1 as int)).len());
                    }
                    count += ps.len() as u32;
                },
                None => {},
            }
            i += 1;
        }
        count
    }

    proof fn lemma_pixel_total_grows(self, k: nat, m: nat)
        requires
            k <= m,
        ensures
            self.pixel_total(k) <= self.pixel_total(m),
        decreases m - k,
    {
        if k < m {
            self.lemma_pixel_total_grows(k, (m - 1) as nat);
        }
    }

    /// For callers: a query can be answered when every held bitmap is the full pyramid of a
    /// base `2^bitmap_exp` wide, with `2 * bitmap_exp` below 63 and below the word size, and
    /// the query reaches no deeper than those bases' pixels and keeps its 32-bit shifts
    /// below 32.
    pub proof fn lemma_query_ok(self, tx: int, ty: int, tz: int, requested: int)
        requires
            self.wf(),
            0 <= tx,
            0 <= ty,
            0 <= tz,
            0 <= requested,
            2 * self.bitmap_exp() < 63,
            2 * self.bitmap_exp() < usize::BITS,
            forall|gx: int, gy: int|
                #[trigger] self.bitmap_at(gx, gy) matches Some(bm) ==> {
                    &&& bm.exp() == self.bitmap_exp()
                    &&& bm.base().len() == pow2(2 * bm.exp())
                    &&& bm.levels_view() == pyramid(bm.base(), bm.exp())
                },
            tz >= self.grid_exp() ==> tz - self.grid_exp() <= self.bitmap_exp(),
            tz < self.grid_exp() ==> self.grid_exp() - tz < 32 && clamp_render(
                self.grid_exp(),
                self.bitmap_exp(),
                tz,
                requested,
            ) < 32,
        ensures
            self.query_ok(tx, ty, tz, requested),
    {
        if tz < 32 && tx < pow2(tz as nat) && ty < pow2(tz as nat) {
            let g = self.tile_grid_exp as int;
            let e = self.tile_bitmap_exp as int;
            let r = clamp_render(g, e, tz, requested);
            if tz >= g {
                let dz = (tz - g) as nat;
                let p = pow2(dz) as int;
                vstd::arithmetic::power2::lemma_pow2_pos(dz);
                vstd::arithmetic::div_mod::lemma_mod_pos_bound(tx, p);
                vstd::arithmetic::div_mod::lemma_mod_pos_bound(ty, p);
                assert(0 <= r < 63) by {
                    assert(g + e - tz <= e);
                    if g + e - tz > 0 {
                        vstd::arithmetic::div_mod::lemma_small_mod((g + e - tz) as nat, 256);
                    }
                }
                if let Some(t) = self.cell(tx / p, ty / p) {
                    self.lemma_cell_holds(tx / p, ty / p);
                    assert(self.bitmap_at(tx / p, ty / p) == t.mipmap());
                    t.lemma_pyramid_leaf_pixels_ok(tx % p, ty % p, dz as int, r);
                }
            } else {
                let span = (g - tz) as nat;
                let n = pow2(span) as int;
                let bx = (tx * n) % pow2(32) as int;
                let by = (ty * n) % pow2(32) as int;
                if r >= span {
                    assert forall|gx: int, gy: int|
                        bx <= gx < bx + n && by <= gy < by + n implies (#[trigger] self.cell(gx, gy) matches Some(t)
                            ==> t.pixels_ok(0, 0, 0, 0, 0, r - span)) by {
                        if let Some(t) = self.cell(gx, gy) {
                            self.lemma_cell_holds(gx, gy);
                            assert(self.bitmap_at(gx, gy) == t.mipmap());
                            vstd::arithmetic::power2::lemma2_to64();
                            t.lemma_pyramid_leaf_pixels_ok(0, 0, 0, r - span);
                        }
                    }
                }
            }
        }
    }

    /// A held cell's leaf is a leaf tile as wide as its bitmap.
    proof fn lemma_cell_holds(self, gx: int, gy: int)
        requires
            self.wf(),
            self.cell(gx, gy) is Some,
        ensures
            holds_bitmap(self.cell(gx, gy)->0),
    {
        let dx = gx - self.grid_origin_x;
        let dy = gy - self.grid_origin_y;
        assert(0 <= dy * self.grid_w + dx < self.grid_w * self.grid_h) by (nonlinear_arith)
            requires
                0 <= dx < self.grid_w,
                0 <= dy < self.grid_h,
        ;
    }

    /// `(a, b)` is pixel `(px, py)` of the leaf held at block offset `(dx, dy)` of the block
    /// at `(bx, by)`, listed at `2^sr` pixels per cell and moved by the cell's offset:
    /// `a == dx * 2^sr + px` and `b == dy * 2^sr + py`.
    pub open spec fn fine_pixel_of_cell(self, bx: int, by: int, dx: int, dy: int, sr: nat, a: u16, b: u16) -> bool {
        self.cell(bx + dx, by + dy) matches Some(t) && pair_from(
            t.pixels(0, 0, 0, 0, 0, sr as int),
            dx * pow2(sr),
            dy * pow2(sr),
            a,
            b,
        )
    }

    /// `(a, b)` is a pixel of some leaf held in the `n x n` block at `(bx, by)`, placed at its
    /// cell's offset.
    pub open spec fn placed_fine(self, bx: int, by: int, n: int, sr: nat, a: u16, b: u16) -> bool {
        exists|dx: int, dy: int|
            0 <= dx < n && 0 <= dy < n && #[trigger] self.fine_pixel_of_cell(bx, by, dx, dy, sr, a, b)
    }

    /// `(a, b)` is the output pixel of a cell at block offset `(dx, dy)` that holds a
    /// non-empty bitmap, when `2^cs x 2^cs` cells make one output pixel.
    pub open spec fn coarse_pixel_of_cell(self, bx: int, by: int, dx: int, dy: int, cs: nat, a: u16, b: u16) -> bool {
        &&& self.bitmap_at(bx + dx, by + dy) matches Some(bm) && any_set(bm.base())
        &&& a == dx / (pow2(cs) as int)
        &&& b == dy / (pow2(cs) as int)
    }

    /// `(a, b)` is the output pixel of some cell of the `n x n` block at `(bx, by)` that holds
    /// a non-empty bitmap.
    pub open spec fn placed_coarse(self, bx: int, by: int, n: int, cs: nat, a: u16, b: u16) -> bool {
        exists|dx: int, dy: int|
            0 <= dx < n && 0 <= dy < n && #[trigger] self.coarse_pixel_of_cell(bx, by, dx, dy, cs, a, b)
    }

    #[verifier::spinoff_prover]
    #[verifier::rlimit(40)]
    proof fn lemma_cells_fine_placed(self, bx: int, by: int, n: int, sr: nat, k: nat)
        requires
            n > 0,
            k <= n * n,
        ensures
            self.cells_fine(bx, by, n, sr, k).len() % 2 == 0,
            forall|i: int|
                0 <= i < self.cells_fine(bx, by, n, sr, k).len() / 2 ==> {
                    let q = #[trigger] pair_at(self.cells_fine(bx, by, n, sr, k), i);
                    self.placed_fine(bx, by, n, sr, q.0, q.1)
                },
        decreases k,
    {
        if k > 0 {
            self.lemma_cells_fine_placed(bx, by, n, sr, (k - 1) as nat);
            let c = (k - 1) as int;
            let dx = c % n;
            let dy = c / n;
            vstd::arithmetic::div_mod::lemma_fundamental_div_mod(c, n);
            vstd::arithmetic::div_mod::lemma_mod_pos_bound(c, n);
            vstd::arithmetic::div_mod::lemma_div_pos_is_pos(c, n);
            assert(dy < n) by (nonlinear_arith)
                requires
                    c == n * dy + dx,
                    0 <= dx,
                    c < n * n,
                    n > 0,
            ;
            let prev = self.cells_fine(bx, by, n, sr, (k - 1) as nat);
            let all = self.cells_fine(bx, by, n, sr, k);
            let extra = all.subrange(prev.len() as int, all.len() as int);
            assert(all == prev + extra);
            if !(bx + dx > u16::MAX || by + dy > u16::MAX) {
                if let Some(t) = self.cell(bx + dx, by + dy) {
                    lemma_pack_pairs(t.pixels(0, 0, 0, 0, 0, sr as int), dx * pow2(sr), dy * pow2(sr));
                }
            }
            assert(extra.len() % 2 == 0);
            assert forall|i: int| 0 <= i < all.len() / 2 implies {
                let q = #[trigger] pair_at(all, i);
                self.placed_fine(bx, by, n, sr, q.0, q.1)
            } by {
                if i < prev.len() / 2 {
                    assert(pair_at(all, i) == pair_at(prev, i));
                } else {
                    let i2 = i - prev.len() / 2;
                    assert(pair_at(all, i) == pair_at(extra, i2));
                    let q = pair_at(all, i);
                    if !(bx + dx > u16::MAX || by + dy > u16::MAX) {
                        if let Some(t) = self.cell(bx + dx, by + dy) {
                            let pk = pack(t.pixels(0, 0, 0, 0, 0, sr as int), dx * pow2(sr), dy * pow2(sr));
                            assert(extra == pk);
                            assert(pair_at(extra, i2) == pair_at(pk, i2));
                            assert(self.fine_pixel_of_cell(bx, by, dx, dy, sr, q.0, q.1));
                        }
                    }
                }
            }
        }
    }

    #[verifier::spinoff_prover]
    #[verifier::rlimit(40)]
    proof fn lemma_cells_coarse_placed(self, bx: int, by: int, n: int, cs: nat, k: nat)
        requires
            n > 0,
            k <= n * n,
        ensures
            self.cells_coarse(bx, by, n, cs, k).len() % 2 == 0,
            forall|i: int|
                0 <= i < self.cells_coarse(bx, by, n, cs, k).len() / 2 ==> {
                    let q = #[trigger] pair_at(self.cells_coarse(bx, by, n, cs, k), i);
                    self.placed_coarse(bx, by, n, cs, q.0, q.1)
                },
        decreases k,
    {
        if k > 0 {
            self.lemma_cells_coarse_placed(bx, by, n, cs, (k - 1) as nat);
            let c = (k - 1) as int;
            let dx = c % n;
            let dy = c / n;
            vstd::arithmetic::div_mod::lemma_fundamental_div_mod(c, n);
            vstd::arithmetic::div_mod::lemma_mod_pos_bound(c, n);
            vstd::arithmetic::div_mod::lemma_div_pos_is_pos(c, n);
            assert(dy < n) by (nonlinear_arith)
                requires
                    c == n * dy + dx,
                    0 <= dx,
                    c < n * n,
                    n > 0,
            ;
            let prev = self.cells_coarse(bx, by, n, cs, (k - 1) as nat);
            let all = self.cells_coarse(bx, by, n, cs, k);
            let extra = all.subrange(prev.len() as int, all.len() as int);
            assert(all == prev + extra);
            assert forall|i: int| 0 <= i < all.len() / 2 implies {
                let q = #[trigger] pair_at(all, i);
                self.placed_coarse(bx, by, n, cs, q.0, q.1)
            } by {
                if i < prev.len() / 2 {
                    assert(pair_at(all, i) == pair_at(prev, i));
                } else {
                    assert(pair_at(all, i) == pair_at(extra, 0));
                    let q = pair_at(all, i);
                    vstd::arithmetic::power2::lemma_pow2_pos(cs);
                    vstd::arithmetic::div_mod::lemma_div_pos_is_pos(dx, pow2(cs) as int);
                    vstd::arithmetic::div_mod::lemma_div_pos_is_pos(dy, pow2(cs) as int);
                    assert(self.coarse_pixel_of_cell(bx, by, dx, dy, cs, q.0, q.1));
                }
            }
        }
    }

    /// Every pixel of the leaf held at block offset `(dx, dy)`, moved by the cell's offset at
    /// `2^sr` pixels per cell, that lands within `0..=u16::MAX` is a pair of `out`.
    pub open spec fn fine_cell_reported(self, out: Seq<u16>, bx: int, by: int, dx: int, dy: int, sr: nat) -> bool {
        self.cell(bx + dx, by + dy) matches Some(t) ==> forall|j: int|
            {
                let p = #[trigger] t.pixels(0, 0, 0, 0, 0, sr as int)[j];
                let a = dx * pow2(sr) + p.0;
                let b = dy * pow2(sr) + p.1;
                0 <= j < t.pixels(0, 0, 0, 0, 0, sr as int).len() && 0 <= a <= u16::MAX && 0 <= b <= u16::MAX
                    ==> has_pair(out, a as u16, b as u16)
            }
    }

    /// A cell at block offset `(dx, dy)` that holds a non-empty bitmap has its output pixel,
    /// the offset divided by `2^cs`, among the pairs of `out`.
    pub open spec fn coarse_cell_reported(self, out: Seq<u16>, bx: int, by: int, dx: int, dy: int, cs: nat) -> bool {
        (self.bitmap_at(bx + dx, by + dy) matches Some(bm) && any_set(bm.base())) ==> has_pair(
            out,
            (dx / (pow2(cs) as int)) as u16,
            (dy / (pow2(cs) as int)) as u16,
        )
    }

    #[verifier::spinoff_prover]
    #[verifier::rlimit(40)]
    proof fn lemma_cells_fine_complete(self, bx: int, by: int, n: int, sr: nat, k: nat)
        requires
            n > 0,
            k <= n * n,
        ensures
            forall|dx: int, dy: int|
                0 <= dx < n && 0 <= dy < n && dy * n + dx < k && bx + dx <= u16::MAX && by + dy <= u16::MAX
                    ==> #[trigger] self.fine_cell_reported(self.cells_fine(bx, by, n, sr, k), bx, by, dx, dy, sr),
        decreases k,
    {
        if k > 0 {
            self.lemma_cells_fine_complete(bx, by, n, sr, (k - 1) as nat);
            self.lemma_cells_fine_placed(bx, by, n, sr, (k - 1) as nat);
            let c = (k - 1) as int;
            let cx = c % n;
            let cy = c / n;
            vstd::arithmetic::div_mod::lemma_fundamental_div_mod(c, n);
            let prev = self.cells_fine(bx, by, n, sr, (k - 1) as nat);
            let all = self.cells_fine(bx, by, n, sr, k);
            let extra = all.subrange(prev.len() as int, all.len() as int);
            assert(all == prev + extra);
            assert forall|dx: int, dy: int|
                0 <= dx < n && 0 <= dy < n && dy * n + dx < k && bx + dx <= u16::MAX && by + dy <= u16::MAX implies #[trigger] self.fine_cell_reported(
                all,
                bx,
                by,
                dx,
                dy,
                sr,
            ) by {
                if let Some(t) = self.cell(bx + dx, by + dy) {
                    let ps = t.pixels(0, 0, 0, 0, 0, sr as int);
                    assert forall|j: int|
                        {
                            let p = #[trigger] ps[j];
                            let a = dx * pow2(sr) + p.0;
                            let b = dy * pow2(sr) + p.1;
                            0 <= j < ps.len() && 0 <= a <= u16::MAX && 0 <= b <= u16::MAX
                        } implies has_pair(all, (dx * pow2(sr) + ps[j].0) as u16, (dy * pow2(sr) + ps[j].1) as u16) by {
                        let a = (dx * pow2(sr) + ps[j].0) as u16;
                        let b = (dy * pow2(sr) + ps[j].1) as u16;
                        if dy * n + dx < c {
                            assert(self.fine_cell_reported(prev, bx, by, dx, dy, sr));
                            assert(has_pair(prev, a, b));
                            let i = choose|i: int| 0 <= i < prev.len() / 2 && #[trigger] pair_at(prev, i) == (a, b);
                            assert(pair_at(all, i) == pair_at(prev, i));
                        } else {
                            vstd::arithmetic::div_mod::lemma_fundamental_div_mod_converse(c, n, dy, dx);
                            lemma_pack_complete(ps, dx * pow2(sr), dy * pow2(sr));
                            let pk = pack(ps, dx * pow2(sr), dy * pow2(sr));
                            assert(extra == pk);
                            assert(has_pair(pk, a, b));
                            let i = choose|i: int| 0 <= i < pk.len() / 2 && #[trigger] pair_at(pk, i) == (a, b);
                            assert(pair_at(all, (prev.len() / 2) as int + i) == pair_at(pk, i));
                        }
                    }
                }
            }
        }
    }

    #[verifier::spinoff_prover]
    #[verifier::rlimit(40)]
    proof fn lemma_cells_coarse_complete(self, bx: int, by: int, n: int, cs: nat, k: nat)
        requires
            n > 0,
            k <= n * n,
        ensures
            forall|dx: int, dy: int|
                0 <= dx < n && 0 <= dy < n && dy * n + dx < k && bx + dx <= u16::MAX && by + dy <= u16::MAX
                    && dx / (pow2(cs) as int) <= u16::MAX && dy / (pow2(cs) as int) <= u16::MAX
                    ==> #[trigger] self.coarse_cell_reported(self.cells_coarse(bx, by, n, cs, k), bx, by, dx, dy, cs),
        decreases k,
    {
        if k > 0 {
            self.lemma_cells_coarse_complete(bx, by, n, cs, (k - 1) as nat);
            self.lemma_cells_coarse_placed(bx, by, n, cs, (k - 1) as nat);
            let c = (k - 1) as int;
            vstd::arithmetic::div_mod::lemma_fundamental_div_mod(c, n);
            vstd::arithmetic::power2::lemma_pow2_pos(cs);
            let d = pow2(cs) as int;
            let prev = self.cells_coarse(bx, by, n, cs, (k - 1) as nat);
            let all = self.cells_coarse(bx, by, n, cs, k);
            let extra = all.subrange(prev.len() as int, all.len() as int);
            assert(all == prev + extra);
            assert forall|dx: int, dy: int|
                0 <= dx < n && 0 <= dy < n && dy * n + dx < k && bx + dx <= u16::MAX && by + dy <= u16::MAX
                    && dx / d <= u16::MAX && dy / d <= u16::MAX implies #[trigger] self.coarse_cell_reported(
                all,
                bx,
                by,
                dx,
                dy,
                cs,
            ) by {
                if self.bitmap_at(bx + dx, by + dy) matches Some(bm) && any_set(bm.base()) {
                    let a = (dx / d) as u16;
                    let b = (dy / d) as u16;
                    vstd::arithmetic::div_mod::lemma_div_pos_is_pos(dx, d);
                    vstd::arithmetic::div_mod::lemma_div_pos_is_pos(dy, d);
                    if dy * n + dx < c {
                        assert(self.coarse_cell_reported(prev, bx, by, dx, dy, cs));
                        let i = choose|i: int| 0 <= i < prev.len() / 2 && #[trigger] pair_at(prev, i) == (a, b);
                        assert(pair_at(all, i) == pair_at(prev, i));
                    } else {
                        vstd::arithmetic::div_mod::lemma_fundamental_div_mod_converse(c, n, dy, dx);
                        assert(pair_at(all, (prev.len() / 2) as int) == (a, b));
                    }
                }
            }
        }
    }

    /// Law of `get_tile_pixels` where a map tile covers several grid cells at one pixel per
    /// cell or finer: the result is a list of `x, y` pairs, and each pair is a pixel of a
    /// leaf held in the covered block, listed at `2^(r - span)` pixels per cell and moved by
    /// its cell's block offset `(dx, dy)`: `x == (dx << (r - span)) + px`,
    /// `y == (dy << (r - span)) + py`.
    pub proof fn lemma_fine_pixels_are_placed(self, tx: int, ty: int, tz: int, requested: int)
        requires
            0 <= tz < 32,
            0 <= tx < pow2(tz as nat),
            0 <= ty < pow2(tz as nat),
            tz < self.grid_exp(),
            clamp_render(self.grid_exp(), self.bitmap_exp(), tz, requested) >= self.grid_exp() - tz,
        ensures
            ({
                let out = self.tile_pixels(tx, ty, tz, requested);
                let span = (self.grid_exp() - tz) as nat;
                let n = pow2(span) as int;
                let sr = (clamp_render(self.grid_exp(), self.bitmap_exp(), tz, requested) - span) as nat;
                &&& out.len() % 2 == 0
                &&& forall|i: int|
                    0 <= i < out.len() / 2 ==> {
                        let q = #[trigger] pair_at(out, i);
                        self.placed_fine((tx * n) % pow2(32) as int, (ty * n) % pow2(32) as int, n, sr, q.0, q.1)
                    }
            }),
    {
        let span = (self.tile_grid_exp - tz) as nat;
        let n = pow2(span) as int;
        vstd::arithmetic::power2::lemma_pow2_pos(span);
        assert(n * n >= 0) by (nonlinear_arith);
        let r = clamp_render(self.tile_grid_exp as int, self.tile_bitmap_exp as int, tz, requested);
        self.lemma_cells_fine_placed(
            (tx * n) % pow2(32) as int,
            (ty * n) % pow2(32) as int,
            n,
            (r - span) as nat,
            (n * n) as nat,
        );
    }

    /// Law of `get_tile_pixels` where a map tile covers several grid cells at less than one
    /// pixel per cell: the result is a list of `x, y` pairs, each inside the `2^r x 2^r`
    /// output, and each the block offset `(dx, dy)` of a cell holding a non-empty bitmap,
    /// divided by `2^(span - r)`.
    pub proof fn lemma_coarse_pixels_are_placed(self, tx: int, ty: int, tz: int, requested: int)
        requires
            0 <= tz < 32,
            0 <= tx < pow2(tz as nat),
            0 <= ty < pow2(tz as nat),
            tz < self.grid_exp(),
            0 <= requested,
            clamp_render(self.grid_exp(), self.bitmap_exp(), tz, requested) < self.grid_exp() - tz,
        ensures
            ({
                let out = self.tile_pixels(tx, ty, tz, requested);
                let span = (self.grid_exp() - tz) as nat;
                let n = pow2(span) as int;
                let r = clamp_render(self.grid_exp(), self.bitmap_exp(), tz, requested);
                let cs = (span - r) as nat;
                &&& out.len() % 2 == 0
                &&& forall|i: int|
                    0 <= i < out.len() / 2 ==> {
                        let q = #[trigger] pair_at(out, i);
                        &&& self.placed_coarse((tx * n) % pow2(32) as int, (ty * n) % pow2(32) as int, n, cs, q.0, q.1)
                        &&& q.0 < pow2(r as nat)
                        &&& q.1 < pow2(r as nat)
                    }
            }),
    {
        let span = (self.tile_grid_exp - tz) as nat;
        let n = pow2(span) as int;
        let r = clamp_render(self.tile_grid_exp as int, self.tile_bitmap_exp as int, tz, requested);
        let cs = (span - r) as nat;
        let bx = (tx * n) % pow2(32) as int;
        let by = (ty * n) % pow2(32) as int;
        vstd::arithmetic::power2::lemma_pow2_pos(span);
        vstd::arithmetic::power2::lemma_pow2_pos(cs);
        vstd::arithmetic::power2::lemma_pow2_pos(r as nat);
        vstd::arithmetic::power2::lemma_pow2_adds(cs, r as nat);
        assert(cs + r as nat == span);
        assert(n * n >= 0) by (nonlinear_arith);
        self.lemma_cells_coarse_placed(bx, by, n, cs, (n * n) as nat);
        let out = self.tile_pixels(tx, ty, tz, requested);
        let d = pow2(cs) as int;
        let m = pow2(r as nat) as int;
        assert forall|i: int| 0 <= i < out.len() / 2 implies {
            let q = #[trigger] pair_at(out, i);
            q.0 < m && q.1 < m
        } by {
            let q = pair_at(out, i);
            assert(self.placed_coarse(bx, by, n, cs, q.0, q.1));
            let (dx, dy) = choose|dx: int, dy: int|
                0 <= dx < n && 0 <= dy < n && #[trigger] self.coarse_pixel_of_cell(bx, by, dx, dy, cs, q.0, q.1);
            lemma_div_below(dx, d, m);
            lemma_div_below(dy, d, m);
        }
    }

    /// Law of `get_tile_pixels` where a map tile covers several grid cells at one pixel per
    /// cell or finer: nothing is lost. Each pixel `(px, py)` of the leaf held at block offset
    /// `(dx, dy)`, listed at `2^(r - span)` pixels per cell, is reported as
    /// `((dx << (r - span)) + px, (dy << (r - span)) + py)` wherever that lies within
    /// `0..=u16::MAX` (and the cell within the grid's `u16` range).
    pub proof fn lemma_fine_pixels_complete(self, tx: int, ty: int, tz: int, requested: int)
        requires
            0 <= tz < 32,
            0 <= tx < pow2(tz as nat),
            0 <= ty < pow2(tz as nat),
            tz < self.grid_exp(),
            clamp_render(self.grid_exp(), self.bitmap_exp(), tz, requested) >= self.grid_exp() - tz,
        ensures
            ({
                let out = self.tile_pixels(tx, ty, tz, requested);
                let span = (self.grid_exp() - tz) as nat;
                let n = pow2(span) as int;
                let sr = (clamp_render(self.grid_exp(), self.bitmap_exp(), tz, requested) - span) as nat;
                let bx = (tx * n) % pow2(32) as int;
                let by = (ty * n) % pow2(32) as int;
                forall|dx: int, dy: int|
                    0 <= dx < n && 0 <= dy < n && bx + dx <= u16::MAX && by + dy <= u16::MAX
                        ==> #[trigger] self.fine_cell_reported(out, bx, by, dx, dy, sr)
            }),
    {
        let span = (self.tile_grid_exp - tz) as nat;
        let n = pow2(span) as int;
        vstd::arithmetic::power2::lemma_pow2_pos(span);
        assert(n * n >= 0) by (nonlinear_arith);
        let r = clamp_render(self.tile_grid_exp as int, self.tile_bitmap_exp as int, tz, requested);
        let sr = (r - span) as nat;
        let bx = (tx * n) % pow2(32) as int;
        let by = (ty * n) % pow2(32) as int;
        self.lemma_cells_fine_complete(bx, by, n, sr, (n * n) as nat);
        let out = self.tile_pixels(tx, ty, tz, requested);
        assert forall|dx: int, dy: int|
            0 <= dx < n && 0 <= dy < n && bx + dx <= u16::MAX && by + dy <= u16::MAX implies #[trigger] self.fine_cell_reported(
            out,
            bx,
            by,
            dx,
            dy,
            sr,
        ) by {
            assert(dy * n + dx < n * n) by (nonlinear_arith)
                requires
                    0 <= dx < n,
                    0 <= dy < n,
            ;
        }
    }

    /// Law of `get_tile_pixels` where a map tile covers several grid cells at less than one
    /// pixel per cell: nothing is lost. Each cell of the block holding a non-empty bitmap, at
    /// block offset `(dx, dy)`, has its output pixel `(dx >> (span - r), dy >> (span - r))`
    /// reported (where the cell lies within the grid's `u16` range).
    pub proof fn lemma_coarse_pixels_complete(self, tx: int, ty: int, tz: int, requested: int)
        requires
            0 <= tz < 32,
            0 <= tx < pow2(tz as nat),
            0 <= ty < pow2(tz as nat),
            tz < self.grid_exp(),
            0 <= requested,
            clamp_render(self.grid_exp(), self.bitmap_exp(), tz, requested) < self.grid_exp() - tz,
        ensures
            ({
                let out = self.tile_pixels(tx, ty, tz, requested);
                let span = (self.grid_exp() - tz) as nat;
                let n = pow2(span) as int;
                let r = clamp_render(self.grid_exp(), self.bitmap_exp(), tz, requested);
                let cs = (span - r) as nat;
                let bx = (tx * n) % pow2(32) as int;
                let by = (ty * n) % pow2(32) as int;
                forall|dx: int, dy: int|
                    0 <= dx < n && 0 <= dy < n && bx + dx <= u16::MAX && by + dy <= u16::MAX
                        && dx / (pow2(cs) as int) <= u16::MAX && dy / (pow2(cs) as int) <= u16::MAX
                        ==> #[trigger] self.coarse_cell_reported(out, bx, by, dx, dy, cs)
            }),
    {
        let span = (self.tile_grid_exp - tz) as nat;
        let n = pow2(span) as int;
        vstd::arithmetic::power2::lemma_pow2_pos(span);
        assert(n * n >= 0) by (nonlinear_arith);
        let r = clamp_render(self.tile_grid_exp as int, self.tile_bitmap_exp as int, tz, requested);
        let cs = (span - r) as nat;
        let bx = (tx * n) % pow2(32) as int;
        let by = (ty * n) % pow2(32) as int;
        self.lemma_cells_coarse_complete(bx, by, n, cs, (n * n) as nat);
        let out = self.tile_pixels(tx, ty, tz, requested);
        let d = pow2(cs) as int;
        assert forall|dx: int, dy: int|
            0 <= dx < n && 0 <= dy < n && bx + dx <= u16::MAX && by + dy <= u16::MAX && dx / d <= u16::MAX
                && dy / d <= u16::MAX implies #[trigger] self.coarse_cell_reported(out, bx, by, dx, dy, cs) by {
            assert(dy * n + dx < n * n) by (nonlinear_arith)
                requires
                    0 <= dx < n,
                    0 <= dy < n,
            ;
        }
    }

    pub closed spec fn origin(self) -> (int, int) {
        (self.grid_origin_x as int, self.grid_origin_y as int)
    }

    pub closed spec fn size(self) -> (int, int) {
        (self.grid_w as int, self.grid_h as int)
    }
}

/// Appends the pixels of a list moved by `(ox, oy)` that land within `0..=u16::MAX`.
fn append_packed(out: &mut Vec<u16>, ps: &Vec<(i64, i64)>, ox: u32, oy: u32, Ghost(pis): Ghost<Seq<(int, int)>>)
    requires
        ps@.map_values(|p: (i64, i64)| (p.0 as int, p.1 as int)) == pis,
        forall|j: int|
            0 <= j < pis.len() ==> {
                let p = #[trigger] pis[j];
                0 <= p.0 && 0 <= p.1
            },
    ensures
        final(out)@ == old(out)@ + pack(pis, ox as int, oy as int),
{
    let mut i: usize = 0;
    proof {
        assert(pis.take(0) =~= Seq::<(int, int)>::empty());
        assert(old(out)@ + pack(pis.take(0), ox as int, oy as int) =~= old(out)@);
    }
    while i < ps.len()
        invariant
            i <= ps@.len(),
            ps@.map_values(|p: (i64, i64)| (p.0 as int, p.1 as int)) == pis,
            forall|j: int|
                0 <= j < pis.len() ==> {
                    let p = #[trigger] pis[j];
                    0 <= p.0 && 0 <= p.1
                },
            out@ == old(out)@ + pack(pis.take(i as int), ox as int, oy as int),
        decreases ps.len() - i,
    {
        let (px, py) = ps[i];
        proof {
            assert(pis[i as int] == (px as int, py as int));
            assert(pis.take(i + 1).drop_last() =~= pis.take(i as int));
            assert(pis.take(i + 1).last() == pis[i as int]);
        }
        if px <= 0xffff && py <= 0xffff {
            let out_x = ox as i64 + px;
            let out_y = oy as i64 + py;
            if out_x <= 0xffff && out_y <= 0xffff {
                out.push(out_x as u16);
                out.push(out_y as u16);
            }
        }
        proof {
            assert(out@ =~= old(out)@ + pack(pis.take(i + 1), ox as int, oy as int));
        }
        i += 1;
    }
    proof {
        assert(pis.take(ps@.len() as int) =~= pis);
    }
}

/// The first cell of a block of `n = 2^span` cells, its index taken modulo `2^32`, leaves
/// room for the whole block below `2^32`.
proof fn lemma_block_start_fits(t: int, n: int, span: nat)
    requires
        0 <= t,
        span < 32,
        n == pow2(span),
    ensures
        0 <= (t * n) % (pow2(32) as int),
        (t * n) % (pow2(32) as int) + n <= pow2(32),
{
    let k = pow2(32) as int;
    let b = pow2((32 - span) as nat) as int;
    vstd::arithmetic::power2::lemma_pow2_adds(span, (32 - span) as nat);
    vstd::arithmetic::power2::lemma_pow2_pos(span);
    vstd::arithmetic::power2::lemma_pow2_pos((32 - span) as nat);
    assert(span + (32 - span) as nat == 32);
    assert(k == n * b);
    vstd::arithmetic::power2::lemma_pow2_pos(32);
    assert(t * n >= 0) by (nonlinear_arith)
        requires
            0 <= t,
            n > 0,
    ;
    vstd::arithmetic::div_mod::lemma_fundamental_div_mod(t * n, k);
    vstd::arithmetic::div_mod::lemma_mod_pos_bound(t * n, k);
    let m = (t * n) % k;
    let q = (t * n) / k;
    let a = t - q * b;
    assert(m == n * a) by (nonlinear_arith)
        requires
            t * n == k * q + m,
            k == n * b,
            a == t - q * b,
    ;
    assert(m + n <= k) by (nonlinear_arith)
        requires
            m == n * a,
            0 <= m < k,
            k == n * b,
            n > 0,
    ;
}

/// Pair `i` of a list flattened as `x, y, x, y, ...`.
pub open spec fn pair_at(s: Seq<u16>, i: int) -> (u16, u16) {
    (s[2 * i], s[2 * i + 1])
}

/// `(a, b)` is a pixel of the list moved by `(ox, oy)`.
pub open spec fn pair_from(ps: Seq<(int, int)>, ox: int, oy: int, a: u16, b: u16) -> bool {
    exists|j: int| 0 <= j < ps.len() && a == ox + (#[trigger] ps[j]).0 && b == oy + ps[j].1
}

/// `pack` keeps whole pairs, each a listed pixel moved by the offset.
proof fn lemma_pack_pairs(ps: Seq<(int, int)>, ox: int, oy: int)
    ensures
        pack(ps, ox, oy).len() % 2 == 0,
        forall|i: int|
            0 <= i < pack(ps, ox, oy).len() / 2 ==> {
                let q = #[trigger] pair_at(pack(ps, ox, oy), i);
                pair_from(ps, ox, oy, q.0, q.1)
            },
    decreases ps.len(),
{
    if ps.len() > 0 {
        let pre = ps.drop_last();
        lemma_pack_pairs(pre, ox, oy);
        let prev = pack(pre, ox, oy);
        let all = pack(ps, ox, oy);
        let extra = all.subrange(prev.len() as int, all.len() as int);
        assert(all == prev + extra);
        assert forall|i: int| 0 <= i < all.len() / 2 implies {
            let q = #[trigger] pair_at(all, i);
            pair_from(ps, ox, oy, q.0, q.1)
        } by {
            let q = pair_at(all, i);
            if i < prev.len() / 2 {
                assert(pair_at(all, i) == pair_at(prev, i));
                let j = choose|j: int| 0 <= j < pre.len() && q.0 == ox + (#[trigger] pre[j]).0 && q.1 == oy + pre[j].1;
                assert(ps[j] == pre[j]);
            } else {
                let j = ps.len() - 1;
                assert(ps[j] == ps.last());
            }
        }
    }
}

/// Some pair of the flattened list is `(a, b)`.
pub open spec fn has_pair(s: Seq<u16>, a: u16, b: u16) -> bool {
    exists|i: int| 0 <= i < s.len() / 2 && #[trigger] pair_at(s, i) == (a, b)
}

/// Every listed pixel that the offset moves into `0..=u16::MAX` is kept by `pack`.
proof fn lemma_pack_complete(ps: Seq<(int, int)>, ox: int, oy: int)
    ensures
        forall|j: int|
            0 <= j < ps.len() && 0 <= ox + (#[trigger] ps[j]).0 <= u16::MAX && 0 <= oy + ps[j].1 <= u16::MAX
                ==> has_pair(pack(ps, ox, oy), (ox + ps[j].0) as u16, (oy + ps[j].1) as u16),
    decreases ps.len(),
{
    if ps.len() > 0 {
        let pre = ps.drop_last();
        lemma_pack_complete(pre, ox, oy);
        lemma_pack_pairs(pre, ox, oy);
        let prev = pack(pre, ox, oy);
        let all = pack(ps, ox, oy);
        let extra = all.subrange(prev.len() as int, all.len() as int);
        assert(all == prev + extra);
        assert forall|j: int|
            0 <= j < ps.len() && 0 <= ox + (#[trigger] ps[j]).0 <= u16::MAX && 0 <= oy + ps[j].1 <= u16::MAX implies has_pair(
            all,
            (ox + ps[j].0) as u16,
            (oy + ps[j].1) as u16,
        ) by {
            let a = (ox + ps[j].0) as u16;
            let b = (oy + ps[j].1) as u16;
            if j < pre.len() {
                assert(pre[j] == ps[j]);
                assert(has_pair(prev, a, b));
                let i = choose|i: int| 0 <= i < prev.len() / 2 && #[trigger] pair_at(prev, i) == (a, b);
                assert(pair_at(all, i) == pair_at(prev, i));
            } else {
                let i = (prev.len() / 2) as int;
                assert(pair_at(all, i) == (a, b));
            }
        }
    }
}

/// A value below `d * m` divided by `d` is below `m`.
proof fn lemma_div_below(v: int, d: int, m: int)
    requires
        0 <= v < d * m,
        d > 0,
    ensures
        v / d < m,
{
    vstd::arithmetic::div_mod::lemma_fundamental_div_mod(v, d);
    vstd::arithmetic::div_mod::lemma_mod_pos_bound(v, d);
    assert(v / d < m) by (nonlinear_arith)
        requires
            v == d * (v / d) + v % d,
            0 <= v % d,
            v < d * m,
            d > 0,
    ;
}

/// A cell's leaf: a leaf tile with no slots, as wide as the bitmap it holds.
pub open spec fn holds_bitmap(t: GenericTile) -> bool {
    &&& t.leaf()
    &&& t.slots().len() == 0
    &&& t.mipmap() matches Some(bm) && t.exp() == bm.exp()
}

/// The bitmap a cell's leaf holds.
pub open spec fn leaf_bitmap(o: Option<GenericTile>) -> Option<BitMap2D> {
    match o {
        Some(t) => t.mipmap(),
        None => None,
    }
}

/// Cells of a `w`-wide window at `(ox, oy)` after placing each item's bitmap at its cell, in
/// order.
pub open spec fn place(
    cells: Seq<Option<BitMap2D>>,
    items: Seq<(u16, u16, BitMap2D)>,
    ox: int,
    oy: int,
    w: int,
) -> Seq<Option<BitMap2D>>
    decreases items.len(),
{
    if items.len() == 0 {
        cells
    } else {
        let p = items.last();
        place(cells, items.drop_last(), ox, oy, w).update((p.1 - oy) * w + (p.0 - ox), Some(p.2))
    }
}

} // verus!
