use crate::bits::{bits_of, ext_index, BitVec};
use crate::tile::{
    lemma_slot_height, shl1_i64, slots_height, sub_ok_from, sub_pixels_from, xy_to_index, GenericTile,
};
use vstd::arithmetic::power2::pow2;
use vstd::prelude::*;

verus! {

/// Cell `k`, row-major, of a window `side` cells wide whose corner is `(x0, y0)`.
pub open spec fn cell_of(x0: int, y0: int, side: int, k: int) -> (int, int) {
    (x0 + k % side, y0 + k / side)
}

/// Iterates the cells of a rectangular window of a tile, row-major.
pub struct IndexIter {
    x_min: i64,
    x_max: i64,
    y_min: i64,
    y_max: i64,
    current_x: i64,
    current_y: i64,
}

impl IndexIter {
    pub closed spec fn min_x(self) -> int {
        self.x_min as int
    }

    pub closed spec fn min_y(self) -> int {
        self.y_min as int
    }

    /// Cells per row.
    pub closed spec fn width(self) -> int {
        self.x_max - self.x_min
    }

    /// Rows of cells.
    pub closed spec fn height(self) -> int {
        self.y_max - self.y_min
    }

    /// How many cells there are in all.
    pub open spec fn total(self) -> int {
        self.height() * self.width()
    }

    /// How many cells have been handed out.
    pub closed spec fn pos(self) -> int {
        (self.current_y - self.y_min) * (self.x_max - self.x_min) + (self.current_x - self.x_min)
    }

    pub closed spec fn wf(self) -> bool {
        &&& self.x_min < self.x_max
        &&& self.y_min < self.y_max
        &&& self.x_min <= self.current_x < self.x_max
        &&& self.y_min <= self.current_y <= self.y_max
        &&& self.current_y == self.y_max ==> self.current_x == self.x_min
    }

    /// The cells still to come follow the cells handed out, up to the total.
    pub proof fn lemma_pos(self)
        requires
            self.wf(),
        ensures
            0 <= self.pos() <= self.total(),
            self.width() > 0,
            self.height() > 0,
    {
        let w = self.x_max - self.x_min;
        let r = self.current_y - self.y_min;
        let h = self.y_max - self.y_min;
        assert(r * w + (self.current_x - self.x_min) <= h * w) by (nonlinear_arith)
            requires
                0 <= r <= h,
                w > 0,
                0 <= self.current_x - self.x_min < w,
                r == h ==> self.current_x == self.x_min,
        ;
        assert(0 <= r * w) by (nonlinear_arith)
            requires
                0 <= r,
                w > 0,
        ;
    }

    /// The window of tile `(x, y)` at `2^resolution_exp` cells per side.
    pub fn new(x: i64, y: i64, resolution_exp: i16) -> (r: Self)
        requires
            0 <= x,
            0 <= y,
            0 <= resolution_exp < 64,
            (x + 1) * pow2(resolution_exp as nat) <= i64::MAX,
            (y + 1) * pow2(resolution_exp as nat) <= i64::MAX,
        ensures
            r.wf(),
            r.min_x() == x * pow2(resolution_exp as nat),
            r.min_y() == y * pow2(resolution_exp as nat),
            r.width() == pow2(resolution_exp as nat),
            r.height() == pow2(resolution_exp as nat),
            r.pos() == 0,
    {
        let ghost p = pow2(resolution_exp as nat) as int;
        proof {
            vstd::arithmetic::power2::lemma_pow2_pos(resolution_exp as nat);
            assert(x + 1 <= (x + 1) * p && y + 1 <= (y + 1) * p && x * p < (x + 1) * p && y * p < (y + 1) * p
                && 0 <= x * p && 0 <= y * p) by (nonlinear_arith)
                requires
                    p > 0,
                    x >= 0,
                    y >= 0,
            ;
            vstd::bits::lemma_u64_shl_is_mul(x as u64, resolution_exp as u64);
            vstd::bits::lemma_u64_shl_is_mul((x + 1) as u64, resolution_exp as u64);
            vstd::bits::lemma_u64_shl_is_mul(y as u64, resolution_exp as u64);
            vstd::bits::lemma_u64_shl_is_mul((y + 1) as u64, resolution_exp as u64);
        }
        let x_min = ((x as u64) << (resolution_exp as u64)) as i64;
        let x_max = (((x + 1) as u64) << (resolution_exp as u64)) as i64;
        let y_min = ((y as u64) << (resolution_exp as u64)) as i64;
        let y_max = (((y + 1) as u64) << (resolution_exp as u64)) as i64;
        let r = Self { x_min, x_max, y_min, y_max, current_x: x_min, current_y: y_min };
        proof {
            assert(x_max - x_min == p && y_max - y_min == p) by (nonlinear_arith)
                requires
                    x_min == x * p,
                    x_max == (x + 1) * p,
                    y_min == y * p,
                    y_max == (y + 1) * p,
            ;
        }
        r
    }

    /// The next cell, row-major, or `None` once the window is done.
    pub fn next(&mut self) -> (r: Option<(i64, i64)>)
        requires
            old(self).wf(),
        ensures
            final(self).wf(),
            final(self).min_x() == old(self).min_x(),
            final(self).min_y() == old(self).min_y(),
            final(self).width() == old(self).width(),
            final(self).height() == old(self).height(),
            old(self).pos() < old(self).total() ==> {
                &&& r matches Some(c) && (c.0 as int, c.1 as int) == cell_of(
                    old(self).min_x(),
                    old(self).min_y(),
                    old(self).width(),
                    old(self).pos(),
                )
                &&& final(self).pos() == old(self).pos() + 1
            },
            old(self).pos() >= old(self).total() ==> r is None && final(self).pos() == old(self).pos(),
    {
        proof {
            self.lemma_pos();
        }
        let ghost w = self.x_max - self.x_min;
        let ghost k = self.pos();
        if self.current_y >= self.y_max {
            proof {
                assert(k == self.total()) by (nonlinear_arith)
                    requires
                        self.current_y == self.y_max,
                        self.current_x == self.x_min,
                        k == (self.current_y - self.y_min) * (self.x_max - self.x_min) + (self.current_x - self.x_min),
                ;
            }
            return None;
        }
        proof {
            vstd::arithmetic::div_mod::lemma_fundamental_div_mod_converse(
                k,
                w,
                self.current_y - self.y_min,
                self.current_x - self.x_min,
            );
            assert(k < self.total()) by (nonlinear_arith)
                requires
                    self.current_y < self.y_max,
                    0 <= self.current_x - self.x_min < w,
                    w == self.x_max - self.x_min,
                    k == (self.current_y - self.y_min) * w + (self.current_x - self.x_min),
            ;
        }
        let index = (self.current_x, self.current_y);
        let ghost cx0 = self.current_x as int;
        let ghost cy0 = self.current_y as int;
        self.current_x += 1;
        if self.current_x >= self.x_max {
            self.current_x = self.x_min;
            self.current_y += 1;
            proof {
                assert(self.pos() == k + 1) by (nonlinear_arith)
                    requires
                        self.current_x == self.x_min,
                        cx0 + 1 == self.x_max,
                        self.current_y == cy0 + 1,
                        w == self.x_max - self.x_min,
                        k == (cy0 - self.y_min) * w + (cx0 - self.x_min),
                        self.pos() == (self.current_y - self.y_min) * w + (self.current_x - self.x_min),
                ;
            }
        }
        Some(index)
    }

    pub fn get_min_xy(&self) -> (r: (i64, i64))
        ensures
            r.0 == self.min_x(),
            r.1 == self.min_y(),
    {
        (self.x_min, self.y_min)
    }
}


/// The `2^e`-wide buffer holds every cell of the `w x h` window at `(x0, y0)`, and the
/// pixels placed at `(sx, sy)` stay within 64-bit signed arithmetic.
pub open spec fn window_fits(len: nat, e: nat, sx: int, sy: int, x0: int, y0: int, w: int, h: int) -> bool {
    &&& e < 63
    &&& 0 <= x0
    &&& 0 <= y0
    &&& w > 0
    &&& h > 0
    &&& (x0 + w - 1) + (y0 + h - 1) * pow2(e) < len
    &&& (x0 + w - 1) + (y0 + h - 1) * pow2(e) <= i64::MAX
    &&& (x0 + w - 1) + (y0 + h - 1) * pow2(e) <= usize::MAX
    &&& i64::MIN <= sx
    &&& i64::MIN <= sy
    &&& sx + x0 + w - 1 <= i64::MAX
    &&& sy + y0 + h - 1 <= i64::MAX
}

/// The pixels that cells `k..n` of the `side`-wide window at `(x0, y0)` yield: each cell
/// whose bit is set in the `2^e`-wide buffer, placed relative to the window's corner at
/// `(sx, sy)`.
pub open spec fn window_from(
    bits: Seq<bool>,
    e: nat,
    sx: int,
    sy: int,
    x0: int,
    y0: int,
    side: int,
    k: int,
    n: int,
) -> Seq<(int, int)>
    decreases n - k,
{
    if k >= n || side <= 0 {
        Seq::empty()
    } else {
        let c = cell_of(x0, y0, side, k);
        (if bits[c.0 + c.1 * pow2(e)] {
            seq![(sx + c.0 - x0, sy + c.1 - y0)]
        } else {
            Seq::empty()
        }) + window_from(bits, e, sx, sy, x0, y0, side, k + 1, n)
    }
}

/// A cell of a window lies within its bounds.
pub proof fn lemma_cell_in_window(x0: int, y0: int, w: int, h: int, k: int)
    requires
        w > 0,
        0 <= k < h * w,
    ensures
        x0 <= cell_of(x0, y0, w, k).0 < x0 + w,
        y0 <= cell_of(x0, y0, w, k).1 < y0 + h,
{
    vstd::arithmetic::div_mod::lemma_mod_pos_bound(k, w);
    vstd::arithmetic::div_mod::lemma_fundamental_div_mod(k, w);
    let q = k / w;
    assert(0 <= q < h) by (nonlinear_arith)
        requires
            k == w * q + k % w,
            0 <= k % w < w,
            0 <= k < h * w,
            w > 0,
    ;
}

/// A cell of a window that fits its buffer addresses the buffer without overflow.
pub proof fn lemma_window_index(len: nat, e: nat, x0: int, y0: int, w: int, h: int, cx: int, cy: int)
    requires
        e < 63,
        0 <= x0,
        0 <= y0,
        x0 <= cx < x0 + w,
        y0 <= cy < y0 + h,
        (x0 + w - 1) + (y0 + h - 1) * pow2(e) < len,
        (x0 + w - 1) + (y0 + h - 1) * pow2(e) <= i64::MAX,
        (x0 + w - 1) + (y0 + h - 1) * pow2(e) <= usize::MAX,
    ensures
        0 <= cy * pow2(e),
        0 <= cx + cy * pow2(e) < len,
        cx + cy * pow2(e) <= i64::MAX,
        cx + cy * pow2(e) <= usize::MAX,
{
    vstd::arithmetic::power2::lemma_pow2_pos(e);
    let p = pow2(e) as int;
    assert(0 <= cy * p <= (y0 + h - 1) * p) by (nonlinear_arith)
        requires
            0 <= cy <= y0 + h - 1,
            p > 0,
    ;
}

/// Iterates the set pixels of a square window of a mipmap level, row-major.
pub struct MipmapIter<'a> {
    bitmap: &'a BitVec,
    index_iter: IndexIter,
    width_exp: i16,
    start_x: i64,
    start_y: i64,
    x_offset: i64,
    y_offset: i64,
}

impl<'a> MipmapIter<'a> {
    pub closed spec fn wf(self) -> bool {
        let it = self.index_iter;
        &&& it.wf()
        &&& self.x_offset == it.min_x()
        &&& self.y_offset == it.min_y()
        &&& 0 <= self.width_exp
        &&& window_fits(
            bits_of(*self.bitmap).len(),
            self.width_exp as nat,
            self.start_x as int,
            self.start_y as int,
            it.min_x(),
            it.min_y(),
            it.width(),
            it.height(),
        )
    }

    /// The pixels still to come.
    pub closed spec fn remaining(self) -> Seq<(int, int)> {
        let it = self.index_iter;
        window_from(
            bits_of(*self.bitmap),
            self.width_exp as nat,
            self.start_x as int,
            self.start_y as int,
            it.min_x(),
            it.min_y(),
            it.width(),
            it.pos(),
            it.total(),
        )
    }

    /// The set pixels of tile `(x, y)` at zoom `z` of a `2^width_exp`-wide level, each
    /// placed relative to the tile's corner at `(start_x, start_y)`.
    pub fn new(bitmap: &'a BitVec, start_x: i64, start_y: i64, x: i64, y: i64, z: i16, width_exp: i16) -> (r: Self)
        requires
            0 <= z <= width_exp,
            0 <= x,
            0 <= y,
            (x + 1) * pow2((width_exp - z) as nat) <= i64::MAX,
            (y + 1) * pow2((width_exp - z) as nat) <= i64::MAX,
            window_fits(
                bits_of(*bitmap).len(),
                width_exp as nat,
                start_x as int,
                start_y as int,
                x * pow2((width_exp - z) as nat),
                y * pow2((width_exp - z) as nat),
                pow2((width_exp - z) as nat) as int,
                pow2((width_exp - z) as nat) as int,
            ),
        ensures
            r.wf(),
            r.remaining() == window_from(
                bits_of(*bitmap),
                width_exp as nat,
                start_x as int,
                start_y as int,
                x * pow2((width_exp - z) as nat),
                y * pow2((width_exp - z) as nat),
                pow2((width_exp - z) as nat) as int,
                0,
                (pow2((width_exp - z) as nat) * pow2((width_exp - z) as nat)) as int,
            ),
    {
        let index_iter = IndexIter::new(x, y, width_exp - z);
        let (x_offset, y_offset) = index_iter.get_min_xy();
        Self { bitmap, index_iter, width_exp, start_x, start_y, x_offset, y_offset }
    }

    /// The next set pixel, or `None` once the window is done.
    pub fn next(&mut self) -> (r: Option<(i64, i64)>)
        requires
            old(self).wf(),
        ensures
            final(self).wf(),
            match r {
                Some(p) => old(self).remaining().len() > 0 && (p.0 as int, p.1 as int) == old(self).remaining()[0]
                    && final(self).remaining() == old(self).remaining().drop_first(),
                None => old(self).remaining().len() == 0 && final(self).remaining().len() == 0,
            },
    {
        loop
            invariant
                self.wf(),
                self.bitmap == old(self).bitmap,
                self.remaining() == old(self).remaining(),
            decreases self.index_iter.total() - self.index_iter.pos(),
        {
            proof {
                self.index_iter.lemma_pos();
            }
            let ghost it0 = self.index_iter;
            match self.index_iter.next() {
                Some((x, y)) => {
                    proof {
                        lemma_cell_in_window(it0.min_x(), it0.min_y(), it0.width(), it0.height(), it0.pos());
                        lemma_window_index(
                            bits_of(*self.bitmap).len(),
                            self.width_exp as nat,
                            it0.min_x(),
                            it0.min_y(),
                            it0.width(),
                            it0.height(),
                            x as int,
                            y as int,
                        );
                        assert(shl1_i64(self.width_exp as nat) == pow2(self.width_exp as nat));
                    }
                    let idx = xy_to_index(x, y, self.width_exp);
                    let bit = ext_index(self.bitmap, idx);
                    proof {
                        let bits = bits_of(*self.bitmap);
                        let e = self.width_exp as nat;
                        let sx = self.start_x as int;
                        let sy = self.start_y as int;
                        assert(idx == x + y * pow2(e));
                        assert(bit == bits[x + y * pow2(e)]);
                        assert(window_from(bits, e, sx, sy, it0.min_x(), it0.min_y(), it0.width(), it0.pos(), it0.total())
                            == (if bit { seq![(sx + x - it0.min_x(), sy + y - it0.min_y())] } else { Seq::empty() })
                            + window_from(bits, e, sx, sy, it0.min_x(), it0.min_y(), it0.width(), it0.pos() + 1, it0.total()));
                        if !bit {
                            assert(Seq::<(int, int)>::empty() + window_from(bits, e, sx, sy, it0.min_x(), it0.min_y(), it0.width(), it0.pos() + 1, it0.total())
                                =~= window_from(bits, e, sx, sy, it0.min_x(), it0.min_y(), it0.width(), it0.pos() + 1, it0.total()));
                        } else {
                            assert(old(self).remaining().drop_first() =~= self.remaining());
                        }
                    }
                    if bit {
                        return Some((self.start_x + x - self.x_offset, self.start_y + y - self.y_offset));
                    }
                },
                None => {
                    return None;
                },
            }
        }
    }
}


/// Cells `k..n`, row-major, of the `side`-wide block at `(x0, y0)`, each placed at
/// `(sx, sy)` plus the cell.
pub open spec fn block_from(sx: int, sy: int, x0: int, y0: int, side: int, k: int, n: int) -> Seq<(int, int)>
    decreases n - k,
{
    if k >= n || side <= 0 {
        Seq::empty()
    } else {
        let c = cell_of(x0, y0, side, k);
        seq![(sx + c.0, sy + c.1)] + block_from(sx, sy, x0, y0, side, k + 1, n)
    }
}

/// The pixels that cells `k..n` of the `side`-wide window at `(x0, y0)` yield at `2^sres`
/// pixels per cell: each cell whose bit is set in the `2^e`-wide buffer becomes the block
/// of pixels it covers, placed relative to the window's corner at `(sx, sy)`.
pub open spec fn overscan_from(
    bits: Seq<bool>,
    e: nat,
    sx: int,
    sy: int,
    x0: int,
    y0: int,
    side: int,
    sres: nat,
    k: int,
    n: int,
) -> Seq<(int, int)>
    decreases n - k,
{
    if k >= n || side <= 0 {
        Seq::empty()
    } else {
        let c = cell_of(x0, y0, side, k);
        let p = pow2(sres) as int;
        (if bits[c.0 + c.1 * pow2(e)] {
            block_from(sx, sy, (c.0 - x0) * p, (c.1 - y0) * p, p, 0, p * p)
        } else {
            Seq::empty()
        }) + overscan_from(bits, e, sx, sy, x0, y0, side, sres, k + 1, n)
    }
}

/// The blocks of `2^sres x 2^sres` pixels that a `w x h` window covers stay within 64-bit
/// signed arithmetic, placed at `(sx, sy)`.
pub open spec fn blocks_fit(sx: int, sy: int, w: int, h: int, sres: nat) -> bool {
    &&& sres < 63
    &&& w * pow2(sres) <= i64::MAX
    &&& h * pow2(sres) <= i64::MAX
    &&& i64::MIN <= sx
    &&& i64::MIN <= sy
    &&& sx + w * pow2(sres) - 1 <= i64::MAX
    &&& sy + h * pow2(sres) - 1 <= i64::MAX
}

/// Iterates the pixels of a window of a leaf's base at a finer resolution than the base:
/// each set cell becomes a square block of pixels.
pub struct OverscanIter<'a> {
    bitmap: &'a BitVec,
    index_iter: IndexIter,
    sub_tile_index_iter: Option<IndexIter>,
    width_exp: i16,
    start_x: i64,
    start_y: i64,
    subtile_resolution_exp: i16,
}

impl<'a> OverscanIter<'a> {
    pub closed spec fn wf(self) -> bool {
        let it = self.index_iter;
        let p = pow2(self.subtile_resolution_exp as nat) as int;
        &&& it.wf()
        &&& 0 <= self.width_exp
        &&& 0 <= self.subtile_resolution_exp
        &&& window_fits(bits_of(*self.bitmap).len(), self.width_exp as nat, 0, 0, it.min_x(), it.min_y(), it.width(), it.height())
        &&& blocks_fit(self.start_x as int, self.start_y as int, it.width(), it.height(), self.subtile_resolution_exp as nat)
        &&& match self.sub_tile_index_iter {
            Some(s) => {
                &&& s.wf()
                &&& s.width() == p
                &&& s.height() == p
                &&& 0 <= s.min_x()
                &&& 0 <= s.min_y()
                &&& s.min_x() + p <= it.width() * p
                &&& s.min_y() + p <= it.height() * p
            },
            None => true,
        }
    }

    /// The pixels still to come.
    pub closed spec fn remaining(self) -> Seq<(int, int)> {
        let it = self.index_iter;
        (match self.sub_tile_index_iter {
            Some(s) => block_from(self.start_x as int, self.start_y as int, s.min_x(), s.min_y(), s.width(), s.pos(), s.total()),
            None => Seq::empty(),
        }) + overscan_from(
            bits_of(*self.bitmap),
            self.width_exp as nat,
            self.start_x as int,
            self.start_y as int,
            it.min_x(),
            it.min_y(),
            it.width(),
            self.subtile_resolution_exp as nat,
            it.pos(),
            it.total(),
        )
    }

    /// The pixels of tile `(x, y)` at zoom `z` of a `2^width_exp`-wide base, at
    /// `2^subtile_resolution_exp` pixels per base cell, placed relative to the tile's corner
    /// at `(start_x, start_y)`.
    pub fn new(
        bitmap: &'a BitVec,
        start_x: i64,
        start_y: i64,
        x: i64,
        y: i64,
        z: i16,
        width_exp: i16,
        subtile_resolution_exp: i16,
    ) -> (r: Self)
        requires
            0 <= z <= width_exp,
            0 <= x,
            0 <= y,
            0 <= subtile_resolution_exp,
            (x + 1) * pow2((width_exp - z) as nat) <= i64::MAX,
            (y + 1) * pow2((width_exp - z) as nat) <= i64::MAX,
            window_fits(
                bits_of(*bitmap).len(),
                width_exp as nat,
                0,
                0,
                x * pow2((width_exp - z) as nat),
                y * pow2((width_exp - z) as nat),
                pow2((width_exp - z) as nat) as int,
                pow2((width_exp - z) as nat) as int,
            ),
            blocks_fit(
                start_x as int,
                start_y as int,
                pow2((width_exp - z) as nat) as int,
                pow2((width_exp - z) as nat) as int,
                subtile_resolution_exp as nat,
            ),
        ensures
            r.wf(),
            r.remaining() == overscan_from(
                bits_of(*bitmap),
                width_exp as nat,
                start_x as int,
                start_y as int,
                x * pow2((width_exp - z) as nat),
                y * pow2((width_exp - z) as nat),
                pow2((width_exp - z) as nat) as int,
                subtile_resolution_exp as nat,
                0,
                (pow2((width_exp - z) as nat) * pow2((width_exp - z) as nat)) as int,
            ),
    {
        let r = Self {
            bitmap,
            index_iter: IndexIter::new(x, y, width_exp - z),
            sub_tile_index_iter: None,
            width_exp,
            start_x,
            start_y,
            subtile_resolution_exp,
        };
        proof {
            assert(r.remaining() =~= overscan_from(
                bits_of(*bitmap),
                width_exp as nat,
                start_x as int,
                start_y as int,
                x * pow2((width_exp - z) as nat),
                y * pow2((width_exp - z) as nat),
                pow2((width_exp - z) as nat) as int,
                subtile_resolution_exp as nat,
                0,
                (pow2((width_exp - z) as nat) * pow2((width_exp - z) as nat)) as int,
            ));
        }
        r
    }

    /// The next pixel, or `None` once the window is done.
    pub fn next(&mut self) -> (r: Option<(i64, i64)>)
        requires
            old(self).wf(),
        ensures
            final(self).wf(),
            match r {
                Some(p) => old(self).remaining().len() > 0 && (p.0 as int, p.1 as int) == old(self).remaining()[0]
                    && final(self).remaining() == old(self).remaining().drop_first(),
                None => old(self).remaining().len() == 0 && final(self).remaining().len() == 0,
            },
    {
        loop
            invariant
                self.wf(),
                self.remaining() == old(self).remaining(),
            decreases
                self.index_iter.total() - self.index_iter.pos(),
                match self.sub_tile_index_iter {
                    Some(s) => s.total() - s.pos() + 1,
                    None => 0,
                },
        {
            proof {
                self.index_iter.lemma_pos();
            }
            let ghost bits = bits_of(*self.bitmap);
            let ghost e = self.width_exp as nat;
            let ghost sx = self.start_x as int;
            let ghost sy = self.start_y as int;
            let ghost sres = self.subtile_resolution_exp as nat;
            let ghost p = pow2(sres) as int;
            let ghost it0 = self.index_iter;
            let ghost rest0 = overscan_from(bits, e, sx, sy, it0.min_x(), it0.min_y(), it0.width(), sres, it0.pos(), it0.total());
            if self.sub_tile_index_iter.is_none() {
                match self.index_iter.next() {
                    Some((x, y)) => {
                        proof {
                            lemma_cell_in_window(it0.min_x(), it0.min_y(), it0.width(), it0.height(), it0.pos());
                            lemma_window_index(bits.len(), e, it0.min_x(), it0.min_y(), it0.width(), it0.height(), x as int, y as int);
                            assert(shl1_i64(e) == pow2(e));
                        }
                        let idx = xy_to_index(x, y, self.width_exp);
                        let bit = ext_index(self.bitmap, idx);
                        proof {
                            assert(idx == x + y * pow2(e));
                        }
                        if bit {
                            let (x_min, y_min) = self.index_iter.get_min_xy();
                            proof {
                                vstd::arithmetic::power2::lemma_pow2_pos(sres);
                                assert((x - x_min + 1) * p <= it0.width() * p && (y - y_min + 1) * p <= it0.height() * p
                                    && (x - x_min) * p + p == (x - x_min + 1) * p && (y - y_min) * p + p == (y - y_min + 1) * p
                                    && 0 <= (x - x_min) * p && 0 <= (y - y_min) * p)
                                    by (nonlinear_arith)
                                    requires
                                        0 <= x - x_min,
                                        0 <= y - y_min,
                                        x - x_min + 1 <= it0.width(),
                                        y - y_min + 1 <= it0.height(),
                                        p > 0,
                                ;
                            }
                            let sub = IndexIter::new(x - x_min, y - y_min, self.subtile_resolution_exp);
                            self.sub_tile_index_iter = Some(sub);
                            proof {
                                assert(self.remaining() =~= rest0);
                            }
                        } else {
                            proof {
                                assert(self.remaining() =~= rest0);
                            }
                        }
                    },
                    None => {
                        proof {
                            assert(self.remaining() =~= Seq::<(int, int)>::empty());
                        }
                        return None;
                    },
                }
            } else {
                let mut sub = self.sub_tile_index_iter.take().unwrap();
                let ghost s0 = sub;
                proof {
                    sub.lemma_pos();
                }
                match sub.next() {
                    Some((x, y)) => {
                        proof {
                            lemma_cell_in_window(s0.min_x(), s0.min_y(), s0.width(), s0.height(), s0.pos());
                        }
                        self.sub_tile_index_iter = Some(sub);
                        proof {
                            let b0 = block_from(sx, sy, s0.min_x(), s0.min_y(), s0.width(), s0.pos(), s0.total());
                            let b1 = block_from(sx, sy, s0.min_x(), s0.min_y(), s0.width(), s0.pos() + 1, s0.total());
                            assert(b0 == seq![(sx + x, sy + y)] + b1);
                            assert(old(self).remaining() == b0 + rest0);
                            assert(self.remaining() == b1 + rest0);
                            assert(old(self).remaining().drop_first() =~= self.remaining());
                        }
                        return Some((self.start_x + x, self.start_y + y));
                    },
                    None => {
                        proof {
                            assert(self.remaining() =~= rest0);
                        }
                    },
                }
            }
        }
    }
}


/// Iterates the pixels of the loaded sub-tiles in a window of a tile's grid of slots, cell
/// by cell, row-major.
///
/// Slots that hold no loaded sub-tile are skipped; where results must be complete in a
/// partially loaded tree, `GenericTile::check_ready` tells which sub-tiles are missing.
pub struct SubtileIter<'a> {
    sub_tiles: &'a [Option<Box<GenericTile>>],
    current_sub_tile_iter: Option<Box<TilePixelIter<'a>>>,
    index_iter: IndexIter,
    width_exp: i16,
    start_x: i64,
    start_y: i64,
    subtile_resolution_exp: i16,
}

/// The pixels of a tile at a resolution, by whichever way the tile holds them.
pub enum TilePixelIter<'a> {
    MipmapIter(MipmapIter<'a>),
    OverscanIter(OverscanIter<'a>),
    SubTileIter(SubtileIter<'a>),
    Empty,
}

impl<'a> SubtileIter<'a> {
    /// The depth of the sub-tiles this iterator walks.
    pub closed spec fn slots_depth(self) -> nat {
        slots_height(self.sub_tiles@, self.sub_tiles@.len())
    }

    pub closed spec fn wf(self) -> bool
        decreases self, 0nat,
    {
        let it = self.index_iter;
        &&& it.wf()
        &&& 0 <= self.width_exp
        &&& 0 <= self.subtile_resolution_exp
        &&& window_fits(self.sub_tiles@.len(), self.width_exp as nat, 0, 0, it.min_x(), it.min_y(), it.width(), it.height())
        &&& blocks_fit(self.start_x as int, self.start_y as int, it.width(), it.height(), self.subtile_resolution_exp as nat)
        &&& sub_ok_from(
            self.sub_tiles@,
            self.width_exp as nat,
            self.start_x as int,
            self.start_y as int,
            it.min_x(),
            it.min_y(),
            it.width(),
            self.subtile_resolution_exp as int,
            it.pos(),
            it.total(),
        )
        &&& match self.current_sub_tile_iter {
            Some(b) => (*b).wf() && (*b).depth() <= 2 * self.slots_depth(),
            None => true,
        }
    }

    /// The pixels still to come.
    pub closed spec fn remaining(self) -> Seq<(int, int)>
        decreases self, 0nat,
    {
        let it = self.index_iter;
        (match self.current_sub_tile_iter {
            Some(b) => (*b).remaining(),
            None => Seq::empty(),
        }) + sub_pixels_from(
            self.sub_tiles@,
            self.width_exp as nat,
            self.start_x as int,
            self.start_y as int,
            it.min_x(),
            it.min_y(),
            it.width(),
            self.subtile_resolution_exp as int,
            it.pos(),
            it.total(),
        )
    }

    /// The pixels of the loaded sub-tiles of tile `(x, y)` at zoom `z` of a
    /// `2^width_exp`-wide grid of slots, at `2^subtile_resolution_exp` pixels per slot,
    /// placed relative to the tile's corner at `(start_x, start_y)`.
    pub fn new(
        sub_tiles: &'a [Option<Box<GenericTile>>],
        start_x: i64,
        start_y: i64,
        x: i64,
        y: i64,
        z: i16,
        width_exp: i16,
        subtile_resolution_exp: i16,
    ) -> (r: Self)
        requires
            0 <= z <= width_exp,
            0 <= x,
            0 <= y,
            0 <= subtile_resolution_exp,
            (x + 1) * pow2((width_exp - z) as nat) <= i64::MAX,
            (y + 1) * pow2((width_exp - z) as nat) <= i64::MAX,
            window_fits(
                sub_tiles@.len(),
                width_exp as nat,
                0,
                0,
                x * pow2((width_exp - z) as nat),
                y * pow2((width_exp - z) as nat),
                pow2((width_exp - z) as nat) as int,
                pow2((width_exp - z) as nat) as int,
            ),
            blocks_fit(
                start_x as int,
                start_y as int,
                pow2((width_exp - z) as nat) as int,
                pow2((width_exp - z) as nat) as int,
                subtile_resolution_exp as nat,
            ),
            sub_ok_from(
                sub_tiles@,
                width_exp as nat,
                start_x as int,
                start_y as int,
                x * pow2((width_exp - z) as nat),
                y * pow2((width_exp - z) as nat),
                pow2((width_exp - z) as nat) as int,
                subtile_resolution_exp as int,
                0,
                (pow2((width_exp - z) as nat) * pow2((width_exp - z) as nat)) as int,
            ),
        ensures
            r.wf(),
            r.slots_depth() == slots_height(sub_tiles@, sub_tiles@.len()),
            r.remaining() == sub_pixels_from(
                sub_tiles@,
                width_exp as nat,
                start_x as int,
                start_y as int,
                x * pow2((width_exp - z) as nat),
                y * pow2((width_exp - z) as nat),
                pow2((width_exp - z) as nat) as int,
                subtile_resolution_exp as int,
                0,
                (pow2((width_exp - z) as nat) * pow2((width_exp - z) as nat)) as int,
            ),
    {
        let r = Self {
            sub_tiles,
            current_sub_tile_iter: None,
            index_iter: IndexIter::new(x, y, width_exp - z),
            width_exp,
            start_x,
            start_y,
            subtile_resolution_exp,
        };
        proof {
            assert(r.remaining() =~= sub_pixels_from(
                sub_tiles@,
                width_exp as nat,
                start_x as int,
                start_y as int,
                x * pow2((width_exp - z) as nat),
                y * pow2((width_exp - z) as nat),
                pow2((width_exp - z) as nat) as int,
                subtile_resolution_exp as int,
                0,
                (pow2((width_exp - z) as nat) * pow2((width_exp - z) as nat)) as int,
            ));
        }
        r
    }

    /// The next pixel, or `None` once the window is done.
    pub fn next(&mut self) -> (r: Option<(i64, i64)>)
        requires
            old(self).wf(),
        ensures
            final(self).wf(),
            final(self).slots_depth() == old(self).slots_depth(),
            match r {
                Some(p) => old(self).remaining().len() > 0 && (p.0 as int, p.1 as int) == old(self).remaining()[0]
                    && final(self).remaining() == old(self).remaining().drop_first(),
                None => old(self).remaining().len() == 0 && final(self).remaining().len() == 0,
            },
        decreases 2 * old(self).slots_depth() + 1, 0nat,
    {
        loop
            invariant
                self.wf(),
                self.sub_tiles@ == old(self).sub_tiles@,
                self.remaining() == old(self).remaining(),
            decreases
                self.index_iter.total() - self.index_iter.pos(),
                match self.current_sub_tile_iter {
                    Some(b) => (*b).remaining().len() + 1,
                    None => 0,
                },
        {
            proof {
                self.index_iter.lemma_pos();
            }
            let ghost slots = self.sub_tiles@;
            let ghost w = self.width_exp as nat;
            let ghost sx = self.start_x as int;
            let ghost sy = self.start_y as int;
            let ghost sres = self.subtile_resolution_exp as int;
            let ghost p = pow2(sres as nat) as int;
            let ghost it0 = self.index_iter;
            let ghost rest0 = sub_pixels_from(slots, w, sx, sy, it0.min_x(), it0.min_y(), it0.width(), sres, it0.pos(), it0.total());
            if self.current_sub_tile_iter.is_none() {
                match self.index_iter.next() {
                    Some((x, y)) => {
                        proof {
                            lemma_cell_in_window(it0.min_x(), it0.min_y(), it0.width(), it0.height(), it0.pos());
                            lemma_window_index(slots.len(), w, it0.min_x(), it0.min_y(), it0.width(), it0.height(), x as int, y as int);
                            assert(shl1_i64(w) == pow2(w));
                        }
                        let idx = xy_to_index(x, y, self.width_exp);
                        proof {
                            assert(idx == x + y * pow2(w));
                        }
                        if let Some(sub_tile) = &self.sub_tiles[idx] {
                            let (x_min, y_min) = self.index_iter.get_min_xy();
                            proof {
                                vstd::arithmetic::power2::lemma_pow2_pos(sres as nat);
                                assert((x - x_min) * p < it0.width() * p && (y - y_min) * p < it0.height() * p
                                    && 0 <= (x - x_min) * p && 0 <= (y - y_min) * p)
                                    by (nonlinear_arith)
                                    requires
                                        0 <= x - x_min < it0.width(),
                                        0 <= y - y_min < it0.height(),
                                        p > 0,
                                ;
                                vstd::bits::lemma_u64_shl_is_mul((x - x_min) as u64, sres as u64);
                                vstd::bits::lemma_u64_shl_is_mul((y - y_min) as u64, sres as u64);
                            }
                            let start_x = self.start_x + ((((x - x_min) as u64) << (self.subtile_resolution_exp as u64)) as i64);
                            let start_y = self.start_y + ((((y - y_min) as u64) << (self.subtile_resolution_exp as u64)) as i64);
                            proof {
                                assert(slots[idx as int] == Some(*sub_tile));
                                lemma_slot_height(slots, slots.len(), idx as int);
                            }
                            let iter = sub_tile.iter_pixels(start_x, start_y, 0, 0, 0, self.subtile_resolution_exp);
                            self.current_sub_tile_iter = Some(Box::new(iter));
                            proof {
                                assert(self.remaining() =~= rest0);
                            }
                        } else {
                            proof {
                                assert(self.remaining() =~= rest0);
                            }
                        }
                    },
                    None => {
                        proof {
                            assert(self.remaining() =~= Seq::<(int, int)>::empty());
                        }
                        return None;
                    },
                }
            } else {
                let mut cur = self.current_sub_tile_iter.take().unwrap();
                let ghost c0 = *cur;
                match cur.next() {
                    Some(pixel) => {
                        self.current_sub_tile_iter = Some(cur);
                        proof {
                            assert(old(self).remaining() == c0.remaining() + rest0);
                            assert(old(self).remaining().drop_first() =~= self.remaining());
                        }
                        return Some(pixel);
                    },
                    None => {
                        proof {
                            assert(self.remaining() =~= rest0);
                        }
                    },
                }
            }
        }
    }
}

impl<'a> TilePixelIter<'a> {
    /// A bound on how deeply the iterators nest.
    pub open spec fn depth(self) -> nat {
        match self {
            TilePixelIter::SubTileIter(s) => 2 * s.slots_depth() + 2,
            _ => 0,
        }
    }

    pub open spec fn wf(self) -> bool
        decreases self,
    {
        match self {
            TilePixelIter::MipmapIter(m) => m.wf(),
            TilePixelIter::OverscanIter(o) => o.wf(),
            TilePixelIter::SubTileIter(s) => s.wf(),
            TilePixelIter::Empty => true,
        }
    }

    /// The pixels still to come.
    pub open spec fn remaining(self) -> Seq<(int, int)>
        decreases self,
    {
        match self {
            TilePixelIter::MipmapIter(m) => m.remaining(),
            TilePixelIter::OverscanIter(o) => o.remaining(),
            TilePixelIter::SubTileIter(s) => s.remaining(),
            TilePixelIter::Empty => Seq::empty(),
        }
    }

    /// The next pixel, or `None` once all are done.
    pub fn next(&mut self) -> (r: Option<(i64, i64)>)
        requires
            old(self).wf(),
        ensures
            final(self).wf(),
            final(self).depth() == old(self).depth(),
            match r {
                Some(p) => old(self).remaining().len() > 0 && (p.0 as int, p.1 as int) == old(self).remaining()[0]
                    && final(self).remaining() == old(self).remaining().drop_first(),
                None => old(self).remaining().len() == 0 && final(self).remaining().len() == 0,
            },
        decreases old(self).depth(), 1nat,
    {
        match self {
            TilePixelIter::MipmapIter(iter) => iter.next(),
            TilePixelIter::OverscanIter(iter) => iter.next(),
            TilePixelIter::SubTileIter(iter) => iter.next(),
            TilePixelIter::Empty => None,
        }
    }
}

} // verus!
