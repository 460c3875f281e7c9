use crate::bitmap2d::{
    bitvec_from_bytes_lsb, bitvec_to_bytes_lsb, lsb_bytes, or_reduce, pyramid_level, words_for_bits, BitMap2D,
};
use crate::bits::{
    any_set, bit_seqs, bits_of, ext_as_raw_slice, ext_from_vec, ext_index, ext_not_any, ext_repeat, ext_resize, ext_set,
    ext_truncate,
    ext_with_capacity, max_bits, word_bit, words_of, BitVec,
};
use crate::words::{block_part, fill_block, in_block, or_word, set_word_bit, zero_words};
use vstd::slice::slice_subrange;
use crate::pixel_encoding::bit_at;
use crate::tile_iter::{
    block_from, blocks_fit, cell_of, overscan_from, window_fits, window_from, MipmapIter, OverscanIter,
    SubtileIter, TilePixelIter,
};
use vstd::arithmetic::power2::pow2;
use vstd::prelude::*;

verus! {

/// The value of `1i64 << exp` for a shift amount below 64.
pub open spec fn shl1_i64(exp: nat) -> int {
    if exp < 63 {
        pow2(exp) as int
    } else {
        i64::MIN as int
    }
}

/// Computes `1i64 << exp`.
pub fn shl1_i64_exec(exp: u32) -> (r: i64)
    requires
        exp < 64,
    ensures
        r == shl1_i64(exp as nat),
{
    if exp == 63 {
        i64::MIN
    } else {
        proof {
            vstd::bits::lemma_u64_pow2_no_overflow(exp as nat);
            vstd::bits::lemma_u64_shl_is_mul(1, exp as u64);
            vstd::arithmetic::power2::lemma_pow2_strictly_increases(exp as nat, 63);
            vstd::arithmetic::power2::lemma2_to64();
            vstd::arithmetic::power2::lemma2_to64_rest();
        }
        let v: u64 = 1u64 << (exp as u64);
        v as i64
    }
}

/// Row-major index `x + y * 2^width_exp` of a cell, as computed in 64-bit signed arithmetic.
pub open spec fn xy_index_i64(x: int, y: int, width_exp: nat) -> int {
    x + y * shl1_i64(width_exp)
}

pub fn xy_to_index(x: i64, y: i64, width_exp: i16) -> (r: usize)
    requires
        0 <= width_exp < 64,
        i64::MIN <= y * shl1_i64(width_exp as nat) <= i64::MAX,
        i64::MIN <= xy_index_i64(x as int, y as int, width_exp as nat) <= i64::MAX,
    ensures
        r == xy_index_i64(x as int, y as int, width_exp as nat) as usize,
{
    let side = shl1_i64_exec(width_exp as u32);
    (x + y * side) as usize
}


/// Rust's `/` on integers: the quotient rounded toward zero.
pub open spec fn div_trunc(a: int, d: int) -> int {
    if a >= 0 {
        if d > 0 {
            a / d
        } else {
            -(a / -d)
        }
    } else {
        if d > 0 {
            -((-a) / d)
        } else {
            (-a) / (-d)
        }
    }
}

/// Rust's `%` on integers: the remainder of the quotient rounded toward zero.
pub open spec fn rem_trunc(a: int, d: int) -> int {
    a - d * div_trunc(a, d)
}

/// Splits a row-major index into `(x, y)` in 64-bit signed arithmetic: the index taken as
/// an `i64`, then its remainder and quotient by `1i64 << width_exp`, rounded toward zero.
pub fn index_to_xy(index: usize, width_exp: i16) -> (r: (i64, i64))
    requires
        0 <= width_exp < 64,
    ensures
        r.0 == rem_trunc(#[verifier::truncate] (index as i64) as int, shl1_i64(width_exp as nat)),
        r.1 == div_trunc(#[verifier::truncate] (index as i64) as int, shl1_i64(width_exp as nat)),
        index <= i64::MAX && width_exp < 63 ==> r.0 == index as int % pow2(width_exp as nat) as int && r.1
            == index as int / pow2(width_exp as nat) as int,
{
    let side = shl1_i64_exec(width_exp as u32);
    proof {
        vstd::arithmetic::power2::lemma_pow2_pos(width_exp as nat);
    }
    let v = #[verifier::truncate] (index as i64);
    proof {
        if index <= i64::MAX {
            assert(v == index);
        }
    }
    let q = v / side;
    let m = v % side;
    proof {
        let a = v as int;
        let d = side as int;
        if a >= 0 && d > 0 {
            vstd::arithmetic::div_mod::lemma_fundamental_div_mod(a, d);
            assert(q == div_trunc(a, d));
            assert(m == a % d);
            assert(m == a - d * q);
        } else if a < 0 && d > 0 {
            vstd::arithmetic::div_mod::lemma_fundamental_div_mod(-a, d);
            assert(q == div_trunc(a, d));
            assert(m == -((-a) % d));
            assert(d * q == -(d * ((-a) / d))) by (nonlinear_arith)
                requires
                    q == -((-a) / d),
            ;
            assert(m == a - d * q);
        } else if a >= 0 {
            vstd::arithmetic::div_mod::lemma_fundamental_div_mod(a, -d);
            assert(d == i64::MIN);
            vstd::arithmetic::div_mod::lemma_basic_div(a, -d);
            vstd::arithmetic::div_mod::lemma_small_mod(a as nat, (-d) as nat);
            assert(q == 0);
            assert(q == div_trunc(a, d));
            assert(m == a % (-d));
            assert(d * q == (-d) * (a / (-d))) by (nonlinear_arith)
                requires
                    q == -(a / (-d)),
            ;
            assert(m == a - d * q);
        } else {
            vstd::arithmetic::div_mod::lemma_fundamental_div_mod(-a, -d);
            assert(q == div_trunc(a, d));
            assert(m == -((-a) % (-d)));
            assert(d * q == -((-d) * ((-a) / (-d)))) by (nonlinear_arith)
                requires
                    q == (-a) / (-d),
            ;
            assert(m == a - d * q);
        }
    }
    (m, q)
}

/// The pyramid of a `2^exp x 2^exp` grid, levels `0..=exp`.
pub open spec fn pyramid(bits: Seq<bool>, exp: nat) -> Seq<Seq<bool>> {
    Seq::new(exp + 1, |k: int| pyramid_level(bits, exp, k as nat))
}

/// Bit `i` of a byte buffer in most-significant-bit-first order.
pub open spec fn msb_bit(data: Seq<u8>, i: int) -> bool {
    (data[i / 8] >> ((7 - i % 8) as u8)) & 1u8 == 1u8
}

/// A quadtree tile: a grid of optional sub-tiles, an optional mipmap of which sub-tiles
/// (or, for a leaf, which pixels) hold data, and whether it is a leaf.
pub struct GenericTile {
    sub_tiles: Vec<Option<Box<GenericTile>>>,
    bitmap: Option<BitMap2D>,
    width_exp: i16,
    is_leaf: bool,
}

/// A sub-tile that the mipmap marks as holding data but that is not loaded.
#[derive(Clone, Copy, Debug, PartialEq, Eq)]
pub struct MissingSubTile {
    pub x: i64,
    pub y: i64,
    pub parent_width_exp: i16,
}

impl GenericTile {
    pub closed spec fn exp(self) -> int {
        self.width_exp as int
    }

    pub closed spec fn leaf(self) -> bool {
        self.is_leaf
    }

    pub closed spec fn mipmap(self) -> Option<BitMap2D> {
        self.bitmap
    }

    /// The sub-tile slots, row-major.
    pub closed spec fn slots(self) -> Seq<Option<GenericTile>> {
        self.sub_tiles@.map_values(
            |o: Option<Box<GenericTile>>|
                match o {
                    Some(b) => Some(*b),
                    None => None,
                },
        )
    }

    /// Well-formed tree: a non-leaf has one slot per cell of its `2^width_exp` grid, its
    /// mipmap (if any) is well-formed, and so is every loaded sub-tile.
    pub closed spec fn wf(self) -> bool
        decreases self,
    {
        &&& 0 <= self.width_exp
        &&& 2 * self.width_exp < usize::BITS
        &&& (!self.is_leaf ==> self.sub_tiles@.len() == pow2(2 * self.width_exp as nat))
        &&& forall|i: int|
            0 <= i < self.sub_tiles@.len() ==> (#[trigger] self.sub_tiles@[i] matches Some(b) ==> (*b).wf())
    }

    /// `(x, y)` addresses a slot of this tile without 64-bit overflow.
    pub closed spec fn valid_slot(self, x: int, y: int) -> bool {
        &&& 0 <= self.width_exp < 64
        &&& i64::MIN <= y * shl1_i64(self.width_exp as nat) <= i64::MAX
        &&& i64::MIN <= xy_index_i64(x, y, self.width_exp as nat) <= i64::MAX
        &&& 0 <= xy_index_i64(x, y, self.width_exp as nat) < self.sub_tiles@.len()
    }

    /// The slot that `(x, y)` addresses.
    pub closed spec fn slot_of(self, x: int, y: int) -> int {
        xy_index_i64(x, y, self.width_exp as nat)
    }

    fn slot_index(&self, x: i64, y: i64) -> (r: usize)
        requires
            self.valid_slot(x as int, y as int),
        ensures
            r == self.slot_of(x as int, y as int),
            r < self.sub_tiles@.len(),
    {
        let r = xy_to_index(x, y, self.width_exp);
        proof {
            let v = xy_index_i64(x as int, y as int, self.width_exp as nat);
            assert(0 <= v < self.sub_tiles@.len());
            assert(self.sub_tiles@.len() == self.sub_tiles.len());
            assert(r == v as usize);
        }
        r
    }

    pub fn new(width_exp: i16) -> (r: Self)
        requires
            0 <= width_exp,
            2 * width_exp < usize::BITS,
        ensures
            r.wf(),
            r.exp() == width_exp,
            !r.leaf(),
            r.mipmap() is None,
            r.slots() == Seq::new(pow2(2 * width_exp as nat), |_i: int| None::<GenericTile>),
    {
        proof {
            vstd::bits::lemma_usize_pow2_no_overflow(2 * width_exp as nat);
            vstd::bits::lemma_usize_shl_is_mul(1, (2 * width_exp) as usize);
        }
        let count: usize = 1usize << ((width_exp * 2) as usize);
        let mut sub_tiles: Vec<Option<Box<GenericTile>>> = Vec::new();
        let mut i: usize = 0;
        while i < count
            invariant
                i <= count,
                sub_tiles@.len() == i,
                forall|j: int| 0 <= j < i ==> #[trigger] sub_tiles@[j] is None,
            decreases count - i,
        {
            sub_tiles.push(None);
            i += 1;
        }
        let r = Self { sub_tiles, bitmap: None, width_exp, is_leaf: false };
        proof {
            assert(r.slots() =~= Seq::new(pow2(2 * width_exp as nat), |_i: int| None::<GenericTile>));
        }
        r
    }

    pub fn set_sub_tile(&mut self, x: i64, y: i64, tile: GenericTile)
        requires
            old(self).valid_slot(x as int, y as int),
        ensures
            final(self).slots() == old(self).slots().update(
                old(self).slot_of(x as int, y as int),
                Some(tile),
            ),
            final(self).exp() == old(self).exp(),
            final(self).leaf() == old(self).leaf(),
            final(self).mipmap() == old(self).mipmap(),
            old(self).wf() && tile.wf() ==> final(self).wf(),
    {
        let idx = self.slot_index(x, y);
        let ghost t = tile;
        self.sub_tiles[idx] = Some(Box::new(tile));
        proof {
            assert(self.slots() =~= old(self).slots().update(idx as int, Some(t)));
        }
    }

    pub fn width_exp(&self) -> (r: i16)
        ensures
            r == self.exp(),
    {
        self.width_exp
    }

    /// Copies of every mipmap level, full resolution first (none without a mipmap).
    pub fn mipmap_levels(&self) -> (r: Vec<BitVec>)
        ensures
            r@.map_values(|b: BitVec| bits_of(b)) == match self.mipmap() {
                Some(bm) => bm.levels_view(),
                None => Seq::empty(),
            },
    {
        match &self.bitmap {
            Some(bm) => {
                let n = bm.num_levels();
                let mut out: Vec<BitVec> = Vec::new();
                let mut k: usize = 0;
                while k < n
                    invariant
                        k <= n,
                        n == bm.levels_view().len(),
                        out@.len() == k,
                        forall|j: int| 0 <= j < k ==> #[trigger] bits_of(out@[j]) == bm.levels_view()[j],
                    decreases n - k,
                {
                    let level = bm.level_at_offset(k).unwrap();
                    out.push(level.clone());
                    k += 1;
                }
                proof {
                    assert(out@.map_values(|b: BitVec| bits_of(b)) =~= bm.levels_view());
                }
                out
            },
            None => {
                let out: Vec<BitVec> = Vec::new();
                proof {
                    assert(out@.map_values(|b: BitVec| bits_of(b)) =~= Seq::<Seq<bool>>::empty());
                }
                out
            },
        }
    }

    pub fn has_sub_tile(&self, x: i64, y: i64) -> (r: bool)
        requires
            self.valid_slot(x as int, y as int),
        ensures
            r == self.slots()[self.slot_of(x as int, y as int)] is Some,
    {
        let idx = self.slot_index(x, y);
        self.sub_tiles[idx].is_some()
    }

    pub fn get_sub_tile(&self, x: i64, y: i64) -> (r: Option<&GenericTile>)
        requires
            self.valid_slot(x as int, y as int),
        ensures
            match r {
                Some(t) => self.slots()[self.slot_of(x as int, y as int)] == Some(*t),
                None => self.slots()[self.slot_of(x as int, y as int)] is None,
            },
    {
        let idx = self.slot_index(x, y);
        match &self.sub_tiles[idx] {
            Some(b) => Some(&**b),
            None => None,
        }
    }

    pub fn evict_sub_tile(&mut self, x: i64, y: i64)
        requires
            old(self).valid_slot(x as int, y as int),
        ensures
            final(self).slots() == old(self).slots().update(
                old(self).slot_of(x as int, y as int),
                None,
            ),
            final(self).exp() == old(self).exp(),
            final(self).leaf() == old(self).leaf(),
            final(self).mipmap() == old(self).mipmap(),
            old(self).wf() ==> final(self).wf(),
    {
        let idx = self.slot_index(x, y);
        self.sub_tiles[idx] = None;
        proof {
            assert(self.slots() =~= old(self).slots().update(idx as int, None));
        }
    }

    /// Turns a loaded sub-tile into a leaf that keeps only its mipmap.
    pub fn downgrade_sub_tile_to_mipmap(&mut self, x: i64, y: i64)
        requires
            old(self).valid_slot(x as int, y as int),
        ensures
            final(self).exp() == old(self).exp(),
            final(self).leaf() == old(self).leaf(),
            final(self).mipmap() == old(self).mipmap(),
            final(self).slots().len() == old(self).slots().len(),
            forall|i: int|
                0 <= i < old(self).slots().len() && i != old(self).slot_of(x as int, y as int)
                    ==> #[trigger] final(self).slots()[i] == old(self).slots()[i],
            match old(self).slots()[old(self).slot_of(x as int, y as int)] {
                Some(t) => final(self).slots()[old(self).slot_of(x as int, y as int)] matches Some(n) && n.exp()
                    == t.exp() && n.leaf() && n.slots().len() == 0 && n.mipmap() == t.mipmap(),
                None => final(self).slots()[old(self).slot_of(x as int, y as int)] is None,
            },
            old(self).wf() ==> final(self).wf(),
    {
        let idx = self.slot_index(x, y);
        let mut slot: Option<Box<GenericTile>> = None;
        std::mem::swap(&mut slot, &mut self.sub_tiles[idx]);
        if let Some(mut tile) = slot {
            tile.sub_tiles = Vec::new();
            tile.is_leaf = true;
            self.sub_tiles[idx] = Some(tile);
        }
        proof {
            assert forall|i: int|
                0 <= i < old(self).slots().len() && i != idx implies #[trigger] self.slots()[i]
                == old(self).slots()[i] by {
                assert(self.sub_tiles@[i] == old(self).sub_tiles@[i]);
            }
            if old(self).wf() {
                assert forall|i: int| 0 <= i < self.sub_tiles@.len() implies (#[trigger] self.sub_tiles@[i] matches Some(b) ==> (*b).wf()) by {
                    if i == idx {
                        if let Some(b) = self.sub_tiles@[i] {
                            let ob = old(self).sub_tiles@[i].unwrap();
                            assert((*ob).wf());
                            assert(b.sub_tiles@.len() == 0);
                        }
                    } else {
                        assert(self.sub_tiles@[i] == old(self).sub_tiles@[i]);
                    }
                }
            }
        }
    }
}


// ---------------------------------------------------------------------------
// Byte format of a tile.
//
// - width_exp: i16 (2 bytes, little-endian)
// - is_leaf: u8 (1 byte, 0 or 1)
// - mipmap_count: u32 (4 bytes)
// - for each mipmap level: bit_count u64 (8 bytes), then the bits packed LSB-first
// - sub_tiles_count: u32 (4 bytes)
// - for each sub-tile slot: exists u8 (0 or 1); if it exists, the sub-tile's own bytes,
//   serialized in this same format
// ---------------------------------------------------------------------------

pub open spec fn le16_bytes(v: u16) -> Seq<u8> {
    seq![(v % 256) as u8, (v / 256) as u8]
}

pub open spec fn le32_bytes(v: u32) -> Seq<u8> {
    seq![(v % 256) as u8, ((v / 256) % 256) as u8, ((v / 65536) % 256) as u8, (v / 16777216) as u8]
}

pub open spec fn le64_bytes(v: u64) -> Seq<u8> {
    le32_bytes((v % 0x1_0000_0000) as u32) + le32_bytes((v / 0x1_0000_0000) as u32)
}

pub open spec fn read_le16(b: Seq<u8>, off: int) -> int {
    b[off] + 256 * b[off + 1]
}

pub open spec fn read_le32(b: Seq<u8>, off: int) -> int {
    b[off] + 256 * b[off + 1] + 65536 * b[off + 2] + 16777216 * b[off + 3]
}

pub open spec fn read_le64(b: Seq<u8>, off: int) -> int {
    read_le32(b, off) + 0x1_0000_0000 * read_le32(b, off + 4)
}

/// One serialized mipmap level: its bit count, then its storage bytes.
pub open spec fn level_bytes(b: BitVec) -> Seq<u8> {
    le64_bytes(bits_of(b).len() as u64) + lsb_bytes(words_of(b), bits_of(b).len())
}

pub open spec fn levels_bytes(levels: Seq<BitVec>) -> Seq<u8>
    decreases levels.len(),
{
    if levels.len() == 0 {
        Seq::empty()
    } else {
        levels_bytes(levels.drop_last()) + level_bytes(levels.last())
    }
}

/// What a tile holds, as far as its bytes record it: the header, the bits of each mipmap
/// level together with the bytes that stored them, and slot by slot the sub-tiles.
pub struct TileModel {
    pub width_exp: i16,
    pub is_leaf: bool,
    pub levels: Seq<Seq<bool>>,
    pub level_data: Seq<Seq<u8>>,
    pub slots: Seq<Option<TileModel>>,
}

/// Outcome of reading a tile from bytes: the tile and the offset just past its bytes, an
/// error, or `Abort` for inputs on which the read panics.
pub enum TileParse {
    Tile(TileModel, int),
    Fail(Seq<char>),
    Abort,
}

pub enum LevelsParse {
    Levels(Seq<Seq<bool>>, Seq<Seq<u8>>, int),
    Fail(Seq<char>),
    Abort,
}

pub enum SlotsParse {
    Slots(Seq<Option<TileModel>>, int),
    Fail(Seq<char>),
    Abort,
}

pub open spec fn insufficient_text(what: int) -> Seq<char> {
    if what == 0 {
        "Insufficient data for width_exp"@
    } else if what == 1 {
        "Insufficient data for is_leaf"@
    } else if what == 2 {
        "Insufficient data for mipmap_count"@
    } else if what == 3 {
        "Insufficient data for bit_count"@
    } else if what == 4 {
        "Insufficient data for mipmap level"@
    } else if what == 5 {
        "Insufficient data for sub_tiles_count"@
    } else {
        "Insufficient data for sub_tile exists flag"@
    }
}

/// Reads `n` mipmap levels starting at `off`.
#[verifier::opaque]
pub open spec fn parse_levels(b: Seq<u8>, off: int, n: nat) -> LevelsParse
    decreases n,
{
    if n == 0 {
        LevelsParse::Levels(Seq::empty(), Seq::empty(), off)
    } else if b.len() < off + 8 {
        LevelsParse::Fail(insufficient_text(3))
    } else {
        let bit_count = read_le64(b, off) as usize;
        let start = off + 8;
        let byte_count = (bit_count + 7) / 8;
        if start + byte_count > usize::MAX {
            LevelsParse::Abort
        } else if b.len() < start + byte_count {
            LevelsParse::Fail(insufficient_text(4))
        } else if words_for_bits(bit_count as nat) * (usize::BITS as nat) > max_bits() {
            LevelsParse::Abort
        } else {
            let data = b.subrange(start, start + byte_count);
            let level = Seq::new(bit_count as nat, |i: int| bit_at(data, i));
            match parse_levels(b, start + byte_count, (n - 1) as nat) {
                LevelsParse::Levels(rest, rest_data, end) => LevelsParse::Levels(
                    seq![level] + rest,
                    seq![data] + rest_data,
                    end,
                ),
                other => other,
            }
        }
    }
}

/// Reading levels never moves backwards.
pub proof fn lemma_parse_levels_end(b: Seq<u8>, off: int, n: nat)
    ensures
        parse_levels(b, off, n) matches LevelsParse::Levels(_, _, end) ==> off <= end,
    decreases n,
{
    reveal(parse_levels);
    if n > 0 && b.len() >= off + 8 {
        let bit_count = read_le64(b, off) as usize;
        let byte_count = (bit_count + 7) / 8;
        lemma_parse_levels_end(b, off + 8 + byte_count, (n - 1) as nat);
    }
}

/// Reads a whole tile whose bytes start at `off`; the sub-tiles are read in place.
pub open spec fn parse_tile(b: Seq<u8>, off: int) -> TileParse
    decreases b.len() - off,
{
    if b.len() < off + 2 {
        TileParse::Fail(insufficient_text(0))
    } else if b.len() < off + 3 {
        TileParse::Fail(insufficient_text(1))
    } else if b.len() < off + 7 {
        TileParse::Fail(insufficient_text(2))
    } else {
        let width_exp = (read_le16(b, off) as u16) as i16;
        let is_leaf = b[off + 2] != 0;
        let count = read_le32(b, off + 3) as usize;
        match parse_levels(b, off + 7, count as nat) {
            LevelsParse::Fail(e) => TileParse::Fail(e),
            LevelsParse::Abort => TileParse::Abort,
            LevelsParse::Levels(levels, level_data, lend) => {
                if b.len() < lend + 4 {
                    TileParse::Fail(insufficient_text(5))
                } else {
                    proof {
                        lemma_parse_levels_end(b, off + 7, count as nat);
                    }
                    let n = read_le32(b, lend) as usize;
                    match parse_slots(b, lend + 4, n as nat) {
                        SlotsParse::Fail(e) => TileParse::Fail(e),
                        SlotsParse::Abort => TileParse::Abort,
                        SlotsParse::Slots(slots, end) => {
                            let w = width_exp as u8;
                            if levels.len() > 0 && !(2 * w < usize::BITS && levels[0].len()
                                == pow2(2 * w as nat)) {
                                TileParse::Abort
                            } else {
                                TileParse::Tile(
                                    TileModel { width_exp, is_leaf, levels, level_data, slots },
                                    end,
                                )
                            }
                        },
                    }
                }
            },
        }
    }
}

/// Reads `n` sub-tile slots starting at `off`: an exists byte each, and after a non-zero
/// one the sub-tile's own bytes, read in place.
#[verifier::opaque]
pub open spec fn parse_slots(b: Seq<u8>, off: int, n: nat) -> SlotsParse
    decreases b.len() - off,
{
    if n == 0 {
        SlotsParse::Slots(Seq::empty(), off)
    } else if b.len() < off + 1 {
        SlotsParse::Fail(insufficient_text(6))
    } else if b[off] == 0 {
        match parse_slots(b, off + 1, (n - 1) as nat) {
            SlotsParse::Slots(rest, end) => SlotsParse::Slots(seq![None] + rest, end),
            other => other,
        }
    } else {
        match parse_tile(b, off + 1) {
            TileParse::Fail(e) => SlotsParse::Fail(e),
            TileParse::Abort => SlotsParse::Abort,
            TileParse::Tile(m, sub_end) => {
                // A tile read always ends past its start and within the bytes
                // (`lemma_parse_tile_end`); this test only bounds the recursion.
                if sub_end <= off || sub_end > b.len() {
                    SlotsParse::Abort
                } else {
                    match parse_slots(b, sub_end, (n - 1) as nat) {
                        SlotsParse::Slots(rest, end) => SlotsParse::Slots(seq![Some(m)] + rest, end),
                        other => other,
                    }
                }
            },
        }
    }
}

impl GenericTile {
    pub closed spec fn slot_count(self) -> nat {
        self.sub_tiles@.len()
    }

    /// The mipmap levels' bit-vectors, full resolution first.
    pub closed spec fn level_vecs(self) -> Seq<BitVec> {
        match self.bitmap {
            Some(bm) => bm.levels_raw(),
            None => Seq::empty(),
        }
    }

    /// The bytes `to_bytes` writes for this tile.
    pub closed spec fn tile_bytes(self) -> Seq<u8>
        decreases self, self.slot_count() + 1,
    {
        le16_bytes(self.width_exp as u16) + seq![if self.is_leaf { 1u8 } else { 0u8 }] + le32_bytes(
            self.level_vecs().len() as u32,
        ) + levels_bytes(self.level_vecs()) + le32_bytes(self.sub_tiles@.len() as u32)
            + self.slots_bytes(self.sub_tiles@.len())
    }

    /// The bytes written for the first `k` sub-tile slots.
    pub closed spec fn slots_bytes(self, k: nat) -> Seq<u8>
        decreases self, k,
    {
        if k == 0 || k > self.sub_tiles@.len() {
            Seq::empty()
        } else {
            self.slots_bytes((k - 1) as nat) + match self.sub_tiles@[k - 1] {
                None => seq![0u8],
                Some(b) => seq![1u8] + (*b).tile_bytes(),
            }
        }
    }

    /// This tile holds what `m` records: same header, same mipmap levels stored in words
    /// that write out as the recorded bytes, and slot by slot the same sub-tiles.
    pub closed spec fn matches(self, m: TileModel) -> bool
        decreases self,
    {
        &&& self.width_exp == m.width_exp
        &&& self.is_leaf == m.is_leaf
        &&& match self.bitmap {
            None => m.levels.len() == 0,
            Some(bm) => bm.levels_view() == m.levels && bm.exp() == (m.width_exp as u8),
        }
        &&& m.level_data.len() == self.level_vecs().len()
        &&& forall|k: int|
            0 <= k < self.level_vecs().len() ==> lsb_bytes(
                words_of(#[trigger] self.level_vecs()[k]),
                bits_of(self.level_vecs()[k]).len(),
            ) == m.level_data[k]
        &&& self.sub_tiles@.len() == m.slots.len()
        &&& forall|i: int|
            0 <= i < self.sub_tiles@.len() ==> {
                &&& (#[trigger] self.sub_tiles@[i] is None <==> m.slots[i] is None)
                &&& (self.sub_tiles@[i] matches Some(b) ==> (*b).matches(m.slots[i].unwrap()))
            }
    }
}

proof fn lemma_levels_bytes_step(levels: Seq<BitVec>, k: int)
    requires
        0 <= k < levels.len(),
    ensures
        levels_bytes(levels.take(k + 1)) == levels_bytes(levels.take(k)) + level_bytes(levels[k]),
{
    assert(levels.take(k + 1).drop_last() =~= levels.take(k));
}

fn push_le16(out: &mut Vec<u8>, v: u16)
    ensures
        final(out)@ == old(out)@ + le16_bytes(v),
{
    out.push((v % 256) as u8);
    out.push((v / 256) as u8);
    proof {
        assert(out@ =~= old(out)@ + le16_bytes(v));
    }
}

fn push_le32(out: &mut Vec<u8>, v: u32)
    ensures
        final(out)@ == old(out)@ + le32_bytes(v),
{
    out.push((v % 256) as u8);
    out.push(((v / 256) % 256) as u8);
    out.push(((v / 65536) % 256) as u8);
    out.push((v / 16777216) as u8);
    proof {
        assert(out@ =~= old(out)@ + le32_bytes(v));
    }
}

fn push_le64(out: &mut Vec<u8>, v: u64)
    ensures
        final(out)@ == old(out)@ + le64_bytes(v),
{
    push_le32(out, (v % 0x1_0000_0000) as u32);
    push_le32(out, (v / 0x1_0000_0000) as u32);
    proof {
        assert(out@ =~= old(out)@ + le64_bytes(v));
    }
}

impl GenericTile {
    /// Every mipmap level of this tile and of every loaded sub-tile is stored in words whose
    /// bytes hold its bits, and every mipmap's base is `4^exp` bits.
    pub closed spec fn stored_levels_ok(self) -> bool
        decreases self,
    {
        &&& forall|k: int| 0 <= k < self.level_vecs().len() ==> level_decodes(#[trigger] self.level_vecs()[k])
        &&& (self.bitmap matches Some(bm) ==> 2 * bm.exp() < usize::BITS && bm.base().len() == pow2(
            2 * bm.exp(),
        ))
        &&& forall|i: int|
            0 <= i < self.sub_tiles@.len() ==> (#[trigger] self.sub_tiles@[i] matches Some(b)
                ==> (*b).stored_levels_ok())
    }

    /// Serialize the tile to bytes (format above).
    #[verifier::spinoff_prover]
    pub fn to_bytes(&self) -> (r: Vec<u8>)
        ensures
            r@ == self.tile_bytes(),
            self.stored_levels_ok(),
            self.serializable() ==> (parse_tile(r@, 0) matches TileParse::Tile(m, end) && end == r@.len()
                && self.matches(m)),
        decreases self,
    {
        let mut bytes: Vec<u8> = Vec::new();
        push_le16(&mut bytes, #[verifier::truncate] (self.width_exp as u16));
        bytes.push(if self.is_leaf { 1 } else { 0 });
        let num_levels: usize = match &self.bitmap {
            Some(bm) => bm.num_levels(),
            None => 0,
        };
        proof {
            if self.bitmap is Some {
                self.bitmap.unwrap().lemma_levels_raw();
            }
        }
        push_le32(&mut bytes, #[verifier::truncate] (num_levels as u32));
        let ghost header = bytes@;
        let ghost levels = self.level_vecs();
        if let Some(bm) = &self.bitmap {
            let mut k: usize = 0;
            while k < num_levels
                invariant
                    k <= num_levels,
                    num_levels == levels.len(),
                    levels == bm.levels_raw(),
                    bm.levels_raw().len() == bm.levels_view().len(),
                    bytes@ == header + levels_bytes(levels.take(k as int)),
                    forall|j: int| 0 <= j < k ==> level_decodes(#[trigger] levels[j]),
                decreases num_levels - k,
            {
                let level = bm.level_at_offset(k).unwrap();
                let bit_count = crate::bits::ext_len(level) as u64;
                let ghost before = bytes@;
                push_le64(&mut bytes, bit_count);
                let mut level_out = bitvec_to_bytes_lsb(level);
                bytes.append(&mut level_out);
                proof {
                    assert(*level == levels[k as int]);
                    assert(level_decodes(*level));
                    assert(bytes@ == before + level_bytes(levels[k as int]));
                    lemma_levels_bytes_step(levels, k as int);
                    assert(bytes@ =~= header + levels_bytes(levels.take(k + 1)));
                }
                k += 1;
            }
            proof {
                assert(levels.take(num_levels as int) =~= levels);
                use_type_invariant(bm);
                bm.lemma_wf();
            }
        } else {
            proof {
                assert(bytes@ =~= header + levels_bytes(levels));
            }
        }
        assert(forall|j: int| 0 <= j < levels.len() ==> level_decodes(#[trigger] levels[j]));
        push_le32(&mut bytes, #[verifier::truncate] (self.sub_tiles.len() as u32));
        let ghost prefix = bytes@;
        let mut i: usize = 0;
        while i < self.sub_tiles.len()
            invariant
                i <= self.sub_tiles@.len(),
                bytes@ == prefix + self.slots_bytes(i as nat),
                forall|j: int| 0 <= j < i ==> (#[trigger] self.sub_tiles@[j] matches Some(b) ==> (*b).stored_levels_ok()),
            decreases self.sub_tiles.len() - i,
        {
            match &self.sub_tiles[i] {
                Some(sub) => {
                    bytes.push(1);
                    let mut sub_bytes = (**sub).to_bytes();
                    bytes.append(&mut sub_bytes);
                },
                None => {
                    bytes.push(0);
                },
            }
            proof {
                assert(bytes@ =~= prefix + self.slots_bytes((i + 1) as nat));
            }
            i += 1;
        }
        proof {
            assert(bytes@ =~= self.tile_bytes());
            assert(self.stored_levels_ok());
            if self.serializable() {
                assert(bytes@.len() == bytes.len());
                assert(bytes@.subrange(0, bytes@.len() as int) =~= bytes@);
                self.lemma_parse_tile_back(bytes@, 0);
            }
        }
        bytes
    }
}

fn read_u16(b: &[u8], off: usize) -> (r: u16)
    requires
        off + 2 <= b@.len(),
    ensures
        r == read_le16(b@, off as int),
{
    b[off] as u16 + (b[off + 1] as u16) * 256
}

fn read_u32(b: &[u8], off: usize) -> (r: u32)
    requires
        off + 4 <= b@.len(),
    ensures
        r == read_le32(b@, off as int),
{
    b[off] as u32 + (b[off + 1] as u32) * 256 + (b[off + 2] as u32) * 65536 + (b[off + 3] as u32)
        * 16777216
}

fn read_u64(b: &[u8], off: usize) -> (r: u64)
    requires
        off + 8 <= b@.len(),
    ensures
        r == read_le64(b@, off as int),
{
    let lo = read_u32(b, off);
    proof {
        assert(b@.len() == b.len());
    }
    let hi = read_u32(b, off + 4);
    lo as u64 + (hi as u64) * 0x1_0000_0000
}

pub open spec fn levels_after(prefix: Seq<Seq<bool>>, prefix_data: Seq<Seq<u8>>, r: LevelsParse) -> LevelsParse {
    match r {
        LevelsParse::Levels(s, d, e) => LevelsParse::Levels(prefix + s, prefix_data + d, e),
        other => other,
    }
}

pub open spec fn slots_after(prefix: Seq<Option<TileModel>>, r: SlotsParse) -> SlotsParse {
    match r {
        SlotsParse::Slots(s, e) => SlotsParse::Slots(prefix + s, e),
        other => other,
    }
}

/// What reading a tile in place gives: the tile and the offset past its bytes, an error,
/// or a stop on an input where the reader panics.
enum TileRead {
    Read(GenericTile, usize),
    Failed(String),
    Aborted,
}

pub open spec fn is_abort(r: TileParse) -> bool {
    r is Abort
}

impl GenericTile {
    /// Reads the tile whose bytes start at `start`, sub-tiles in place; on success also
    /// gives the offset just past its bytes.
    #[verifier::spinoff_prover]
    #[verifier::rlimit(50)]
    fn read_tile(bytes: &[u8], start: usize) -> (r: TileRead)
        requires
            bytes@.len() <= isize::MAX,
            start <= bytes@.len(),
        ensures
            match r {
                TileRead::Read(t, end) => parse_tile(bytes@, start as int) matches TileParse::Tile(m, e) && e == end
                    && start < end <= bytes@.len() && t.matches(m),
                TileRead::Failed(e) => parse_tile(bytes@, start as int) == TileParse::Fail(e@),
                TileRead::Aborted => is_abort(parse_tile(bytes@, start as int)),
            },
        decreases bytes@.len() - start,
    {
        let ghost b = bytes@;
        reveal(parse_levels);
        reveal(parse_slots);
        let mut offset: usize = start;
        if bytes.len() < offset + 2 {
            return TileRead::Failed("Insufficient data for width_exp".to_string());
        }
        let w16 = read_u16(bytes, offset);
        let width_exp = #[verifier::truncate] (w16 as i16);
        proof {
            assert((w16 as i16) as u16 == w16) by (bit_vector);
        }
        offset += 2;
        if bytes.len() < offset + 1 {
            return TileRead::Failed("Insufficient data for is_leaf".to_string());
        }
        let is_leaf = bytes[offset] != 0;
        offset += 1;
        if bytes.len() < offset + 4 {
            return TileRead::Failed("Insufficient data for mipmap_count".to_string());
        }
        let mipmap_count = read_u32(bytes, offset) as usize;
        offset += 4;
        let ghost all_levels = parse_levels(b, start + 7, mipmap_count as nat);
        proof {
            assert(mipmap_count == read_le32(b, start + 3) as usize);
            assert(read_le16(b, start as int) == width_exp as u16);
            assert(is_leaf == (b[start + 2] != 0));
        }
        let mut levels: Vec<BitVec> = Vec::with_capacity(mipmap_count);
        let ghost mut datas: Seq<Seq<u8>> = Seq::empty();
        let mut j: usize = 0;
        while j < mipmap_count
            invariant
                b == bytes@,
                b.len() <= isize::MAX,
                start + 7 <= offset <= b.len(),
                j <= mipmap_count,
                mipmap_count <= 0xffff_ffff,
                all_levels is Abort ==> is_abort(parse_tile(b, start as int)),
                all_levels matches LevelsParse::Fail(e) ==> parse_tile(b, start as int) == TileParse::Fail(e),
                all_levels == levels_after(
                    levels@.map_values(|v: BitVec| bits_of(v)),
                    datas,
                    parse_levels(b, offset as int, (mipmap_count - j) as nat),
                ),
                levels@.len() == j,
                datas.len() == j,
                forall|k: int|
                    0 <= k < j ==> lsb_bytes(words_of(#[trigger] levels@[k]), bits_of(levels@[k]).len())
                        == datas[k],
            decreases mipmap_count - j,
        {
            reveal(parse_levels);
            if bytes.len() < offset + 8 {
                return TileRead::Failed("Insufficient data for bit_count".to_string());
            }
            let bit_count = #[verifier::truncate] (read_u64(bytes, offset) as usize);
            offset += 8;
            let byte_count = bit_count / 8 + if bit_count % 8 != 0 {
                1usize
            } else {
                0usize
            };
            proof {
                assert(byte_count == (bit_count + 7) / 8);
            }
            let level_end = match offset.checked_add(byte_count) {
                Some(e) => e,
                None => return TileRead::Aborted,
            };
            if bytes.len() < level_end {
                return TileRead::Failed("Insufficient data for mipmap level".to_string());
            }
            let bytes_per_word: usize = (usize::BITS / 8) as usize;
            let word_count = byte_count / bytes_per_word + if byte_count % bytes_per_word != 0 {
                1usize
            } else {
                0usize
            };
            proof {
                crate::bitmap2d::lemma_ceil_div(byte_count as int, bytes_per_word as int);
                assert(word_count == words_for_bits(bit_count as nat));
            }
            let loadable = match word_count.checked_mul(usize::BITS as usize) {
                Some(total) => total <= usize::MAX / 8,
                None => false,
            };
            if !loadable {
                return TileRead::Aborted;
            }
            let chunk = slice_subrange(bytes, offset, offset + byte_count);
            let level = bitvec_from_bytes_lsb(chunk, bit_count);
            let ghost prev = levels@.map_values(|v: BitVec| bits_of(v));
            let ghost prev_levels = levels@;
            levels.push(level);
            offset += byte_count;
            proof {
                assert(chunk@.take(byte_count as int) =~= chunk@);
                assert(levels@.map_values(|v: BitVec| bits_of(v)) =~= prev + seq![bits_of(level)]);
                let r = parse_levels(b, offset as int, (mipmap_count - j - 1) as nat);
                if r is Levels {
                    assert(prev + (seq![bits_of(level)] + r->Levels_0) =~= (prev + seq![bits_of(level)])
                        + r->Levels_0);
                    assert(datas + (seq![chunk@] + r->Levels_1) =~= (datas + seq![chunk@]) + r->Levels_1);
                }
                assert forall|k: int| 0 <= k < j + 1 implies lsb_bytes(
                    words_of(#[trigger] levels@[k]),
                    bits_of(levels@[k]).len(),
                ) == (datas + seq![chunk@])[k] by {
                    if k < j {
                        assert(levels@[k] == prev_levels[k]);
                    }
                }
                datas = datas + seq![chunk@];
            }
            j += 1;
        }
        proof {
            assert(levels@.map_values(|v: BitVec| bits_of(v)) + Seq::<Seq<bool>>::empty()
                =~= levels@.map_values(|v: BitVec| bits_of(v)));
            assert(datas + Seq::<Seq<u8>>::empty() =~= datas);
        }
        let ghost lend = offset;
        if bytes.len() < offset + 4 {
            return TileRead::Failed("Insufficient data for sub_tiles_count".to_string());
        }
        let sub_tiles_count = read_u32(bytes, offset) as usize;
        offset += 4;
        let ghost all_slots = parse_slots(b, offset as int, sub_tiles_count as nat);
        let mut sub_tiles: Vec<Option<Box<GenericTile>>> = Vec::with_capacity(sub_tiles_count);
        let ghost mut models: Seq<Option<TileModel>> = Seq::empty();
        let mut j: usize = 0;
        while j < sub_tiles_count
            invariant
                b == bytes@,
                b.len() <= isize::MAX,
                start + 7 <= offset <= b.len(),
                j <= sub_tiles_count,
                all_slots is Abort ==> is_abort(parse_tile(b, start as int)),
                all_slots matches SlotsParse::Fail(e) ==> parse_tile(b, start as int) == TileParse::Fail(e),
                all_slots == slots_after(models, parse_slots(b, offset as int, (sub_tiles_count - j) as nat)),
                sub_tiles@.len() == j,
                models.len() == j,
                forall|i: int|
                    0 <= i < j ==> {
                        &&& (#[trigger] sub_tiles@[i] is None <==> models[i] is None)
                        &&& (sub_tiles@[i] matches Some(t) ==> (*t).matches(models[i].unwrap()))
                    },
            decreases sub_tiles_count - j,
        {
            reveal(parse_slots);
            if bytes.len() < offset + 1 {
                return TileRead::Failed("Insufficient data for sub_tile exists flag".to_string());
            }
            let exists = bytes[offset] != 0;
            let ghost flag_at = offset as int;
            offset += 1;
            if exists {
                let (sub_tile, end) = match Self::read_tile(bytes, offset) {
                    TileRead::Read(t, e) => (t, e),
                    TileRead::Failed(e) => return TileRead::Failed(e),
                    TileRead::Aborted => return TileRead::Aborted,
                };
                let ghost m = parse_tile(b, offset as int)->Tile_0;
                sub_tiles.push(Some(Box::new(sub_tile)));
                offset = end;
                proof {
                    assert(!(end <= flag_at || end > b.len()));
                    let r = parse_slots(b, offset as int, (sub_tiles_count - j - 1) as nat);
                    if r is Slots {
                        assert(models + (seq![Some(m)] + r->Slots_0) =~= (models + seq![Some(m)]) + r->Slots_0);
                    }
                    models = models + seq![Some(m)];
                }
            } else {
                sub_tiles.push(None);
                proof {
                    let r = parse_slots(b, offset as int, (sub_tiles_count - j - 1) as nat);
                    if r is Slots {
                        assert(models + (seq![None] + r->Slots_0) =~= (models + seq![None]) + r->Slots_0);
                    }
                    models = models + seq![None];
                }
            }
            j += 1;
        }
        proof {
            assert(models + Seq::<Option<TileModel>>::empty() =~= models);
        }
        if levels.len() > 0 {
            let w8 = #[verifier::truncate] (width_exp as u8);
            if w8 as u32 * 2 >= usize::BITS {
                return TileRead::Aborted;
            }
            proof {
                vstd::bits::lemma_usize_pow2_no_overflow(2 * w8 as nat);
                vstd::bits::lemma_usize_shl_is_mul(1, (2 * w8) as usize);
            }
            let expected = 1usize << (2 * w8 as usize);
            if crate::bits::ext_len(&levels[0]) != expected {
                return TileRead::Aborted;
            }
        }
        let ghost level_bits = levels@.map_values(|v: BitVec| bits_of(v));
        let ghost all_vecs = levels@;
        let bitmap = if levels.len() == 0 {
            None
        } else {
            let base = levels.remove(0);
            proof {
                assert(levels@.map_values(|v: BitVec| bits_of(v)) =~= level_bits.drop_first());
                assert(seq![base] + levels@ =~= all_vecs);
            }
            Some(BitMap2D::from_precomputed(#[verifier::truncate] (width_exp as u8), base, levels))
        };
        let t = Self { sub_tiles, bitmap, width_exp, is_leaf };
        proof {
            let m = TileModel { width_exp, is_leaf, levels: level_bits, level_data: datas, slots: models };
            if t.bitmap is Some {
                assert(t.bitmap.unwrap().levels_view() =~= level_bits);
                assert(t.level_vecs() == all_vecs);
            } else {
                assert(t.level_vecs() =~= all_vecs);
            }
            assert(t.matches(m));
            lemma_parse_tile_layout(
                b,
                start as int,
                width_exp,
                is_leaf,
                level_bits,
                datas,
                lend as int,
                sub_tiles_count as nat,
                models,
                offset as int,
            );
        }
        TileRead::Read(t, offset)
    }

    /// Deserialize a tile from bytes (format above).
    pub fn from_bytes(bytes: &[u8]) -> (r: Result<Self, String>)
        requires
            bytes@.len() <= isize::MAX,
            !is_abort(parse_tile(bytes@, 0)),
        ensures
            match r {
                Ok(t) => parse_tile(bytes@, 0) matches TileParse::Tile(m, _) && t.matches(m) && (model_wf(m)
                    ==> t.wf()),
                Err(e) => parse_tile(bytes@, 0) == TileParse::Fail(e@),
            },
    {
        match Self::read_tile(bytes, 0) {
            TileRead::Read(t, _) => {
                proof {
                    let m = parse_tile(bytes@, 0)->Tile_0;
                    if model_wf(m) {
                        t.lemma_matches_wf(m);
                    }
                }
                Ok(t)
            },
            TileRead::Failed(e) => Err(e),
            TileRead::Aborted => {
                proof {
                    assert(false);
                }
                Err(String::new())
            },
        }
    }

    /// Whether reading these bytes as a tile runs into a case where the reader panics
    /// (a level too large for a bit-vector, or a base whose size does not match the tile's
    /// exponent): `from_bytes` may be called on them exactly when this is `false`.
    pub fn bytes_would_abort(bytes: &[u8]) -> (r: bool)
        requires
            bytes@.len() <= isize::MAX,
        ensures
            r == is_abort(parse_tile(bytes@, 0)),
    {
        match Self::read_tile(bytes, 0) {
            TileRead::Aborted => true,
            _ => false,
        }
    }
}


// ---------------------------------------------------------------------------
// Reading back what was written.
// ---------------------------------------------------------------------------

proof fn lemma_le16_read(v: u16, b: Seq<u8>, off: int)
    requires
        0 <= off,
        off + 2 <= b.len(),
        b.subrange(off, off + 2) == le16_bytes(v),
    ensures
        read_le16(b, off) == v,
{
    assert(b[off] == le16_bytes(v)[0]);
    assert(b[off + 1] == le16_bytes(v)[1]);
    assert((v % 256) as u8 + 256 * (v / 256) as u8 == v) by (bit_vector);
}

#[verifier::spinoff_prover]
proof fn lemma_le32_read(v: u32, b: Seq<u8>, off: int)
    requires
        0 <= off,
        off + 4 <= b.len(),
        b.subrange(off, off + 4) == le32_bytes(v),
    ensures
        read_le32(b, off) == v,
{
    assert(b[off] == le32_bytes(v)[0]);
    assert(b[off + 1] == le32_bytes(v)[1]);
    assert(b[off + 2] == le32_bytes(v)[2]);
    assert(b[off + 3] == le32_bytes(v)[3]);
    assert((v % 256) as u8 + 256 * ((v / 256) % 256) as u8 + 65536 * ((v / 65536) % 256) as u8
        + 16777216 * (v / 16777216) as u8 == v) by (bit_vector);
}

#[verifier::spinoff_prover]
proof fn lemma_le64_read(v: u64, b: Seq<u8>, off: int)
    requires
        0 <= off,
        off + 8 <= b.len(),
        b.subrange(off, off + 8) == le64_bytes(v),
    ensures
        read_le64(b, off) == v,
{
    let lo = (v % 0x1_0000_0000) as u32;
    let hi = (v / 0x1_0000_0000) as u32;
    assert(b.subrange(off, off + 4) =~= le32_bytes(lo)) by {
        assert(b.subrange(off, off + 4) =~= b.subrange(off, off + 8).subrange(0, 4));
    }
    assert(b.subrange(off + 4, off + 8) =~= le32_bytes(hi)) by {
        assert(b.subrange(off + 4, off + 8) =~= b.subrange(off, off + 8).subrange(4, 8));
    }
    lemma_le32_read(lo, b, off);
    lemma_le32_read(hi, b, off + 4);
    assert(v % 0x1_0000_0000 + 0x1_0000_0000 * (v / 0x1_0000_0000) == v) by (bit_vector);
}

/// A level whose storage bytes hold its bits.
pub open spec fn level_decodes(b: BitVec) -> bool {
    forall|i: int|
        0 <= i < bits_of(b).len() ==> #[trigger] bit_at(lsb_bytes(words_of(b), bits_of(b).len()), i)
            == bits_of(b)[i]
}

/// A level that a reader can load without running into bit-vector limits.
pub open spec fn level_loadable(b: BitVec) -> bool {
    words_for_bits(bits_of(b).len()) * (usize::BITS as nat) <= max_bits()
}

#[verifier::spinoff_prover]
proof fn lemma_levels_bytes_front(levels: Seq<BitVec>)
    requires
        levels.len() > 0,
    ensures
        levels_bytes(levels) == level_bytes(levels[0]) + levels_bytes(levels.drop_first()),
    decreases levels.len(),
{
    if levels.len() == 1 {
        assert(levels.drop_last() =~= Seq::<BitVec>::empty());
        assert(levels.drop_first() =~= Seq::<BitVec>::empty());
        assert(levels_bytes(levels.drop_last()) =~= Seq::<u8>::empty());
        assert(levels.last() == levels[0]);
        assert(levels_bytes(levels) =~= level_bytes(levels[0]));
    } else {
        lemma_levels_bytes_front(levels.drop_last());
        assert(levels.drop_last().drop_first() =~= levels.drop_first().drop_last());
        assert(levels.drop_last()[0] == levels[0]);
        assert(levels.drop_first().last() == levels.last());
    }
}

#[verifier::spinoff_prover]
proof fn lemma_loadable_len(n: nat)
    requires
        words_for_bits(n) * (usize::BITS as nat) <= max_bits(),
    ensures
        n <= max_bits(),
{
    let bc = (n + 7) / 8;
    let bw = usize::BITS as int / 8;
    assert(bw == 4 || bw == 8);
    vstd::arithmetic::div_mod::lemma_fundamental_div_mod(n + 7int, 8);
    vstd::arithmetic::div_mod::lemma_fundamental_div_mod(bc + bw - 1, bw);
    assert(words_for_bits(n) == (bc + bw - 1) / bw);
    assert(n <= words_for_bits(n) * (usize::BITS as nat)) by (nonlinear_arith)
        requires
            n + 7 == 8 * bc + (n + 7) % 8,
            0 <= (n + 7) % 8 < 8,
            bc + bw - 1 == bw * ((bc + bw - 1) / bw) + (bc + bw - 1) % bw,
            0 <= (bc + bw - 1) % bw < bw,
            words_for_bits(n) == (bc + bw - 1) / bw,
            usize::BITS as int == 8 * bw,
            bw > 0,
    ;
}

/// Reading one level back from where it was written.
#[verifier::spinoff_prover]
proof fn lemma_parse_one_level(b: Seq<u8>, off: int, l0: BitVec, m: nat)
    requires
        0 <= off,
        off + level_bytes(l0).len() <= b.len(),
        b.len() <= usize::MAX,
        b.subrange(off, off + level_bytes(l0).len()) == level_bytes(l0),
        level_decodes(l0),
        level_loadable(l0),
    ensures
        parse_levels(b, off, m + 1) == levels_after(
            seq![bits_of(l0)],
            seq![lsb_bytes(words_of(l0), bits_of(l0).len())],
            parse_levels(b, off + level_bytes(l0).len(), m),
        ),
{
    reveal(parse_levels);
    let n = bits_of(l0).len();
    let lb = level_bytes(l0);
    assert(b.subrange(off, off + 8) =~= le64_bytes(n as u64)) by {
        assert(b.subrange(off, off + 8) =~= lb.subrange(0, 8));
    }
    lemma_loadable_len(n);
    lemma_le64_read(n as u64, b, off);
    let bc = ((n + 7) / 8) as int;
    let start = off + 8;
    let data = lsb_bytes(words_of(l0), n);
    assert(b.subrange(start, start + bc) =~= data) by {
        assert(b.subrange(start, start + bc) =~= lb.subrange(8, 8 + bc));
    }
    let level = Seq::new(n, |i: int| bit_at(b.subrange(start, start + bc), i));
    assert(level =~= bits_of(l0));
    let r = parse_levels(b, start + bc, m);
    if r is Levels {
        assert(seq![level] + r->Levels_0 == seq![bits_of(l0)] + r->Levels_0);
    }
}

#[verifier::spinoff_prover]
proof fn lemma_parse_levels_back(b: Seq<u8>, off: int, levels: Seq<BitVec>)
    requires
        0 <= off,
        off + levels_bytes(levels).len() <= b.len(),
        b.len() <= usize::MAX,
        b.subrange(off, off + levels_bytes(levels).len()) == levels_bytes(levels),
        forall|k: int| 0 <= k < levels.len() ==> level_decodes(#[trigger] levels[k]),
        forall|k: int| 0 <= k < levels.len() ==> level_loadable(#[trigger] levels[k]),
    ensures
        parse_levels(b, off, levels.len()) == LevelsParse::Levels(
            levels.map_values(|v: BitVec| bits_of(v)),
            levels.map_values(|v: BitVec| lsb_bytes(words_of(v), bits_of(v).len())),
            off + levels_bytes(levels).len(),
        ),
    decreases levels.len(),
{
    if levels.len() == 0 {
        reveal(parse_levels);
        assert(levels.map_values(|v: BitVec| bits_of(v)) =~= Seq::<Seq<bool>>::empty());
        assert(levels.map_values(|v: BitVec| lsb_bytes(words_of(v), bits_of(v).len())) =~= Seq::<Seq<u8>>::empty());
    } else {
        lemma_levels_bytes_front(levels);
        let l0 = levels[0];
        let lb = level_bytes(l0);
        let rest = levels.drop_first();
        let all = levels_bytes(levels);
        assert(b.subrange(off, off + lb.len()) =~= lb) by {
            assert(b.subrange(off, off + lb.len()) =~= all.subrange(0, lb.len() as int));
        }
        lemma_parse_one_level(b, off, l0, rest.len());
        let off2 = off + lb.len();
        assert(b.subrange(off2, off2 + levels_bytes(rest).len()) =~= levels_bytes(rest)) by {
            assert(b.subrange(off2, off2 + levels_bytes(rest).len()) =~= all.subrange(
                lb.len() as int,
                all.len() as int,
            ));
        }
        assert forall|k: int| 0 <= k < rest.len() implies level_decodes(#[trigger] rest[k]) by {
            assert(rest[k] == levels[k + 1]);
        }
        assert forall|k: int| 0 <= k < rest.len() implies level_loadable(#[trigger] rest[k]) by {
            assert(rest[k] == levels[k + 1]);
        }
        lemma_parse_levels_back(b, off2, rest);
        assert(levels.map_values(|v: BitVec| bits_of(v)) =~= seq![bits_of(l0)] + rest.map_values(
            |v: BitVec| bits_of(v),
        ));
        assert(levels.map_values(|v: BitVec| lsb_bytes(words_of(v), bits_of(v).len())) =~= seq![
            lsb_bytes(words_of(l0), bits_of(l0).len()),
        ] + rest.map_values(|v: BitVec| lsb_bytes(words_of(v), bits_of(v).len())));
    }
}

/// The bytes written for one sub-tile slot.
pub open spec fn slot_bytes(o: Option<Box<GenericTile>>) -> Seq<u8> {
    match o {
        None => seq![0u8],
        Some(b) => seq![1u8] + (*b).tile_bytes(),
    }
}

/// A slot and the model read back for it agree.
#[verifier::opaque]
pub open spec fn slot_model_ok(o: Option<Box<GenericTile>>, m: Option<TileModel>) -> bool {
    &&& (o is None <==> m is None)
    &&& (o matches Some(t) ==> (*t).matches(m.unwrap()))
}

#[verifier::spinoff_prover]
proof fn lemma_parse_none_slot(b: Seq<u8>, off: int, k: nat)
    requires
        0 <= off,
        off + 1 <= b.len(),
        b[off] == 0,
    ensures
        parse_slots(b, off, k + 1) == slots_after(seq![None::<TileModel>], parse_slots(b, off + 1, k)),
{
    reveal(parse_slots);
    assert(((k + 1) - 1) as nat == k);
}

#[verifier::spinoff_prover]
proof fn lemma_parse_some_slot(b: Seq<u8>, off: int, m: TileModel, end: int, k: nat)
    requires
        0 <= off,
        off + 1 < end <= b.len(),
        b[off] != 0,
        parse_tile(b, off + 1) == TileParse::Tile(m, end),
    ensures
        parse_slots(b, off, k + 1) == slots_after(seq![Some(m)], parse_slots(b, end, k)),
{
    reveal(parse_slots);
    assert(((k + 1) - 1) as nat == k);
}

#[verifier::spinoff_prover]
proof fn lemma_parse_tile_layout(
    b: Seq<u8>,
    off: int,
    w: i16,
    leaf: bool,
    levels: Seq<Seq<bool>>,
    data: Seq<Seq<u8>>,
    lend: int,
    n: nat,
    ms: Seq<Option<TileModel>>,
    send: int,
)
    requires
        0 <= off,
        b.len() >= off + 7,
        read_le16(b, off) == w as u16,
        (b[off + 2] != 0) == leaf,
        read_le32(b, off + 3) == levels.len(),
        parse_levels(b, off + 7, levels.len()) == LevelsParse::Levels(levels, data, lend),
        lend + 4 <= b.len(),
        read_le32(b, lend) == n,
        parse_slots(b, lend + 4, n) == SlotsParse::Slots(ms, send),
        levels.len() > 0 ==> 2 * (w as u8) < usize::BITS && levels[0].len() == pow2(2 * (w as u8) as nat),
    ensures
        parse_tile(b, off) == TileParse::Tile(
            TileModel { width_exp: w, is_leaf: leaf, levels, level_data: data, slots: ms },
            send,
        ),
{
    assert(((w as u16) as i16) == w) by (bit_vector);
    assert(read_le32(b, off + 3) <= 0xffff_ffff);
    assert(read_le32(b, lend) <= 0xffff_ffff);
    let count = read_le32(b, off + 3) as usize;
    assert(count as nat == levels.len());
    let nn = read_le32(b, lend) as usize;
    assert(nn as nat == n);
    assert((read_le16(b, off) as u16) as i16 == w);
}

impl GenericTile {
    /// The tile can be written and read back: its counts fit the format's 32-bit fields,
    /// every level can be loaded, and the mipmap's exponent is the tile's own (as the reader
    /// assumes); the same holds of every loaded sub-tile.
    pub closed spec fn serializable(self) -> bool
        decreases self,
    {
        &&& self.level_vecs().len() <= 0xffff_ffff
        &&& self.sub_tiles@.len() <= 0xffff_ffff
        &&& forall|k: int| 0 <= k < self.level_vecs().len() ==> level_loadable(#[trigger] self.level_vecs()[k])
        &&& (self.bitmap matches Some(bm) ==> bm.exp() == (self.width_exp as u8))
        &&& forall|i: int|
            0 <= i < self.sub_tiles@.len() ==> (#[trigger] self.sub_tiles@[i] matches Some(b) ==> (*b).serializable())
    }

    pub closed spec fn slot_raw(self, i: int) -> Option<Box<GenericTile>> {
        self.sub_tiles@[i]
    }

    /// The bytes of slots `j..k`.
    pub open spec fn slots_seg(self, j: int, k: int) -> Seq<u8>
        decreases k - j,
    {
        if j >= k {
            Seq::empty()
        } else {
            slot_bytes(self.slot_raw(j)) + self.slots_seg(j + 1, k)
        }
    }

    #[verifier::spinoff_prover]
    proof fn lemma_slots_seg_back(self, j: int, k: int)
        requires
            j < k,
        ensures
            self.slots_seg(j, k) == self.slots_seg(j, k - 1) + slot_bytes(self.slot_raw(k - 1)),
        decreases k - j,
    {
        if j + 1 < k {
            self.lemma_slots_seg_back(j + 1, k);
        } else {
            assert(self.slots_seg(j + 1, k) =~= Seq::<u8>::empty());
            assert(self.slots_seg(j, k - 1) =~= Seq::<u8>::empty());
        }
        assert(self.slots_seg(j, k) =~= self.slots_seg(j, k - 1) + slot_bytes(self.slot_raw(k - 1)));
    }

    #[verifier::spinoff_prover]
    proof fn lemma_slots_bytes_seg(self, k: nat)
        requires
            k <= self.slot_count(),
        ensures
            self.slots_bytes(k) == self.slots_seg(0, k as int),
        decreases k,
    {
        if k > 0 {
            self.lemma_slots_bytes_seg((k - 1) as nat);
            self.lemma_slots_seg_back(0, k as int);
        } else {
            assert(self.slots_bytes(0) =~= Seq::<u8>::empty());
        }
    }

    /// Reading slots `j..` back from where they were written.
    #[verifier::rlimit(50)]
    #[verifier::spinoff_prover]
    proof fn lemma_parse_slots_back(self, b: Seq<u8>, off: int, j: int)
        requires
            0 <= j <= self.slot_count(),
            0 <= off,
            off + self.slots_seg(j, self.slot_count() as int).len() <= b.len(),
            b.len() <= usize::MAX,
            b.subrange(off, off + self.slots_seg(j, self.slot_count() as int).len()) == self.slots_seg(
                j,
                self.slot_count() as int,
            ),
            self.serializable(),
            self.stored_levels_ok(),
        ensures
            parse_slots(b, off, (self.slot_count() - j) as nat) matches SlotsParse::Slots(ms, end) && end
                == off + self.slots_seg(j, self.slot_count() as int).len() && ms.len()
                == self.slot_count() - j && forall|i: int|
                0 <= i < ms.len() ==> slot_model_ok(self.slot_raw(j + i), #[trigger] ms[i]),
        decreases self, self.slot_count() - j,
    {
        let n = self.slot_count() as int;
        if j == n {
            reveal(parse_slots);
            return;
        }
        let seg = self.slots_seg(j, n);
        let sb = slot_bytes(self.slot_raw(j));
        let rest = self.slots_seg(j + 1, n);
        let off2 = off + sb.len();
        assert(seg == sb + rest);
        assert(b.subrange(off, off + sb.len()) =~= sb) by {
            assert(b.subrange(off, off + sb.len()) =~= seg.subrange(0, sb.len() as int));
        }
        assert(b.subrange(off2, off2 + rest.len()) =~= rest) by {
            assert(b.subrange(off2, off2 + rest.len()) =~= seg.subrange(sb.len() as int, seg.len() as int));
        }
        self.lemma_parse_slots_back(b, off2, j + 1);
        assert(b[off] == sb[0]);
        reveal(slot_model_ok);
        let first: Option<TileModel> = match self.sub_tiles@[j] {
            None => {
                lemma_parse_none_slot(b, off, (n - j - 1) as nat);
                None
            },
            Some(t) => {
                let tb = (*t).tile_bytes();
                assert(b.subrange(off + 1, off + 1 + tb.len()) =~= tb) by {
                    assert(b.subrange(off + 1, off + 1 + tb.len()) =~= sb.subrange(1, sb.len() as int));
                }
                assert((*t).serializable());
                assert((*t).stored_levels_ok());
                (*t).lemma_parse_tile_back(b, off + 1);
                let m = parse_tile(b, off + 1)->Tile_0;
                (*t).lemma_tile_bytes_len();
                lemma_parse_some_slot(b, off, m, off + 1 + tb.len(), (n - j - 1) as nat);
                Some(m)
            },
        };
        let ms_rest = parse_slots(b, off2, (n - j - 1) as nat)->Slots_0;
        let ms = seq![first] + ms_rest;
        assert(slot_model_ok(self.slot_raw(j), first));
        assert forall|i: int| 0 <= i < ms.len() implies slot_model_ok(self.slot_raw(j + i), #[trigger] ms[i]) by {
            if i > 0 {
                assert(ms[i] == ms_rest[i - 1]);
                assert(j + i == (j + 1) + (i - 1));
            }
        }
    }

    /// A tile's bytes hold at least its header.
    proof fn lemma_tile_bytes_len(self)
        ensures
            self.tile_bytes().len() >= 11,
    {
    }

    /// Reading a tile back from where its bytes were written, anywhere in a buffer.
    #[verifier::rlimit(100)]
    #[verifier::spinoff_prover]
    proof fn lemma_parse_tile_back(self, b: Seq<u8>, off: int)
        requires
            0 <= off,
            off + self.tile_bytes().len() <= b.len(),
            b.len() <= usize::MAX,
            b.subrange(off, off + self.tile_bytes().len()) == self.tile_bytes(),
            self.serializable(),
            self.stored_levels_ok(),
        ensures
            parse_tile(b, off) matches TileParse::Tile(m, end) && end == off + self.tile_bytes().len()
                && self.matches(m),
        decreases self, self.slot_count() + 1,
    {
        let levels = self.level_vecs();
        let n = self.sub_tiles@.len();
        let lb = levels_bytes(levels);
        let tb = self.tile_bytes();
        let head = le16_bytes(self.width_exp as u16) + seq![if self.is_leaf { 1u8 } else { 0u8 }]
            + le32_bytes(levels.len() as u32);
        let sb = self.slots_bytes(n);
        assert(tb =~= head + lb + le32_bytes(n as u32) + sb);
        assert(b.subrange(off, off + 2) =~= le16_bytes(self.width_exp as u16)) by {
            assert(b.subrange(off, off + 2) =~= tb.subrange(0, 2));
        }
        lemma_le16_read(self.width_exp as u16, b, off);
        assert(b[off + 2] == tb[2]);
        assert(b.subrange(off + 3, off + 7) =~= le32_bytes(levels.len() as u32)) by {
            assert(b.subrange(off + 3, off + 7) =~= tb.subrange(3, 7));
        }
        lemma_le32_read(levels.len() as u32, b, off + 3);
        assert(b.subrange(off + 7, off + 7 + lb.len() as int) =~= lb) by {
            assert(b.subrange(off + 7, off + 7 + lb.len() as int) =~= tb.subrange(7, 7 + lb.len() as int));
        }
        lemma_parse_levels_back(b, off + 7, levels);
        let lend: int = off + 7 + lb.len() as int;
        let t2 = 7 + lb.len() as int;
        assert(b.subrange(lend, lend + 4) =~= le32_bytes(n as u32)) by {
            assert(b.subrange(lend, lend + 4) =~= tb.subrange(t2, t2 + 4));
        }
        lemma_le32_read(n as u32, b, lend);
        self.lemma_slots_bytes_seg(n);
        assert(b.subrange(lend + 4, lend + 4 + sb.len()) =~= sb) by {
            assert(b.subrange(lend + 4, lend + 4 + sb.len()) =~= tb.subrange(t2 + 4, tb.len() as int));
        }
        self.lemma_parse_slots_back(b, lend + 4, 0);
        let level_bits = levels.map_values(|v: BitVec| bits_of(v));
        let level_data = levels.map_values(|v: BitVec| lsb_bytes(words_of(v), bits_of(v).len()));
        let sp = parse_slots(b, lend + 4, n);
        let ms = sp->Slots_0;
        if self.bitmap is Some {
            self.bitmap.unwrap().lemma_levels_raw();
            assert(level_bits[0] == self.bitmap.unwrap().base());
        }
        lemma_parse_tile_layout(b, off, self.width_exp, self.is_leaf, level_bits, level_data, lend, n, ms, sp->Slots_1);
        let m = TileModel {
            width_exp: self.width_exp,
            is_leaf: self.is_leaf,
            levels: level_bits,
            level_data,
            slots: ms,
        };
        reveal(slot_model_ok);
        assert forall|i: int| 0 <= i < self.sub_tiles@.len() implies {
            &&& (#[trigger] self.sub_tiles@[i] is None <==> m.slots[i] is None)
            &&& (self.sub_tiles@[i] matches Some(t) ==> (*t).matches(m.slots[i].unwrap()))
        } by {
            assert(slot_model_ok(self.slot_raw(0 + i), ms[i]));
        }
        assert(self.matches(m));
    }
}

/// A model of a well-formed tree: an exponent whose grid fits the machine word, one slot
/// per cell of the grid unless it is a leaf, and well-formed sub-tiles.
pub open spec fn model_wf(m: TileModel) -> bool
    decreases m,
{
    &&& 0 <= m.width_exp
    &&& 2 * m.width_exp < usize::BITS
    &&& (!m.is_leaf ==> m.slots.len() == pow2(2 * m.width_exp as nat))
    &&& forall|i: int| 0 <= i < m.slots.len() ==> (#[trigger] m.slots[i] matches Some(s) ==> model_wf(s))
}

/// The serialized levels of two lists whose levels write out alike are alike.
proof fn lemma_levels_bytes_same(a: Seq<BitVec>, c: Seq<BitVec>)
    requires
        a.len() == c.len(),
        forall|k: int| 0 <= k < a.len() ==> level_bytes(#[trigger] a[k]) == level_bytes(c[k]),
    ensures
        levels_bytes(a) == levels_bytes(c),
    decreases a.len(),
{
    if a.len() > 0 {
        lemma_levels_bytes_same(a.drop_last(), c.drop_last());
    }
}

impl GenericTile {
    /// Law of the byte format: two tiles that hold what the same bytes record write the same
    /// bytes. With the contracts of `to_bytes` and `from_bytes`, writing a tile, reading the
    /// bytes back and writing again gives the same bytes.
    pub proof fn lemma_same_model_same_bytes(self, other: GenericTile, m: TileModel)
        requires
            self.matches(m),
            other.matches(m),
        ensures
            self.tile_bytes() == other.tile_bytes(),
        decreases self, self.slot_count() + 1,
    {
        let a = self.level_vecs();
        let c = other.level_vecs();
        if self.bitmap is Some {
            self.bitmap.unwrap().lemma_levels_raw();
        }
        if other.bitmap is Some {
            other.bitmap.unwrap().lemma_levels_raw();
        }
        assert forall|k: int| 0 <= k < a.len() implies level_bytes(#[trigger] a[k]) == level_bytes(c[k]) by {
            assert(bits_of(a[k]) == a.map_values(|v: BitVec| bits_of(v))[k]);
            assert(bits_of(c[k]) == c.map_values(|v: BitVec| bits_of(v))[k]);
        }
        lemma_levels_bytes_same(a, c);
        self.lemma_same_slots_bytes(other, m, self.sub_tiles@.len());
    }

    proof fn lemma_same_slots_bytes(self, other: GenericTile, m: TileModel, k: nat)
        requires
            self.matches(m),
            other.matches(m),
            k <= self.sub_tiles@.len(),
        ensures
            self.slots_bytes(k) == other.slots_bytes(k),
        decreases self, k,
    {
        if k > 0 {
            self.lemma_same_slots_bytes(other, m, (k - 1) as nat);
            let i = k - 1;
            assert(self.sub_tiles@[i] is None <==> m.slots[i] is None);
            assert(other.sub_tiles@[i] is None <==> m.slots[i] is None);
            if let Some(t) = self.sub_tiles@[i] {
                let u = other.sub_tiles@[i]->0;
                (*t).lemma_same_model_same_bytes(*u, m.slots[i].unwrap());
            }
        }
    }

    /// A tile that holds what a well-shaped model records is well-formed.
    pub proof fn lemma_matches_wf(self, m: TileModel)
        requires
            self.matches(m),
            model_wf(m),
        ensures
            self.wf(),
        decreases self,
    {
        assert forall|i: int| 0 <= i < self.sub_tiles@.len() implies (#[trigger] self.sub_tiles@[i] matches Some(b)
            ==> (*b).wf()) by {
            if let Some(b) = self.sub_tiles@[i] {
                assert(m.slots[i] is Some);
                (*b).lemma_matches_wf(m.slots[i].unwrap());
            }
        }
    }

    /// What `matches` says in terms of the tile's public views.
    pub proof fn lemma_matches(self, m: TileModel)
        requires
            self.matches(m),
        ensures
            self.exp() == m.width_exp,
            self.leaf() == m.is_leaf,
            match self.mipmap() {
                None => m.levels.len() == 0,
                Some(bm) => bm.levels_view() == m.levels && bm.exp() == (m.width_exp as u8),
            },
            self.slots().len() == m.slots.len(),
            forall|i: int|
                0 <= i < m.slots.len() ==> (#[trigger] self.slots()[i] is None <==> m.slots[i] is None),
            forall|i: int|
                0 <= i < m.slots.len() ==> (#[trigger] self.slots()[i] matches Some(t) ==> t.matches(
                    m.slots[i].unwrap(),
                )),
    {
        assert forall|i: int| 0 <= i < m.slots.len() implies (#[trigger] self.slots()[i] is None <==> m.slots[i] is None) by {
            assert(self.sub_tiles@[i] is None <==> m.slots[i] is None);
        }
        assert forall|i: int| 0 <= i < m.slots.len() implies (#[trigger] self.slots()[i] matches Some(t)
            ==> t.matches(m.slots[i].unwrap())) by {
            assert(self.sub_tiles@[i] is None <==> m.slots[i] is None);
        }
    }
}


impl GenericTile {
    /// Construct a leaf tile from an MSB-ordered packed bitmap payload (bit index 0 is the
    /// most-significant bit of byte 0), with its full mipmap.
    pub fn from_msb_bitmap(width_exp: i16, data: &[u8]) -> (r: Self)
        requires
            0 <= width_exp,
            pow2(2 * width_exp as nat) <= max_bits(),
            data@.len() == pow2(2 * width_exp as nat) / 8,
        ensures
            r.wf(),
            r.exp() == width_exp,
            r.leaf(),
            r.slots().len() == 0,
            r.mipmap() matches Some(bm) && bm.exp() == width_exp && bm.levels_view() == pyramid(
                Seq::new(
                    pow2(2 * width_exp as nat),
                    |i: int| i < 8 * data@.len() && msb_bit(data@, i),
                ),
                width_exp as nat,
            ),
    {
        let ghost n = pow2(2 * width_exp as nat);
        proof {
            crate::bitmap2d::lemma_fits_bits(2 * width_exp as nat);
            crate::bitmap2d::lemma_grid_size(width_exp as nat);
            vstd::bits::lemma_usize_shl_is_mul(1, width_exp as usize);
        }
        let width: usize = 1usize << (width_exp as usize);
        let total = width * width;
        let expected_bytes = total / 8;
        let mut bits = ext_with_capacity(total);
        ext_resize(&mut bits, total, false);
        let ghost target = Seq::new(n, |i: int| i < 8 * data@.len() && msb_bit(data@, i));
        let mut byte_idx: usize = 0;
        while byte_idx < data.len()
            invariant
                total == n,
                data@.len() == expected_bytes,
                expected_bytes == total / 8,
                byte_idx <= data@.len(),
                bits_of(bits).len() == n,
                target == Seq::new(n, |i: int| i < 8 * data@.len() && msb_bit(data@, i)),
                forall|i: int| 0 <= i < n ==> #[trigger] bits_of(bits)[i] == if i < 8 * byte_idx {
                    target[i]
                } else {
                    false
                },
            decreases data.len() - byte_idx,
        {
            let byte = data[byte_idx];
            let mut bit_idx: usize = 0;
            while bit_idx < 8
                invariant
                    total == n,
                    data@.len() == expected_bytes,
                    expected_bytes == total / 8,
                    byte_idx < data@.len(),
                    byte == data@[byte_idx as int],
                    bit_idx <= 8,
                    bits_of(bits).len() == n,
                    target == Seq::new(n, |i: int| i < 8 * data@.len() && msb_bit(data@, i)),
                    forall|i: int| 0 <= i < n ==> #[trigger] bits_of(bits)[i] == if i < 8 * byte_idx
                        + bit_idx {
                        target[i]
                    } else {
                        false
                    },
                decreases 8 - bit_idx,
            {
                let pixel_idx = byte_idx * 8 + bit_idx;
                ext_set(&mut bits, pixel_idx, ((byte >> (7 - bit_idx as u8)) & 1) == 1);
                proof {
                    assert(pixel_idx / 8 == byte_idx);
                    assert(pixel_idx % 8 == bit_idx);
                }
                bit_idx += 1;
            }
            byte_idx += 1;
        }
        let mut bm = BitMap2D::from_bitvec(width_exp as u8, bits);
        bm.build_lods();
        let ghost v = bm.levels_view();
        let r = Self { sub_tiles: Vec::new(), bitmap: Some(bm), width_exp, is_leaf: true };
        proof {
            assert(bits_of(bits) =~= target);
            assert forall|k: int| 0 <= k <= width_exp implies #[trigger] v[k] == pyramid_level(target, width_exp as nat, k as nat) by {
                if k > 0 {
                    assert(v[k] == bm.lods_view()[k - 1]);
                }
            }
            assert(v =~= pyramid(target, width_exp as nat));
            assert(r.slots() =~= Seq::<Option<GenericTile>>::empty());
        }
        r
    }

    /// Construct a leaf tile from precomputed mipmap levels (full resolution first).
    pub fn from_precomputed_mipmap(width_exp: i16, mipmap: Vec<BitVec>) -> (r: Self)
        requires
            mipmap@.len() > 0 ==> {
                &&& 2 * (width_exp as u8) < usize::BITS
                &&& bits_of(mipmap@[0]).len() == pow2(2 * (width_exp as u8) as nat)
            },
        ensures
            0 <= width_exp && 2 * width_exp < usize::BITS ==> r.wf(),
            r.exp() == width_exp,
            r.leaf(),
            r.slots().len() == 0,
            match r.mipmap() {
                None => mipmap@.len() == 0,
                Some(bm) => mipmap@.len() > 0 && bm.exp() == (width_exp as u8) && bm.levels_view()
                    == mipmap@.map_values(|b: BitVec| bits_of(b)),
            },
    {
        let bitmap = if mipmap.len() == 0 {
            None
        } else {
            Some(Self::bitmap_from_levels(#[verifier::truncate] (width_exp as u8), &mipmap))
        };
        let r = Self { sub_tiles: Vec::new(), bitmap, width_exp, is_leaf: true };
        proof {
            assert(r.slots() =~= Seq::<Option<GenericTile>>::empty());
        }
        r
    }

    /// A leaf tile holding the given bitmap, as wide as the bitmap.
    pub(crate) fn leaf_from_bitmap(bitmap: BitMap2D) -> (r: Self)
        ensures
            r.exp() == bitmap.exp(),
            r.leaf(),
            r.slots().len() == 0,
            r.mipmap() == Some(bitmap),
    {
        let width_exp = bitmap.width_exp() as i16;
        let r = Self { sub_tiles: Vec::new(), bitmap: Some(bitmap), width_exp, is_leaf: true };
        proof {
            assert(r.slots() =~= Seq::<Option<GenericTile>>::empty());
        }
        r
    }

    /// The tile's mipmap, borrowed.
    pub(crate) fn mipmap_ref(&self) -> (r: Option<&BitMap2D>)
        ensures
            r is None <==> self.mipmap() is None,
            r matches Some(b) ==> self.mipmap() == Some(*b),
    {
        match &self.bitmap {
            Some(b) => Some(b),
            None => None,
        }
    }

    /// A bitmap of copies of the given levels (the first is the base).
    fn bitmap_from_levels(width_exp: u8, mipmap: &Vec<BitVec>) -> (r: BitMap2D)
        requires
            mipmap@.len() > 0,
            2 * width_exp < usize::BITS,
            bits_of(mipmap@[0]).len() == pow2(2 * width_exp as nat),
        ensures
            r.exp() == width_exp,
            r.levels_view() == mipmap@.map_values(|b: BitVec| bits_of(b)),
    {
        let base = mipmap[0].clone();
        let mut lods: Vec<BitVec> = Vec::new();
        let mut k: usize = 1;
        while k < mipmap.len()
            invariant
                1 <= k <= mipmap@.len(),
                lods@.len() == k - 1,
                forall|j: int| 0 <= j < k - 1 ==> #[trigger] bits_of(lods@[j]) == bits_of(mipmap@[j + 1]),
            decreases mipmap.len() - k,
        {
            lods.push(mipmap[k].clone());
            k += 1;
        }
        let bm = BitMap2D::from_precomputed(width_exp, base, lods);
        proof {
            assert(bm.levels_view() =~= mipmap@.map_values(|b: BitVec| bits_of(b)));
        }
        bm
    }

    /// Replace the mipmap by copies of the given levels; the base's size gives the bitmap's
    /// exponent. An empty list removes the mipmap.
    pub fn set_mipmap(&mut self, mipmap: Vec<BitVec>)
        requires
            mipmap@.len() > 0 ==> exists|k: nat|
                2 * k < usize::BITS && bits_of(mipmap@[0]).len() == #[trigger] pow2(2 * k),
        ensures
            final(self).exp() == old(self).exp(),
            final(self).leaf() == old(self).leaf(),
            final(self).slots() == old(self).slots(),
            match final(self).mipmap() {
                None => mipmap@.len() == 0,
                Some(bm) => mipmap@.len() > 0 && bits_of(mipmap@[0]).len() == pow2(2 * bm.exp())
                    && bm.levels_view() == mipmap@.map_values(|b: BitVec| bits_of(b)),
            },
            old(self).wf() ==> final(self).wf(),
    {
        if mipmap.len() == 0 {
            self.bitmap = None;
            return;
        }
        let len = crate::bits::ext_len(&mipmap[0]);
        let ghost k0 = choose|k: nat| 2 * k < usize::BITS && bits_of(mipmap@[0]).len() == #[trigger] pow2(2 * k);
        let mut e: u8 = 0;
        proof {
            vstd::arithmetic::power2::lemma_pow2_pos(0);
            vstd::arithmetic::power2::lemma2_to64();
        }
        while ((1usize << (2 * e as usize)) < len)
            invariant
                len == pow2(2 * k0),
                2 * k0 < usize::BITS,
                e <= k0,
            decreases k0 - e,
        {
            proof {
                vstd::bits::lemma_usize_pow2_no_overflow(2 * e as nat);
                vstd::bits::lemma_usize_shl_is_mul(1, (2 * e) as usize);
                if e == k0 {
                    assert(false);
                }
            }
            e += 1;
        }
        proof {
            vstd::bits::lemma_usize_pow2_no_overflow(2 * e as nat);
            vstd::bits::lemma_usize_shl_is_mul(1, (2 * e) as usize);
            if e < k0 {
                vstd::arithmetic::power2::lemma_pow2_strictly_increases(2 * e as nat, 2 * k0);
            }
        }
        self.bitmap = Some(Self::bitmap_from_levels(e, &mipmap));
    }
}


/// Whether a mipmap marks cell `idx` of its base as holding data.
pub open spec fn occupied(bitmap: Option<BitMap2D>, idx: int) -> bool {
    match bitmap {
        Some(bm) => 0 <= idx < bm.base().len() && bm.base()[idx],
        None => false,
    }
}

impl GenericTile {
    /// Which slots hold a loaded sub-tile, row-major.
    pub open spec fn occupancy(self) -> Seq<bool> {
        Seq::new(self.slots().len(), |i: int| self.slots()[i] is Some)
    }

    /// The loaded sub-tiles with their grid coordinates, in slot order.
    pub open spec fn present_sub_tiles(self) -> Seq<(int, int, GenericTile)> {
        Seq::new(self.slots().len(), |i: int| i).filter_map(
            |i: int|
                match self.slots()[i] {
                    Some(t) => Some((i % pow2(self.exp() as nat) as int, i / pow2(self.exp() as nat) as int, t)),
                    None => None,
                },
        )
    }

    /// Rebuild the mipmap from which sub-tile slots are loaded, with all its levels.
    pub fn compute_mipmap(&mut self)
        requires
            old(self).wf(),
            old(self).slots().len() == pow2(2 * old(self).exp() as nat),
            pow2(2 * old(self).exp() as nat) <= max_bits(),
        ensures
            final(self).exp() == old(self).exp(),
            final(self).leaf() == old(self).leaf(),
            final(self).slots() == old(self).slots(),
            final(self).mipmap() matches Some(bm) && bm.exp() == old(self).exp() && bm.levels_view()
                == pyramid(old(self).occupancy(), old(self).exp() as nat),
            final(self).wf(),
    {
        let ghost w = self.width_exp as nat;
        let ghost n = pow2(2 * w);
        let ghost occ = self.occupancy();
        proof {
            crate::bitmap2d::lemma_grid_size(w);
            vstd::bits::lemma_usize_shl_is_mul(1, w as usize);
        }
        let mut bm = BitMap2D::new(self.width_exp as u8);
        let width: usize = 1usize << (self.width_exp as usize);
        proof {
            assert(width * width == n);
        }
        let mut i: usize = 0;
        while i < width
            invariant
                width == pow2(w),
                width * width == n,
                n == pow2(2 * w),
                2 * w < usize::BITS,
                self.sub_tiles@.len() == n,
                occ == self.occupancy(),
                occ.len() == n,
                i <= width,
                bm.exp() == w,
                bm.base().len() == n,
                bm.lods_view().len() == 0,
                forall|p: int| 0 <= p < n ==> #[trigger] bm.base()[p] == (p < i * width && occ[p]),
            decreases width - i,
        {
            let mut j: usize = 0;
            proof {
                crate::bitmap2d::lemma_grid_size(w);
                assert((i + 1) * width <= width * width) by (nonlinear_arith)
                    requires
                        i < width,
                ;
                assert((i + 1) * width == i * width + width) by (nonlinear_arith);
            }
            while j < width
                invariant
                    width == pow2(w),
                    width * width == n,
                    n == pow2(2 * w),
                    self.sub_tiles@.len() == n,
                    occ == self.occupancy(),
                    occ.len() == n,
                    i < width,
                    j <= width,
                    (i + 1) * width <= n,
                    (i + 1) * width == i * width + width,
                    n <= usize::MAX,
                    bm.exp() == w,
                    bm.base().len() == n,
                    bm.lods_view().len() == 0,
                    forall|p: int| 0 <= p < n ==> #[trigger] bm.base()[p] == (p < i * width + j && occ[p]),
                decreases width - j,
            {
                let idx = i * width + j;
                proof {
                    assert(i * pow2(bm.exp()) + j < pow2(2 * bm.exp()));
                }
                if self.sub_tiles[idx].is_some() {
                    bm.set(j, i, true);
                }
                proof {
                    assert(occ[idx as int] == (self.sub_tiles@[idx as int] is Some));
                }
                j += 1;
            }
            i += 1;
        }
        bm.build_lods();
        let ghost v = bm.levels_view();
        proof {
            assert(bm.base() =~= occ);
            assert forall|k: int| 0 <= k <= w implies #[trigger] v[k] == pyramid_level(occ, w, k as nat) by {
                if k > 0 {
                    assert(v[k] == bm.lods_view()[k - 1]);
                }
            }
            assert(v =~= pyramid(occ, w));
        }
        self.bitmap = Some(bm);
    }

    /// Whether the mipmap marks slot `idx` as holding data.
    fn mipmap_has_subtile(&self, idx: usize) -> (r: bool)
        ensures
            r == occupied(self.mipmap(), idx as int),
    {
        match &self.bitmap {
            Some(bm) => {
                let bits = bm.as_bitvec();
                idx < crate::bits::ext_len(bits) && crate::bits::ext_index(bits, idx)
            },
            None => false,
        }
    }

    /// The loaded sub-tiles with their grid coordinates, in slot order.
    pub fn iter_present_sub_tiles(&self) -> (r: Vec<(i64, i64, &GenericTile)>)
        requires
            0 <= self.exp() < 63,
            self.slots().len() <= i64::MAX,
        ensures
            r@.map_values(|e: (i64, i64, &GenericTile)| (e.0 as int, e.1 as int, *e.2))
                == self.present_sub_tiles(),
    {
        let ghost idxs = Seq::new(self.slots().len(), |i: int| i);
        let ghost f = |i: int|
            match self.slots()[i] {
                Some(t) => Some((i % pow2(self.exp() as nat) as int, i / pow2(self.exp() as nat) as int, t)),
                None => None,
            };
        let mut out: Vec<(i64, i64, &GenericTile)> = Vec::new();
        let mut i: usize = 0;
        while i < self.sub_tiles.len()
            invariant
                0 <= self.exp() < 63,
                self.slots().len() <= i64::MAX,
                i <= self.sub_tiles@.len(),
                idxs == Seq::new(self.slots().len(), |i: int| i),
                f == (|i: int|
                    match self.slots()[i] {
                        Some(t) => Some((i % pow2(self.exp() as nat) as int, i / pow2(self.exp() as nat) as int, t)),
                        None => None,
                    }),
                out@.map_values(|e: (i64, i64, &GenericTile)| (e.0 as int, e.1 as int, *e.2))
                    == idxs.take(i as int).filter_map(f),
            decreases self.sub_tiles.len() - i,
        {
            proof {
                idxs.lemma_filter_map_take_succ(f, i as int);
            }
            match &self.sub_tiles[i] {
                Some(b) => {
                    let (x, y) = index_to_xy(i, self.width_exp);
                    out.push((x, y, &**b));
                    proof {
                        assert(out@.map_values(|e: (i64, i64, &GenericTile)| (e.0 as int, e.1 as int, *e.2))
                            =~= idxs.take(i + 1).filter_map(f));
                    }
                },
                None => {
                    proof {
                        assert(idxs.take(i + 1).filter_map(f) =~= idxs.take(i as int).filter_map(f));
                    }
                },
            }
            i += 1;
        }
        proof {
            assert(idxs.take(i as int) =~= idxs);
        }
        out
    }
}


/// Cell `(sx, sy)` of a `2^w`-wide grid with `len` slots: its row-major index stays within
/// 64-bit signed arithmetic and addresses a slot.
pub open spec fn cell_in(len: nat, sx: int, sy: int, w: int) -> bool {
    &&& 0 <= w < 63
    &&& 0 <= sx
    &&& 0 <= sy
    &&& sx + sy * pow2(w as nat) <= i64::MAX
    &&& sx + sy * pow2(w as nat) < len
}

/// The first `k` cells, row-major, of the `side x side` block at `(xmin, ymin)` of a grid
/// of slots: each is a slot, and `check_ready` is defined on every loaded one.
pub closed spec fn cells_ok(
    slots: Seq<Option<Box<GenericTile>>>,
    w: int,
    xmin: int,
    ymin: int,
    side: int,
    sres: int,
    k: nat,
) -> bool
    decreases slots, k,
{
    if k == 0 || side <= 0 {
        true
    } else {
        let c = (k - 1) as nat;
        let sx = xmin + (c as int) % side;
        let sy = ymin + (c as int) / side;
        &&& cells_ok(slots, w, xmin, ymin, side, sres, c)
        &&& cell_in(slots.len(), sx, sy, w)
        &&& match slots[sx + sy * pow2(w as nat)] {
            Some(b) => (*b).ready_ok(0, 0, 0, sres),
            None => true,
        }
    }
}

/// What `check_ready` reports for the first `k` cells, row-major, of the `side x side`
/// block at `(xmin, ymin)` of a grid of slots.
pub closed spec fn cells_missing(
    slots: Seq<Option<Box<GenericTile>>>,
    bitmap: Option<BitMap2D>,
    w: i16,
    xmin: int,
    ymin: int,
    side: int,
    sres: int,
    k: nat,
) -> Seq<MissingSubTile>
    decreases slots, k,
{
    if k == 0 || side <= 0 {
        Seq::empty()
    } else {
        let c = (k - 1) as nat;
        let sx = xmin + (c as int) % side;
        let sy = ymin + (c as int) / side;
        let idx = sx + sy * pow2(w as nat);
        cells_missing(slots, bitmap, w, xmin, ymin, side, sres, c) + if 0 <= idx < slots.len() {
            match slots[idx] {
                Some(b) => (*b).missing(0, 0, 0, sres),
                None => if occupied(bitmap, idx) {
                    seq![MissingSubTile { x: sx as i64, y: sy as i64, parent_width_exp: w }]
                } else {
                    Seq::empty()
                },
            }
        } else {
            Seq::empty()
        }
    }
}

impl GenericTile {
    /// The inputs on which `check_ready` is defined: non-negative coordinates and zoom, a
    /// zoom plus resolution within `i16`, and, on every tile that the query reaches, grid
    /// coordinates that stay within 64-bit signed arithmetic and address a slot.
    pub closed spec fn ready_ok(self, x: int, y: int, z: int, res: int) -> bool
        decreases self, 0nat,
    {
        let w = self.width_exp as int;
        &&& 0 <= x
        &&& 0 <= y
        &&& 0 <= z
        &&& i16::MIN <= z + res <= i16::MAX
        &&& (z + res > w && !self.is_leaf) ==> if z <= w {
            let side = pow2((w - z) as nat) as int;
            &&& w < 63
            &&& (x + 1) * side <= i64::MAX
            &&& (y + 1) * side <= i64::MAX
            &&& cells_ok(self.sub_tiles@, w, x * side, y * side, side, z + res - w, (side * side) as nat)
        } else {
            let cz = (z - w) as nat;
            let p = pow2(cz) as int;
            &&& 0 <= w
            &&& cz < 64
            &&& cell_in(self.sub_tiles@.len(), x / p, y / p, w)
            &&& match self.sub_tiles@[x / p + (y / p) * pow2(w as nat)] {
                Some(b) => (*b).ready_ok(x % p, y % p, cz as int, res),
                None => true,
            }
        }
    }

    /// The sub-tiles that a query of tile `(x, y)` at zoom `z` (relative to this tile) and
    /// resolution `2^res` needs, that the mipmap marks as holding data, and that are not
    /// loaded: found by descending the loaded tiles the query covers, in row-major order.
    pub closed spec fn missing(self, x: int, y: int, z: int, res: int) -> Seq<MissingSubTile>
        decreases self, 0nat,
    {
        let w = self.width_exp as int;
        if z + res <= w || self.is_leaf {
            Seq::empty()
        } else if z <= w {
            let side = pow2((w - z) as nat) as int;
            cells_missing(
                self.sub_tiles@,
                self.bitmap,
                self.width_exp,
                x * side,
                y * side,
                side,
                z + res - w,
                (side * side) as nat,
            )
        } else {
            let cz = (z - w) as nat;
            let p = pow2(cz) as int;
            let tx = x / p;
            let ty = y / p;
            let idx = tx + ty * pow2(w as nat);
            if 0 <= idx < self.sub_tiles@.len() {
                match self.sub_tiles@[idx] {
                    Some(b) => (*b).missing(x % p, y % p, cz as int, res),
                    None => if occupied(self.bitmap, idx) {
                        seq![MissingSubTile { x: tx as i64, y: ty as i64, parent_width_exp: self.width_exp }]
                    } else {
                        Seq::empty()
                    },
                }
            } else {
                Seq::empty()
            }
        }
    }
}

/// What `cells_ok` says of one cell below its count.
proof fn lemma_cells_ok_at(
    slots: Seq<Option<Box<GenericTile>>>,
    w: int,
    xmin: int,
    ymin: int,
    side: int,
    sres: int,
    k: nat,
    c: nat,
)
    requires
        cells_ok(slots, w, xmin, ymin, side, sres, k),
        c < k,
        side > 0,
    ensures
        cell_in(slots.len(), xmin + (c as int) % side, ymin + (c as int) / side, w),
        match slots[(xmin + (c as int) % side) + (ymin + (c as int) / side) * pow2(w as nat)] {
            Some(b) => (*b).ready_ok(0, 0, 0, sres),
            None => true,
        },
    decreases k,
{
    if c + 1 < k {
        lemma_cells_ok_at(slots, w, xmin, ymin, side, sres, (k - 1) as nat, c);
    }
}

impl GenericTile {
    /// The sub-tiles that the query needs, that the mipmap marks as holding data, and that
    /// are not loaded.
    pub fn check_ready(&self, x: i64, y: i64, z: i16, resolution_exp: i16) -> (r: Vec<MissingSubTile>)
        requires
            self.ready_ok(x as int, y as int, z as int, resolution_exp as int),
        ensures
            r@ == self.missing(x as int, y as int, z as int, resolution_exp as int),
        decreases self,
    {
        if z + resolution_exp <= self.width_exp {
            return Vec::new();
        }
        if z <= self.width_exp {
            if self.is_leaf {
                return Vec::new();
            }
            let ghost w = self.width_exp as int;
            let mut missing: Vec<MissingSubTile> = Vec::new();
            let subtile_resolution_exp = z + resolution_exp - self.width_exp;
            let span_exp = self.width_exp - z;
            let ghost side = pow2(span_exp as nat) as int;
            proof {
                vstd::arithmetic::power2::lemma_pow2_pos(span_exp as nat);
                assert(x * side <= (x + 1) * side) by (nonlinear_arith)
                    requires side > 0;
                assert(y * side <= (y + 1) * side) by (nonlinear_arith)
                    requires side > 0;
                assert(0 <= x * side) by (nonlinear_arith)
                    requires side > 0, x >= 0;
                assert(0 <= y * side) by (nonlinear_arith)
                    requires side > 0, y >= 0;
                assert(x + 1 <= (x + 1) * side) by (nonlinear_arith)
                    requires side > 0, x >= 0;
                assert(y + 1 <= (y + 1) * side) by (nonlinear_arith)
                    requires side > 0, y >= 0;
                vstd::bits::lemma_u64_shl_is_mul(x as u64, span_exp as u64);
                vstd::bits::lemma_u64_shl_is_mul((x + 1) as u64, span_exp as u64);
                vstd::bits::lemma_u64_shl_is_mul(y as u64, span_exp as u64);
                vstd::bits::lemma_u64_shl_is_mul((y + 1) as u64, span_exp as u64);
            }
            let x_min = ((x as u64) << (span_exp as u64)) as i64;
            let x_max = (((x + 1) as u64) << (span_exp as u64)) as i64;
            let y_min = ((y as u64) << (span_exp as u64)) as i64;
            let y_max = (((y + 1) as u64) << (span_exp as u64)) as i64;
            proof {
                assert(x_max - x_min == side) by (nonlinear_arith)
                    requires x_min == x * side, x_max == (x + 1) * side;
                assert(y_max - y_min == side) by (nonlinear_arith)
                    requires y_min == y * side, y_max == (y + 1) * side;
            }
            let ghost slots = self.sub_tiles@;
            let ghost sres = subtile_resolution_exp as int;
            let mut sy = y_min;
            proof {
                assert(cells_missing(slots, self.bitmap, self.width_exp, x_min as int, y_min as int, side, sres, 0)
                    =~= Seq::empty());
                assert((sy - y_min) * side == 0);
                assert(missing@ == cells_missing(slots, self.bitmap, self.width_exp, x_min as int, y_min as int, side, sres, ((sy - y_min) * side) as nat));
            }
            while sy < y_max
                invariant
                    self.ready_ok(x as int, y as int, z as int, resolution_exp as int),
                    slots == self.sub_tiles@,
                    w == self.width_exp,
                    0 <= w < 63,
                    !self.is_leaf,
                    side > 0,
                    sres == subtile_resolution_exp,
                    x_min == x * side,
                    y_min == y * side,
                    x_max - x_min == side,
                    y_max - y_min == side,
                    0 <= x_min,
                    0 <= y_min,
                    y_min <= sy <= y_max,
                    cells_ok(slots, w, x_min as int, y_min as int, side, sres, (side * side) as nat),
                    missing@ == cells_missing(
                        slots,
                        self.bitmap,
                        self.width_exp,
                        x_min as int,
                        y_min as int,
                        side,
                        sres,
                        ((sy - y_min) * side) as nat,
                    ),
                decreases y_max - sy,
            {
                let mut sx = x_min;
                proof {
                    assert((sy - y_min + 1) * side <= side * side) by (nonlinear_arith)
                        requires sy - y_min < side, side > 0;
                    assert((sy - y_min + 1) * side == (sy - y_min) * side + side) by (nonlinear_arith);
                    assert(0 <= (sy - y_min) * side) by (nonlinear_arith)
                        requires sy - y_min >= 0, side > 0;
                }
                while sx < x_max
                    invariant
                        self.ready_ok(x as int, y as int, z as int, resolution_exp as int),
                        slots == self.sub_tiles@,
                        w == self.width_exp,
                        0 <= w < 63,
                        !self.is_leaf,
                        side > 0,
                        sres == subtile_resolution_exp,
                        x_min == x * side,
                        y_min == y * side,
                        x_max - x_min == side,
                        y_max - y_min == side,
                        0 <= x_min,
                        0 <= y_min,
                        y_min <= sy < y_max,
                        x_min <= sx <= x_max,
                        (sy - y_min + 1) * side <= side * side,
                        (sy - y_min + 1) * side == (sy - y_min) * side + side,
                        0 <= (sy - y_min) * side,
                        cells_ok(slots, w, x_min as int, y_min as int, side, sres, (side * side) as nat),
                        missing@ == cells_missing(
                            slots,
                            self.bitmap,
                            self.width_exp,
                            x_min as int,
                            y_min as int,
                            side,
                            sres,
                            ((sy - y_min) * side + (sx - x_min)) as nat,
                        ),
                    decreases x_max - sx,
                {
                    let ghost c = ((sy - y_min) * side + (sx - x_min)) as nat;
                    proof {
                        vstd::arithmetic::div_mod::lemma_fundamental_div_mod_converse(
                            c as int,
                            side,
                            (sy - y_min) as int,
                            (sx - x_min) as int,
                        );
                        lemma_cells_ok_at(slots, w, x_min as int, y_min as int, side, sres, (side * side) as nat, c);
                        vstd::arithmetic::power2::lemma_pow2_strictly_increases(w as nat, 63);
                        vstd::arithmetic::power2::lemma2_to64();
                        vstd::arithmetic::power2::lemma2_to64_rest();
                    }
                    let idx = xy_to_index(sx, sy, self.width_exp);
                    proof {
                        assert(sx == x_min + (c as int) % side);
                        assert(sy == y_min + (c as int) / side);
                        assert(shl1_i64(self.width_exp as nat) == pow2(w as nat));
                        assert(self.sub_tiles@.len() == self.sub_tiles.len());
                        assert(idx == sx + sy * pow2(w as nat));
                    }
                    if let Some(sub_tile) = &self.sub_tiles[idx] {
                        proof {
                            assert(slots[idx as int] == Some(*sub_tile));
                        }
                        let mut v = sub_tile.check_ready(0, 0, 0, subtile_resolution_exp);
                        missing.append(&mut v);
                    } else if self.mipmap_has_subtile(idx) {
                        missing.push(MissingSubTile { x: sx, y: sy, parent_width_exp: self.width_exp });
                    }
                    sx += 1;
                }
                sy += 1;
            }
            proof {
                assert((sy - y_min) * side == side * side);
            }
            return missing;
        }
        if self.is_leaf {
            return Vec::new();
        }
        let child_z = z - self.width_exp;
        let ghost p = pow2(child_z as nat) as int;
        proof {
            vstd::arithmetic::power2::lemma_pow2_pos(child_z as nat);
            vstd::bits::lemma_u64_shr_is_div(x as u64, child_z as u64);
            vstd::bits::lemma_u64_shr_is_div(y as u64, child_z as u64);
        }
        let tile_x = ((x as u64) >> (child_z as u64)) as i64;
        let tile_y = ((y as u64) >> (child_z as u64)) as i64;
        proof {
            vstd::arithmetic::div_mod::lemma_fundamental_div_mod(x as int, p);
            vstd::arithmetic::div_mod::lemma_fundamental_div_mod(y as int, p);
            vstd::arithmetic::div_mod::lemma_mod_pos_bound(x as int, p);
            vstd::arithmetic::div_mod::lemma_mod_pos_bound(y as int, p);
            let qx = (x as int) / p;
            let qy = (y as int) / p;
            assert(qx * p <= x && qx * p == p * qx) by (nonlinear_arith)
                requires
                    x == p * qx + (x as int) % p,
                    0 <= (x as int) % p,
            ;
            assert(qy * p <= y && qy * p == p * qy) by (nonlinear_arith)
                requires
                    y == p * qy + (y as int) % p,
                    0 <= (y as int) % p,
            ;
            vstd::bits::lemma_u64_shl_is_mul(tile_x as u64, child_z as u64);
            vstd::bits::lemma_u64_shl_is_mul(tile_y as u64, child_z as u64);
        }
        let child_x = x - (((tile_x as u64) << (child_z as u64)) as i64);
        let child_y = y - (((tile_y as u64) << (child_z as u64)) as i64);
        proof {
            vstd::arithmetic::power2::lemma_pow2_strictly_increases(self.width_exp as nat, 63);
            vstd::arithmetic::power2::lemma2_to64();
            vstd::arithmetic::power2::lemma2_to64_rest();
        }
        let idx = xy_to_index(tile_x, tile_y, self.width_exp);
        proof {
            assert(tile_x == (x as int) / p);
            assert(tile_y == (y as int) / p);
            assert(child_x == (x as int) % p);
            assert(child_y == (y as int) % p);
            assert(shl1_i64(self.width_exp as nat) == pow2(self.width_exp as nat));
            assert(self.sub_tiles@.len() == self.sub_tiles.len());
            assert(idx == (x as int) / p + ((y as int) / p) * pow2(self.width_exp as nat));
        }
        if let Some(sub_tile) = &self.sub_tiles[idx] {
            proof {
                assert(self.sub_tiles@[idx as int] == Some(*sub_tile));
            }
            return sub_tile.check_ready(child_x, child_y, child_z, resolution_exp);
        }
        if self.mipmap_has_subtile(idx) {
            let mut out: Vec<MissingSubTile> = Vec::new();
            out.push(MissingSubTile { x: tile_x, y: tile_y, parent_width_exp: self.width_exp });
            return out;
        }
        Vec::new()
    }
}


/// The pixels that cells `k..n` of the `side`-wide window at `(x0, y0)` of a `2^w`-wide grid
/// of slots yield at `2^sres` pixels per cell: each loaded sub-tile's pixels, placed
/// relative to the window's corner at `(sx, sy)`.
pub open spec fn sub_pixels_from(
    slots: Seq<Option<Box<GenericTile>>>,
    w: nat,
    sx: int,
    sy: int,
    x0: int,
    y0: int,
    side: int,
    sres: int,
    k: int,
    n: int,
) -> Seq<(int, int)>
    decreases slots, n - k,
{
    if k >= n || side <= 0 {
        Seq::empty()
    } else {
        let c = cell_of(x0, y0, side, k);
        let idx = c.0 + c.1 * pow2(w);
        let p = pow2(sres as nat) as int;
        (if 0 <= idx < slots.len() {
            match slots[idx] {
                Some(b) => (*b).pixels(sx + (c.0 - x0) * p, sy + (c.1 - y0) * p, 0, 0, 0, sres),
                None => Seq::empty(),
            }
        } else {
            Seq::empty()
        }) + sub_pixels_from(slots, w, sx, sy, x0, y0, side, sres, k + 1, n)
    }
}

/// Cells `k..n` of the `side`-wide window at `(x0, y0)` of a grid of slots: the pixels of
/// every loaded sub-tile there can be listed.
pub open spec fn sub_ok_from(
    slots: Seq<Option<Box<GenericTile>>>,
    w: nat,
    sx: int,
    sy: int,
    x0: int,
    y0: int,
    side: int,
    sres: int,
    k: int,
    n: int,
) -> bool
    decreases slots, n - k,
{
    if k >= n || side <= 0 {
        true
    } else {
        let c = cell_of(x0, y0, side, k);
        let idx = c.0 + c.1 * pow2(w);
        let p = pow2(sres as nat) as int;
        &&& (0 <= idx < slots.len() ==> match slots[idx] {
            Some(b) => (*b).pixels_ok(sx + (c.0 - x0) * p, sy + (c.1 - y0) * p, 0, 0, 0, sres),
            None => true,
        })
        &&& sub_ok_from(slots, w, sx, sy, x0, y0, side, sres, k + 1, n)
    }
}

/// The depth of a tree of tiles: one more than the deepest loaded sub-tile.
pub open spec fn tile_height(t: GenericTile) -> nat
    decreases t, 0nat,
{
    1 + slots_height(t.slot_raws(), t.slot_raws().len())
}

/// The greatest depth among the first `k` slots.
pub open spec fn slots_height(slots: Seq<Option<Box<GenericTile>>>, k: nat) -> nat
    decreases slots, k,
{
    if k == 0 || k > slots.len() {
        0
    } else {
        let prev = slots_height(slots, (k - 1) as nat);
        let here = match slots[k - 1] {
            Some(b) => tile_height(*b),
            None => 0,
        };
        if prev >= here {
            prev
        } else {
            here
        }
    }
}

/// A loaded slot is no deeper than the slots together.
pub proof fn lemma_slot_height(slots: Seq<Option<Box<GenericTile>>>, k: nat, i: int)
    requires
        0 <= i < k <= slots.len(),
    ensures
        slots[i] matches Some(b) ==> tile_height(*b) <= slots_height(slots, k),
    decreases k,
{
    if i < k - 1 {
        lemma_slot_height(slots, (k - 1) as nat, i);
    }
}

impl GenericTile {
    /// Build the full mipmap of a leaf from its finest level: the level itself, then each
    /// 2x2 OR reduction down to 1x1.
    pub fn build_leaf_mipmap_from_level0(width_exp: i16, level0: BitVec) -> (r: Vec<BitVec>)
        requires
            2 * (width_exp as u8) < usize::BITS,
            bits_of(level0).len() == pow2(2 * (width_exp as u8) as nat),
        ensures
            r@.map_values(|b: BitVec| bits_of(b)) == pyramid(bits_of(level0), (width_exp as u8) as nat),
    {
        let mut bm = BitMap2D::from_bitvec(#[verifier::truncate] (width_exp as u8), level0);
        bm.build_lods();
        let ghost v = bm.levels_view();
        let r = bm.into_all_levels();
        proof {
            let e = (width_exp as u8) as nat;
            assert(r@.map_values(|b: BitVec| bits_of(b)) =~= pyramid(bits_of(level0), e)) by {
                assert forall|k: int| 0 <= k <= e implies #[trigger] v[k] == pyramid_level(bits_of(level0), e, k as nat) by {
                    if k > 0 {
                        assert(v[k] == bm.lods_view()[k - 1]);
                    }
                }
            }
        }
        r
    }

    /// The slots as stored.
    pub closed spec fn slot_raws(self) -> Seq<Option<Box<GenericTile>>> {
        self.sub_tiles@
    }

    /// The pixels of tile `(x, y)` at zoom `z` (relative to this tile) at `2^res` pixels per
    /// side, each placed relative to the tile's corner at `(sx, sy)`, in the order they are
    /// listed: a mipmap level when it is fine enough; otherwise, for a leaf, each set base
    /// cell as a block of pixels, and for an inner tile each loaded sub-tile's pixels, cell
    /// by cell, row-major; below this tile's grid, the pixels of the sub-tile that holds
    /// the tile.
    pub closed spec fn pixels(self, sx: int, sy: int, x: int, y: int, z: int, res: int) -> Seq<(int, int)>
        decreases self, 0nat,
    {
        let w = self.width_exp as int;
        if z + res <= w {
            match self.bitmap {
                Some(bm) => {
                    let s = pow2(res as nat) as int;
                    window_from(bm.levels_view()[w - res - z], (z + res) as nat, sx, sy, x * s, y * s, s, 0, s * s)
                },
                None => Seq::empty(),
            }
        } else if z <= w {
            let side = pow2((w - z) as nat) as int;
            let sres = z + res - w;
            if self.is_leaf {
                match self.bitmap {
                    Some(bm) => overscan_from(
                        bm.base(),
                        w as nat,
                        sx,
                        sy,
                        x * side,
                        y * side,
                        side,
                        sres as nat,
                        0,
                        side * side,
                    ),
                    None => Seq::empty(),
                }
            } else {
                sub_pixels_from(self.sub_tiles@, w as nat, sx, sy, x * side, y * side, side, sres, 0, side * side)
            }
        } else if self.is_leaf {
            Seq::empty()
        } else {
            let cz = (z - w) as nat;
            let p = pow2(cz) as int;
            let idx = x / p + (y / p) * pow2(w as nat);
            if 0 <= idx < self.sub_tiles@.len() {
                match self.sub_tiles@[idx] {
                    Some(b) => (*b).pixels(sx, sy, x % p, y % p, cz as int, res),
                    None => Seq::empty(),
                }
            } else {
                Seq::empty()
            }
        }
    }

    /// The inputs on which the pixels can be listed: non-negative coordinates and zoom, a
    /// start of `(0, 0)` below the top zoom, a resolution of at least one pixel, the needed
    /// mipmap level present and of the right size, no query below a leaf's grid, and cells,
    /// slots and placed pixels that stay within their buffers and within 64-bit signed
    /// arithmetic, on every tile the query reaches.
    pub closed spec fn pixels_ok(self, sx: int, sy: int, x: int, y: int, z: int, res: int) -> bool
        decreases self, 0nat,
    {
        let w = self.width_exp as int;
        &&& 0 <= x
        &&& 0 <= y
        &&& 0 <= z
        &&& 0 <= res
        &&& (z > 0 ==> sx == 0 && sy == 0)
        &&& i64::MIN <= sx <= i64::MAX
        &&& i64::MIN <= sy <= i64::MAX
        &&& z + res <= i16::MAX
        &&& if z + res <= w {
            let s = pow2(res as nat) as int;
            &&& 2 * (z + res) < usize::BITS
            &&& (x + 1) * s <= i64::MAX
            &&& (y + 1) * s <= i64::MAX
            &&& self.bitmap matches Some(bm) && w - res - z < bm.levels_view().len()
                && bm.levels_view()[w - res - z].len() == pow2(2 * (z + res) as nat) && window_fits(
                bm.levels_view()[w - res - z].len(),
                (z + res) as nat,
                sx,
                sy,
                x * s,
                y * s,
                s,
                s,
            )
        } else if z <= w {
            let side = pow2((w - z) as nat) as int;
            let sres = z + res - w;
            &&& (x + 1) * side <= i64::MAX
            &&& (y + 1) * side <= i64::MAX
            &&& blocks_fit(sx, sy, side, side, sres as nat)
            &&& if self.is_leaf {
                self.bitmap matches Some(bm) && window_fits(bm.base().len(), w as nat, 0, 0, x * side, y * side, side, side)
            } else {
                &&& window_fits(self.sub_tiles@.len(), w as nat, 0, 0, x * side, y * side, side, side)
                &&& sub_ok_from(self.sub_tiles@, w as nat, sx, sy, x * side, y * side, side, sres, 0, side * side)
            }
        } else {
            let cz = (z - w) as nat;
            let p = pow2(cz) as int;
            &&& !self.is_leaf
            &&& 0 <= w
            &&& cz < 64
            &&& cell_in(self.sub_tiles@.len(), x / p, y / p, w)
            &&& match self.sub_tiles@[x / p + (y / p) * pow2(w as nat)] {
                Some(b) => (*b).pixels_ok(sx, sy, x % p, y % p, cz as int, res),
                None => true,
            }
        }
    }
}


impl GenericTile {
    /// Iterate pixels over the bitmap tile at a given resolution.
    ///
    /// If a subtile slot is `None`, it is treated as absent and skipped.
    /// Call [`GenericTile::check_ready`] before iterating when full-precision
    /// results are required from partially loaded trees.
    pub fn iter_pixels(
        &self,
        start_x: i64,
        start_y: i64,
        x: i64,
        y: i64,
        z: i16,
        resolution_exp: i16,
    ) -> (r: TilePixelIter<'_>)
        requires
            self.pixels_ok(start_x as int, start_y as int, x as int, y as int, z as int, resolution_exp as int),
        ensures
            r.wf(),
            r.remaining() == self.pixels(start_x as int, start_y as int, x as int, y as int, z as int, resolution_exp as int),
            r.depth() <= 2 * tile_height(*self),
        decreases self,
    {
        if z + resolution_exp <= self.width_exp {
            let buffer_exp = z + resolution_exp;
            let level_offset = (self.width_exp - resolution_exp - z) as usize;
            let bm = self.bitmap.as_ref().unwrap();
            let buffer = bm.level_at_offset(level_offset).unwrap();
            proof {
                assert(resolution_exp == buffer_exp - z);
            }
            TilePixelIter::MipmapIter(MipmapIter::new(buffer, start_x, start_y, x, y, z, buffer_exp))
        } else if z <= self.width_exp {
            let subtile_resolution_exp = z + resolution_exp - self.width_exp;
            if self.is_leaf {
                let bm = self.bitmap.as_ref().unwrap();
                TilePixelIter::OverscanIter(
                    OverscanIter::new(
                        bm.as_bitvec(),
                        start_x,
                        start_y,
                        x,
                        y,
                        z,
                        self.width_exp,
                        subtile_resolution_exp,
                    ),
                )
            } else {
                TilePixelIter::SubTileIter(
                    SubtileIter::new(
                        self.sub_tiles.as_slice(),
                        start_x,
                        start_y,
                        x,
                        y,
                        z,
                        self.width_exp,
                        subtile_resolution_exp,
                    ),
                )
            }
        } else {
            let z = z - self.width_exp;
            let ghost p = pow2(z as nat) as int;
            proof {
                vstd::arithmetic::power2::lemma_pow2_pos(z as nat);
                vstd::bits::lemma_u64_shr_is_div(x as u64, z as u64);
                vstd::bits::lemma_u64_shr_is_div(y as u64, z as u64);
            }
            let tile_x = ((x as u64) >> (z as u64)) as i64;
            let tile_y = ((y as u64) >> (z as u64)) as i64;
            proof {
                vstd::arithmetic::div_mod::lemma_fundamental_div_mod(x as int, p);
                vstd::arithmetic::div_mod::lemma_fundamental_div_mod(y as int, p);
                vstd::arithmetic::div_mod::lemma_mod_pos_bound(x as int, p);
                vstd::arithmetic::div_mod::lemma_mod_pos_bound(y as int, p);
                let qx = (x as int) / p;
                let qy = (y as int) / p;
                assert(qx * p <= x && qx * p == p * qx) by (nonlinear_arith)
                    requires
                        x == p * qx + (x as int) % p,
                        0 <= (x as int) % p,
                ;
                assert(qy * p <= y && qy * p == p * qy) by (nonlinear_arith)
                    requires
                        y == p * qy + (y as int) % p,
                        0 <= (y as int) % p,
                ;
                vstd::bits::lemma_u64_shl_is_mul(tile_x as u64, z as u64);
                vstd::bits::lemma_u64_shl_is_mul(tile_y as u64, z as u64);
            }
            let x = x - (((tile_x as u64) << (z as u64)) as i64);
            let y = y - (((tile_y as u64) << (z as u64)) as i64);
            proof {
                vstd::arithmetic::power2::lemma_pow2_strictly_increases(self.width_exp as nat, 63);
                vstd::arithmetic::power2::lemma2_to64();
                vstd::arithmetic::power2::lemma2_to64_rest();
                assert(shl1_i64(self.width_exp as nat) == pow2(self.width_exp as nat));
                assert(self.sub_tiles@.len() == self.sub_tiles.len());
            }
            if self.is_leaf {
                proof {
                    assert(false);
                }
                TilePixelIter::Empty
            } else {
                let idx = xy_to_index(tile_x, tile_y, self.width_exp);
                if let Some(sub_tile) = &self.sub_tiles[idx] {
                    proof {
                        assert(self.sub_tiles@[idx as int] == Some(*sub_tile));
                        crate::tile::lemma_slot_height(self.sub_tiles@, self.sub_tiles@.len(), idx as int);
                    }
                    sub_tile.iter_pixels(start_x, start_y, x, y, z, resolution_exp)
                } else {
                    TilePixelIter::Empty
                }
            }
        }
    }
}

/// The pixels of tile `(x, y)` at zoom `z` (relative to the given tile) at `2^resolution_exp`
/// pixels per side, relative to the tile's corner.
pub fn get_tile_pixels(tile: &GenericTile, x: i64, y: i64, z: i16, resolution_exp: i16) -> (r: Vec<(i64, i64)>)
    requires
        tile.pixels_ok(0, 0, x as int, y as int, z as int, resolution_exp as int),
    ensures
        r@.map_values(|p: (i64, i64)| (p.0 as int, p.1 as int)) == tile.pixels(
            0,
            0,
            x as int,
            y as int,
            z as int,
            resolution_exp as int,
        ),
{
    let mut iter = tile.iter_pixels(0, 0, x, y, z, resolution_exp);
    let ghost all = iter.remaining();
    let mut out: Vec<(i64, i64)> = Vec::new();
    loop
        invariant
            iter.wf(),
            all == tile.pixels(0, 0, x as int, y as int, z as int, resolution_exp as int),
            out@.map_values(|p: (i64, i64)| (p.0 as int, p.1 as int)) + iter.remaining() == all,
        ensures
            out@.map_values(|p: (i64, i64)| (p.0 as int, p.1 as int)) == all,
        decreases iter.remaining().len(),
    {
        let ghost before = out@.map_values(|p: (i64, i64)| (p.0 as int, p.1 as int));
        let ghost rem = iter.remaining();
        match iter.next() {
            Some(p) => {
                out.push(p);
                proof {
                    assert(out@.map_values(|p: (i64, i64)| (p.0 as int, p.1 as int)) =~= before.push(rem[0]));
                    assert(before.push(rem[0]) + rem.drop_first() =~= before + rem);
                }
            },
            None => {
                proof {
                    assert(before + rem =~= before);
                }
                break;
            },
        }
    }
    out
}


/// A `2^w`-wide grid enlarged `2^r` times: each pixel becomes a `2^r x 2^r` block.
pub open spec fn upsample(base: Seq<bool>, w: nat, r: nat) -> Seq<bool> {
    let side = pow2(w + r) as int;
    let rep = pow2(r) as int;
    Seq::new((side * side) as nat, |i: int| base[(i % side) / rep + ((i / side) / rep) * pow2(w)])
}

/// Which `rep x rep` block of a grid `src_side * rep` wide a bit lies in, and that it is the
/// block of `(src_x, src_y)` exactly when the bit lies within that block.
proof fn lemma_in_block_iff(i: int, src_side: int, rep: int, src_x: int, src_y: int)
    requires
        rep > 0,
        src_side > 0,
        0 <= i < (src_side * rep) * (src_side * rep),
        0 <= src_x < src_side,
        0 <= src_y < src_side,
    ensures
        0 <= (i % (src_side * rep)) / rep < src_side,
        0 <= (i / (src_side * rep)) / rep < src_side,
        in_block(i, src_side * rep, src_x * rep, src_y * rep, rep) == ((i % (src_side * rep)) / rep + ((i / (
        src_side * rep)) / rep) * src_side == src_x + src_y * src_side),
{
    let side = src_side * rep;
    assert(src_side * rep > 0) by (nonlinear_arith)
        requires
            src_side > 0,
            rep > 0,
    ;
    vstd::arithmetic::div_mod::lemma_mod_pos_bound(i, side);
    vstd::arithmetic::div_mod::lemma_div_pos_is_pos(i, side);
    let ox = i % side;
    let oy = i / side;
    vstd::arithmetic::div_mod::lemma_fundamental_div_mod(i, side);
    assert(oy < side) by (nonlinear_arith)
        requires
            i == side * oy + ox,
            0 <= ox,
            i < side * side,
            side > 0,
    ;
    vstd::arithmetic::div_mod::lemma_fundamental_div_mod(ox, rep);
    vstd::arithmetic::div_mod::lemma_fundamental_div_mod(oy, rep);
    vstd::arithmetic::div_mod::lemma_mod_pos_bound(ox, rep);
    vstd::arithmetic::div_mod::lemma_mod_pos_bound(oy, rep);
    vstd::arithmetic::div_mod::lemma_div_pos_is_pos(ox, rep);
    vstd::arithmetic::div_mod::lemma_div_pos_is_pos(oy, rep);
    let qx = ox / rep;
    let qy = oy / rep;
    assert(qx < src_side && qy < src_side) by (nonlinear_arith)
        requires
            ox == rep * qx + ox % rep,
            oy == rep * qy + oy % rep,
            0 <= ox % rep,
            0 <= oy % rep,
            ox < src_side * rep,
            oy < src_side * rep,
            rep > 0,
    ;
    if in_block(i, side, src_x * rep, src_y * rep, rep) {
        vstd::arithmetic::div_mod::lemma_fundamental_div_mod_converse(ox, rep, src_x, ox - src_x * rep);
        vstd::arithmetic::div_mod::lemma_fundamental_div_mod_converse(oy, rep, src_y, oy - src_y * rep);
    }
    if qx + qy * src_side == src_x + src_y * src_side {
        vstd::arithmetic::div_mod::lemma_fundamental_div_mod_converse(qx + qy * src_side, src_side, qy, qx);
        vstd::arithmetic::div_mod::lemma_fundamental_div_mod_converse(src_x + src_y * src_side, src_side, src_y, src_x);
        assert(src_x * rep <= ox < src_x * rep + rep && src_y * rep <= oy < src_y * rep + rep) by (nonlinear_arith)
            requires
                ox == rep * qx + ox % rep,
                oy == rep * qy + oy % rep,
                0 <= ox % rep < rep,
                0 <= oy % rep < rep,
                qx == src_x,
                qy == src_y,
        ;
    }
}

impl GenericTile {
    /// Build a mipmap for a leaf tile at a resolution finer than its native data.
    /// Each native pixel is expanded to a `2^overscan x 2^overscan` block.
    fn oversample_leaf_mipmap(&self, resolution_exp: i16) -> (r: Option<Vec<BitVec>>)
        requires
            0 <= self.width_exp < resolution_exp,
            2 * resolution_exp < usize::BITS,
            pow2(2 * resolution_exp as nat) + usize::BITS <= max_bits(),
            self.bitmap matches Some(bm) ==> pow2(2 * self.width_exp as nat) <= bm.base().len(),
        ensures
            match r {
                None => self.bitmap is None || !any_set(self.bitmap->0.base()),
                Some(v) => self.bitmap matches Some(bm) && any_set(bm.base()) && bit_seqs(v@) == Seq::new(
                    (resolution_exp - self.width_exp) as nat,
                    |k: int| upsample(bm.base(), self.width_exp as nat, (resolution_exp - self.width_exp - k) as nat),
                ) + bm.levels_view(),
            },
    {
        let bm = match &self.bitmap {
            Some(bm) => bm,
            None => return None,
        };
        let src_level0 = bm.as_bitvec();
        if ext_not_any(src_level0) {
            proof {
                if any_set(bm.base()) {
                    let i = choose|i: int| 0 <= i < bm.base().len() && bm.base()[i];
                    assert(!bits_of(*src_level0)[i]);
                }
            }
            return None;
        }
        let ghost base = bm.base();
        let ghost w = self.width_exp as nat;
        let ghost res = resolution_exp as nat;
        let overscan = (resolution_exp - self.width_exp) as usize;
        proof {
            vstd::arithmetic::power2::lemma_pow2_pos(w);
            vstd::bits::lemma_usize_pow2_no_overflow(w);
            vstd::bits::lemma_usize_shl_is_mul(1, w as usize);
            crate::bitmap2d::lemma_grid_size(w);
        }
        let src_side = 1usize << (self.width_exp as usize);
        let mut result: Vec<BitVec> = Vec::with_capacity(resolution_exp as usize + 1);
        let mut k: usize = 0;
        while k < overscan
            invariant
                base == bm.base(),
                self.bitmap == Some(*bm),
                w == self.width_exp,
                res == resolution_exp,
                0 <= w < res,
                2 * res < usize::BITS,
                pow2(2 * res) + usize::BITS <= max_bits(),
                pow2(2 * w) <= base.len(),
                bits_of(*src_level0) == base,
                overscan == res - w,
                src_side == pow2(w),
                k <= overscan,
                result@.len() == k,
                forall|j: int| 0 <= j < k ==> #[trigger] bits_of(result@[j]) == upsample(base, w, (overscan - j) as nat),
            decreases overscan - k,
        {
            let ghost r = (overscan - k) as nat;
            proof {
                crate::bitmap2d::lemma_grid_size(w);
                vstd::bits::lemma_usize_pow2_no_overflow(r);
                vstd::bits::lemma_usize_shl_is_mul(1, r as usize);
                vstd::bits::lemma_usize_pow2_no_overflow((res - k) as nat);
                vstd::bits::lemma_usize_shl_is_mul(1, (res - k) as usize);
                vstd::arithmetic::power2::lemma_pow2_adds(w, r);
                vstd::arithmetic::power2::lemma_pow2_pos(r);
                crate::bitmap2d::lemma_grid_size((res - k) as nat);
                if res - k < res {
                    vstd::arithmetic::power2::lemma_pow2_strictly_increases((2 * (res - k)) as nat, 2 * res);
                }
                vstd::arithmetic::power2::lemma_pow2_adds((res - k) as nat, (res - k) as nat);
            }
            let pixel_repeat = 1usize << (overscan - k);
            let out_side = 1usize << (resolution_exp as usize - k);
            let bits_per_word = usize::BITS as usize;
            let ghost n = out_side * out_side;
            proof {
                assert(out_side == src_side * pixel_repeat);
                assert(n == pow2(2 * (res - k) as nat));
            }
            let word_count = (out_side * out_side + bits_per_word - 1) / bits_per_word;
            proof {
                let bw = usize::BITS as int;
                vstd::arithmetic::div_mod::lemma_fundamental_div_mod(n + bw - 1, bw);
                vstd::arithmetic::div_mod::lemma_mod_pos_bound(n + bw - 1, bw);
                assert(n <= word_count * bw <= n + bw - 1);
            }
            let mut words = zero_words(word_count);
            proof {
                assert(src_side * src_side == pow2(2 * w));
                assert forall|i: int| 0 <= i < n implies !#[trigger] word_bit(words@, i) by {
                    let bw = usize::BITS as int;
                    vstd::arithmetic::div_mod::lemma_div_is_ordered(i, word_count * bw - 1, bw);
                    vstd::arithmetic::div_mod::lemma_fundamental_div_mod_converse(word_count * bw - 1, bw, word_count - 1, bw - 1);
                    vstd::arithmetic::div_mod::lemma_div_pos_is_pos(i, bw);
                    crate::words::lemma_zero_word_bit(words@, i);
                }
            }
            let mut src_y: usize = 0;
            while src_y < src_side
                invariant
                    base == bm.base(),
                    bits_of(*src_level0) == base,
                    pow2(2 * w) <= base.len(),
                    src_side == pow2(w),
                    src_side * src_side == pow2(2 * w),
                    src_side * src_side <= usize::MAX,
                    src_side > 0,
                    pixel_repeat > 0,
                    out_side == src_side * pixel_repeat,
                    n == out_side * out_side,
                    n <= usize::MAX,
                    words@.len() == word_count,
                    n <= word_count * (usize::BITS as int),
                    src_y <= src_side,
                    forall|i: int|
                        0 <= i < n ==> #[trigger] word_bit(words@, i) == ({
                            let s = (i % out_side as int) / (pixel_repeat as int) + ((i / out_side as int) / (pixel_repeat as int)) * src_side;
                            s < src_y * src_side && base[s]
                        }),
                decreases src_side - src_y,
            {
                let mut src_x: usize = 0;
                proof {
                    assert((src_y + 1) * src_side <= src_side * src_side && (src_y + 1) * src_side == src_y * src_side + src_side)
                        by (nonlinear_arith)
                        requires
                            src_y < src_side,
                    ;
                    assert((src_y + 1) * pixel_repeat <= out_side) by (nonlinear_arith)
                        requires
                            src_y < src_side,
                            out_side == src_side * pixel_repeat,
                            pixel_repeat > 0,
                    ;
                }
                while src_x < src_side
                    invariant
                        base == bm.base(),
                        bits_of(*src_level0) == base,
                        pow2(2 * w) <= base.len(),
                        src_side * src_side == pow2(2 * w),
                        src_side * src_side <= usize::MAX,
                        src_side > 0,
                        pixel_repeat > 0,
                        out_side == src_side * pixel_repeat,
                        n == out_side * out_side,
                        n <= usize::MAX,
                        words@.len() == word_count,
                        n <= word_count * (usize::BITS as int),
                        src_y < src_side,
                        (src_y + 1) * src_side <= src_side * src_side,
                        (src_y + 1) * src_side == src_y * src_side + src_side,
                        (src_y + 1) * pixel_repeat <= out_side,
                        src_x <= src_side,
                        forall|i: int|
                            0 <= i < n ==> #[trigger] word_bit(words@, i) == ({
                                let s = (i % out_side as int) / (pixel_repeat as int) + ((i / out_side as int) / (pixel_repeat as int)) * src_side;
                                s < src_y * src_side + src_x && base[s]
                            }),
                    decreases src_side - src_x,
                {
                    let cur = src_y * src_side + src_x;
                    let bit = ext_index(src_level0, cur);
                    if bit {
                        proof {
                            assert((src_x + 1) * pixel_repeat <= out_side) by (nonlinear_arith)
                                requires
                                    src_x < src_side,
                                    out_side == src_side * pixel_repeat,
                                    pixel_repeat > 0,
                            ;
                        }
                        let ghost before = words@;
                        fill_block(&mut words, out_side, src_x, src_y, pixel_repeat);
                        proof {
                            assert forall|i: int| 0 <= i < n implies #[trigger] word_bit(words@, i) == ({
                                let s = (i % out_side as int) / (pixel_repeat as int) + ((i / out_side as int) / (pixel_repeat as int)) * src_side;
                                s < src_y * src_side + src_x + 1 && base[s]
                            }) by {
                                lemma_in_block_iff(i, src_side as int, pixel_repeat as int, src_x as int, src_y as int);
                            }
                        }
                    } else {
                        proof {
                            assert forall|i: int| 0 <= i < n implies #[trigger] word_bit(words@, i) == ({
                                let s = (i % out_side as int) / (pixel_repeat as int) + ((i / out_side as int) / (pixel_repeat as int)) * src_side;
                                s < src_y * src_side + src_x + 1 && base[s]
                            }) by {
                                lemma_in_block_iff(i, src_side as int, pixel_repeat as int, src_x as int, src_y as int);
                            }
                        }
                    }
                    src_x += 1;
                }
                src_y += 1;
            }
            proof {
                assert(word_count * (usize::BITS as int) <= max_bits());
            }
            let mut bv = ext_from_vec(words);
            ext_truncate(&mut bv, out_side * out_side);
            proof {
                assert(bits_of(bv) =~= upsample(base, w, r)) by {
                    assert forall|i: int| 0 <= i < n implies #[trigger] bits_of(bv)[i] == upsample(base, w, r)[i] by {
                        lemma_in_block_iff(i, src_side as int, pixel_repeat as int, 0, 0);
                        let qx = (i % out_side as int) / (pixel_repeat as int);
                        let qy = (i / out_side as int) / (pixel_repeat as int);
                        assert(qx + qy * src_side < src_side * src_side) by (nonlinear_arith)
                            requires
                                0 <= qx < src_side,
                                0 <= qy < src_side,
                        ;
                        assert(bits_of(bv)[i] == word_bit(words@, i));
                    }
                }
            }
            result.push(bv);
            k += 1;
        }
        let n_levels = bm.num_levels();
        let mut j: usize = 0;
        while j < n_levels
            invariant
                n_levels == bm.levels_view().len(),
                j <= n_levels,
                result@.len() == overscan + j,
                forall|i: int| 0 <= i < overscan ==> #[trigger] bits_of(result@[i]) == upsample(base, w, (overscan - i) as nat),
                forall|i: int| 0 <= i < j ==> #[trigger] bits_of(result@[overscan + i]) == bm.levels_view()[i],
            decreases n_levels - j,
        {
            let level = bm.level_at_offset(j).unwrap();
            result.push(level.clone());
            j += 1;
        }
        proof {
            let target = Seq::new(
                (resolution_exp - self.width_exp) as nat,
                |k: int| upsample(bm.base(), self.width_exp as nat, (resolution_exp - self.width_exp - k) as nat),
            ) + bm.levels_view();
            assert forall|i: int| 0 <= i < result@.len() implies #[trigger] bit_seqs(result@)[i] == target[i] by {
                if i >= overscan {
                    assert(bits_of(result@[overscan + (i - overscan)]) == bm.levels_view()[i - overscan]);
                }
            }
            assert(bit_seqs(result@) =~= target);
            assert(any_set(bm.base())) by {
                let i = choose|i: int| 0 <= i < bits_of(*src_level0).len() && bits_of(*src_level0)[i];
                assert(bm.base()[i]);
            }
        }
        Some(result)
    }
}


/// A grid of pixels set where a list of pixels has them, `2^e` wide.
pub open spec fn raster(pixels: Seq<(int, int)>, e: nat) -> Seq<bool> {
    let s = pow2(e) as int;
    Seq::new((s * s) as nat, |i: int| pixels.contains((i % s, i / s)))
}

/// Level `k` of a mipmap composed from a `grid x grid` block of sub-tile mipmaps of `sres + 1`
/// levels, row-major: each pixel comes from the sub-tile whose square holds it, and is clear
/// where that sub-tile has no mipmap or no such level.
pub open spec fn composite_level(mips: Seq<Option<Seq<Seq<bool>>>>, grid: int, sres: nat, k: nat) -> Seq<bool> {
    let s = pow2((sres - k) as nat) as int;
    let side = grid * s;
    Seq::new(
        (side * side) as nat,
        |i: int|
            {
                let ox = i % side;
                let oy = i / side;
                match mips[ox / s + (oy / s) * grid] {
                    Some(m) => k < m.len() && m[k as int][(ox % s) + (oy % s) * s],
                    None => false,
                }
            },
    )
}

/// The full mipmap composed from a block of sub-tile mipmaps: the composed levels, then the
/// 2x2 OR reductions of the coarsest of them down to 1x1.
pub open spec fn composite(mips: Seq<Option<Seq<Seq<bool>>>>, span: nat, sres: nat) -> Seq<Seq<bool>> {
    let grid = pow2(span) as int;
    let comp = Seq::new(sres + 1, |k: int| composite_level(mips, grid, sres, k as nat));
    comp + Seq::new(span, |j: int| pyramid_level(comp[sres as int], span, (j + 1) as nat))
}

/// The mipmaps that cells `k..n` of the `side`-wide window at `(x0, y0)` of a `2^w`-wide grid
/// of slots give at resolution `sres`: that of each loaded sub-tile, `None` elsewhere.
pub open spec fn cell_mips(
    slots: Seq<Option<Box<GenericTile>>>,
    w: nat,
    x0: int,
    y0: int,
    side: int,
    sres: int,
    k: int,
    n: int,
) -> Seq<Option<Seq<Seq<bool>>>>
    decreases slots, n - k,
{
    if k >= n || side <= 0 {
        Seq::empty()
    } else {
        let c = cell_of(x0, y0, side, k);
        let idx = c.0 + c.1 * pow2(w);
        seq![
            if 0 <= idx < slots.len() {
                match slots[idx] {
                    Some(b) => (*b).extract(0, 0, 0, sres),
                    None => None,
                }
            } else {
                None
            },
        ] + cell_mips(slots, w, x0, y0, side, sres, k + 1, n)
    }
}

/// Cells `k..n` of the window: the mipmap of every loaded sub-tile there can be extracted,
/// with levels at least as large as the resolution asks.
pub open spec fn cells_extract_ok(
    slots: Seq<Option<Box<GenericTile>>>,
    w: nat,
    x0: int,
    y0: int,
    side: int,
    sres: int,
    k: int,
    n: int,
) -> bool
    decreases slots, n - k,
{
    if k >= n || side <= 0 {
        true
    } else {
        let c = cell_of(x0, y0, side, k);
        let idx = c.0 + c.1 * pow2(w);
        &&& (0 <= idx < slots.len() ==> match slots[idx] {
            Some(b) => {
                &&& (*b).extract_ok(0, 0, 0, sres)
                &&& (*b).extract(0, 0, 0, sres) matches Some(m) ==> forall|j: int|
                    0 <= j <= sres && j < m.len() ==> #[trigger] m[j].len() >= pow2(2 * (sres - j) as nat)
            },
            None => true,
        })
        &&& cells_extract_ok(slots, w, x0, y0, side, sres, k + 1, n)
    }
}

impl GenericTile {
    /// The mipmap pyramid of tile `(x, y)` at zoom `z` (relative to this tile) at `2^res`
    /// pixels per side, finest level first, or `None` when the tile holds nothing:
    /// - below this tile's grid, that of the sub-tile holding it (`None` under a leaf);
    /// - for a whole leaf at most as fine as its grid, its stored levels from that
    ///   resolution down, unless that level is clear; finer than its grid, its base
    ///   enlarged to each finer resolution, then all stored levels, unless the base is clear;
    /// - for an inner tile whose sub-tiles are at least one pixel each, the composition of
    ///   their mipmaps, unless none has one;
    /// - otherwise the pyramid of its pixels, unless there are none.
    pub closed spec fn extract(self, x: int, y: int, z: int, res: int) -> Option<Seq<Seq<bool>>>
        decreases self, 0nat,
    {
        let w = self.width_exp as int;
        if z > w {
            if self.is_leaf {
                None
            } else {
                let p = pow2((z - w) as nat) as int;
                let idx = x / p + (y / p) * pow2(w as nat);
                if 0 <= idx < self.sub_tiles@.len() {
                    match self.sub_tiles@[idx] {
                        Some(b) => (*b).extract(x % p, y % p, z - w, res),
                        None => None,
                    }
                } else {
                    None
                }
            }
        } else if self.is_leaf && z == 0 {
            match self.bitmap {
                None => None,
                Some(bm) => if res <= w {
                    let off = w - res;
                    if off >= bm.levels_view().len() || !any_set(bm.levels_view()[off]) {
                        None
                    } else {
                        Some(bm.levels_view().subrange(off, bm.levels_view().len() as int))
                    }
                } else if !any_set(bm.base()) {
                    None
                } else {
                    Some(
                        Seq::new((res - w) as nat, |k: int| upsample(bm.base(), w as nat, (res - w - k) as nat))
                            + bm.levels_view(),
                    )
                },
            }
        } else if !self.is_leaf && res >= w - z {
            let span = (w - z) as nat;
            let grid = pow2(span) as int;
            let sres = res - span;
            let mips = cell_mips(self.sub_tiles@, w as nat, x * grid, y * grid, grid, sres, 0, grid * grid);
            if forall|i: int| 0 <= i < mips.len() ==> #[trigger] mips[i] is None {
                None
            } else {
                Some(composite(mips, span, sres as nat))
            }
        } else {
            let level0 = raster(self.pixels(0, 0, x, y, z, res), res as nat);
            if !any_set(level0) {
                None
            } else {
                Some(pyramid(level0, res as nat))
            }
        }
    }

    /// The inputs on which the mipmap can be extracted: non-negative coordinates, zoom and
    /// resolution; below this tile's grid, coordinates that address a slot; where the
    /// mipmap is computed, a resolution whose grids fit the machine word and a bit-vector,
    /// sub-tile blocks within 64-bit signed arithmetic, and well-sized sub-tile levels; for
    /// the pixels, the inputs on which they can be listed.
    pub closed spec fn extract_ok(self, x: int, y: int, z: int, res: int) -> bool
        decreases self, 0nat,
    {
        let w = self.width_exp as int;
        &&& 0 <= x
        &&& 0 <= y
        &&& 0 <= z
        &&& 0 <= res
        &&& if z > w {
            self.is_leaf || {
                let p = pow2((z - w) as nat) as int;
                &&& 0 <= w
                &&& z - w < 64
                &&& cell_in(self.sub_tiles@.len(), x / p, y / p, w)
                &&& match self.sub_tiles@[x / p + (y / p) * pow2(w as nat)] {
                    Some(b) => (*b).extract_ok(x % p, y % p, z - w, res),
                    None => true,
                }
            }
        } else if self.is_leaf && z == 0 {
            res <= w || {
                &&& 2 * res < usize::BITS
                &&& pow2(2 * res as nat) + usize::BITS <= max_bits()
                &&& self.bitmap matches Some(bm) ==> pow2(2 * w as nat) <= bm.base().len()
            }
        } else if !self.is_leaf && res >= w - z {
            let span = (w - z) as nat;
            let grid = pow2(span) as int;
            &&& 2 * res < usize::BITS
            &&& pow2(2 * res as nat) + usize::BITS <= max_bits()
            &&& (x + 1) * grid <= i64::MAX
            &&& (y + 1) * grid <= i64::MAX
            &&& window_fits(self.sub_tiles@.len(), w as nat, 0, 0, x * grid, y * grid, grid, grid)
            &&& cells_extract_ok(self.sub_tiles@, w as nat, x * grid, y * grid, grid, res - span, 0, grid * grid)
        } else {
            &&& 2 * res < usize::BITS
            &&& pow2(2 * res as nat) <= max_bits()
            &&& self.pixels_ok(0, 0, x, y, z, res)
        }
    }
}


/// Where bit `i` of a grid `side` wide falls within the `s`-wide block at `(bx, by)`.
pub open spec fn block_local(i: int, side: int, bx: int, by: int, s: int) -> int {
    (i % side - bx) + (i / side - by) * s
}

/// Ors an `s x s` level into the `s x s` block of cell `(gx, gy)` of a row-major grid of bits
/// `out_side` wide held in words: whole words at a time where the level's rows are whole
/// words, bit by bit otherwise.
fn blit_level(out_words: &mut Vec<usize>, out_side: usize, sub_level: &BitVec, s: usize, gx: usize, gy: usize)
    requires
        s > 0,
        (gx + 1) * s <= out_side,
        (gy + 1) * s <= out_side,
        out_side % s == 0,
        out_side * out_side <= usize::MAX,
        out_side * out_side <= old(out_words)@.len() * (usize::BITS as int),
        bits_of(*sub_level).len() >= s * s,
    ensures
        final(out_words)@.len() == old(out_words)@.len(),
        forall|i: int|
            0 <= i < out_side * out_side ==> #[trigger] word_bit(final(out_words)@, i) == (word_bit(old(out_words)@, i)
                || (in_block(i, out_side as int, gx * s, gy * s, s as int) && bits_of(*sub_level)[block_local(
                i,
                out_side as int,
                gx * s,
                gy * s,
                s as int,
            )])),
{
    let ghost bw = usize::BITS as int;
    let ghost n = out_side * out_side;
    let ghost sub = bits_of(*sub_level);
    let ghost bx = gx * s;
    let ghost by = gy * s;
    proof {
        assert(gx * s + s == (gx + 1) * s && gy * s + s == (gy + 1) * s && 0 <= gx * s && 0 <= gy * s)
            by (nonlinear_arith)
            requires
                s > 0,
        ;
        assert(n <= old(out_words)@.len() * bw);
        assert(s * s <= n) by (nonlinear_arith)
            requires
                s <= out_side,
                n == out_side * out_side,
        ;
    }
    let bits_per_word = usize::BITS as usize;
    if s >= bits_per_word && s % bits_per_word == 0 {
        let src_words = ext_as_raw_slice(sub_level);
        let src_words_per_row = s / bits_per_word;
        let out_words_per_row = out_side / bits_per_word;
        proof {
            vstd::arithmetic::div_mod::lemma_fundamental_div_mod(s as int, bw);
            vstd::arithmetic::div_mod::lemma_fundamental_div_mod(out_side as int, s as int);
            let q = out_side as int / s as int;
            assert(out_side == (q * src_words_per_row) * bw && (q * src_words_per_row) * bw == out_words_per_row * bw) by {
                assert(out_side == s * q);
                assert(s * q == (q * src_words_per_row) * bw) by (nonlinear_arith)
                    requires
                        s == bw * src_words_per_row,
                ;
                vstd::arithmetic::div_mod::lemma_fundamental_div_mod_converse(out_side as int, bw, q * src_words_per_row, 0);
            }
            assert(gx * s == (gx * src_words_per_row) * bw) by (nonlinear_arith)
                requires
                    s == bw * src_words_per_row,
            ;
            vstd::arithmetic::div_mod::lemma_fundamental_div_mod_converse(gx * s, bw, gx * src_words_per_row, 0);
            assert(src_words_per_row > 0) by (nonlinear_arith)
                requires
                    s == bw * src_words_per_row,
                    s > 0,
                    bw > 0,
            ;
        }
        let mut row: usize = 0;
        while row < s
            invariant
                out_words@.len() == old(out_words)@.len(),
                bw == usize::BITS as int,
                bits_per_word == bw,
                n == out_side * out_side,
                n <= usize::MAX,
                n <= old(out_words)@.len() * bw,
                sub == bits_of(*sub_level),
                sub.len() >= s * s,
                src_words@ == crate::bits::words_of(*sub_level),
                src_words@.len() == (sub.len() + bw - 1) / bw,
                s * s <= n,
                forall|i: int| 0 <= i < sub.len() ==> #[trigger] word_bit(src_words@, i) == sub[i],
                s == src_words_per_row * bw,
                out_side == out_words_per_row * bw,
                gx * s == (gx * src_words_per_row) * bw,
                bx == gx * s,
                by == gy * s,
                bx + s <= out_side,
                by + s <= out_side,
                0 <= bx,
                0 <= by,
                src_words_per_row > 0,
                row <= s,
                forall|i: int|
                    0 <= i < n ==> #[trigger] word_bit(out_words@, i) == (word_bit(old(out_words)@, i) || (block_part(
                        i,
                        out_side as int,
                        bx,
                        by,
                        s as int,
                        row as int,
                        0,
                    ) && sub[block_local(i, out_side as int, bx, by, s as int)])),
            decreases s - row,
        {
            let dst_row = gy * s + row;
            let dst_word_col = gx * s / bits_per_word;
            let ghost len = old(out_words)@.len() as int;
            proof {
                assert(gx * s / bw == gx * src_words_per_row);
                let q = dst_row * out_words_per_row + dst_word_col + src_words_per_row;
                assert(q * bw == dst_row * out_side + bx + s) by (nonlinear_arith)
                    requires
                        q == dst_row * out_words_per_row + dst_word_col + src_words_per_row,
                        out_side == out_words_per_row * bw,
                        bx == dst_word_col * bw,
                        s == src_words_per_row * bw,
                ;
                assert(dst_row * out_side + bx + s <= n) by (nonlinear_arith)
                    requires
                        dst_row < out_side,
                        bx + s <= out_side,
                        n == out_side * out_side,
                ;
                assert(q <= len && q <= n) by (nonlinear_arith)
                    requires
                        q * bw <= n,
                        n <= len * bw,
                        bw > 0,
                        q >= 0,
                ;
                assert(s * src_words_per_row <= s * s) by (nonlinear_arith)
                    requires
                        s == src_words_per_row * bw,
                        bw > 0,
                        src_words_per_row > 0,
                ;
                assert(row * src_words_per_row + src_words_per_row <= s * src_words_per_row && 0 <= row
                    * src_words_per_row && 0 <= dst_row * out_words_per_row) by (nonlinear_arith)
                    requires
                        row < s,
                        src_words_per_row > 0,
                        0 <= dst_row,
                        0 <= out_words_per_row,
                ;
                let sl = sub.len() as int;
                assert(s * s == (s * src_words_per_row) * bw) by (nonlinear_arith)
                    requires
                        s == src_words_per_row * bw,
                ;
                vstd::arithmetic::div_mod::lemma_div_is_ordered(s * s + bw - 1, sl + bw - 1, bw);
                vstd::arithmetic::div_mod::lemma_fundamental_div_mod_converse(
                    s * s + bw - 1,
                    bw,
                    s * src_words_per_row,
                    bw - 1,
                );
                assert(src_words@.len() == (sl + bw - 1) / bw);
            }
            let src_row_start = row * src_words_per_row;
            let dst_row_start = dst_row * out_words_per_row + dst_word_col;
            let mut w: usize = 0;
            while w < src_words_per_row
                invariant
                    out_words@.len() == old(out_words)@.len(),
                    len == old(out_words)@.len(),
                    bw == usize::BITS as int,
                    n == out_side * out_side,
                    n <= usize::MAX,
                    n <= len * bw,
                    sub == bits_of(*sub_level),
                    sub.len() >= s * s,
                    forall|i: int| 0 <= i < sub.len() ==> #[trigger] word_bit(src_words@, i) == sub[i],
                    s == src_words_per_row * bw,
                    out_side == out_words_per_row * bw,
                    bx == dst_word_col * bw,
                    by == gy * s,
                    bx + s <= out_side,
                    by + s <= out_side,
                    0 <= bx,
                    0 <= by,
                    row < s,
                    dst_row == by + row,
                    src_row_start == row * src_words_per_row,
                    src_row_start + src_words_per_row <= s * src_words_per_row,
                    s * src_words_per_row <= src_words@.len(),
                    dst_row_start == dst_row * out_words_per_row + dst_word_col,
                    dst_row_start + src_words_per_row <= len,
                    dst_row_start + src_words_per_row <= n,
                    s * src_words_per_row <= s * s,
                    s * s <= n,
                    0 <= dst_row * out_words_per_row,
                    w <= src_words_per_row,
                    forall|i: int|
                        0 <= i < n ==> #[trigger] word_bit(out_words@, i) == (word_bit(old(out_words)@, i) || (
                        block_part(i, out_side as int, bx, by, s as int, row as int, w * bw) && sub[block_local(
                            i,
                            out_side as int,
                            bx,
                            by,
                            s as int,
                        )])),
                decreases src_words_per_row - w,
            {
                let wi = dst_row_start + w;
                let v = src_words[src_row_start + w];
                let ghost before = out_words@;
                let ghost base_bit = wi * bw;
                proof {
                    assert(base_bit == dst_row * out_side + bx + w * bw) by (nonlinear_arith)
                        requires
                            base_bit == wi * bw,
                            wi == dst_row * out_words_per_row + dst_word_col + w,
                            out_side == out_words_per_row * bw,
                            bx == dst_word_col * bw,
                    ;
                    assert(w * bw + bw <= s) by (nonlinear_arith)
                        requires
                            w < src_words_per_row,
                            s == src_words_per_row * bw,
                    ;
                    assert(0 <= w * bw) by (nonlinear_arith)
                        requires
                            0 <= w,
                            bw > 0,
                    ;
                    assert(0 <= row * s) by (nonlinear_arith)
                        requires
                            0 <= row,
                            s > 0,
                    ;
                    assert((src_row_start + w) * bw == row * s + w * bw) by (nonlinear_arith)
                        requires
                            src_row_start == row * src_words_per_row,
                            s == src_words_per_row * bw,
                    ;
                }
                or_word(out_words, wi, v);
                proof {
                    assert forall|i: int| 0 <= i < n implies #[trigger] word_bit(out_words@, i) == (word_bit(
                        old(out_words)@,
                        i,
                    ) || (block_part(i, out_side as int, bx, by, s as int, row as int, (w + 1) * bw) && sub[block_local(
                        i,
                        out_side as int,
                        bx,
                        by,
                        s as int,
                    )])) by {
                        assert(i < len * bw);
                        vstd::arithmetic::div_mod::lemma_fundamental_div_mod(i, out_side as int);
                        vstd::arithmetic::div_mod::lemma_mod_pos_bound(i, out_side as int);
                        vstd::arithmetic::div_mod::lemma_fundamental_div_mod(i, bw);
                        vstd::arithmetic::div_mod::lemma_mod_pos_bound(i, bw);
                        let ox = i % (out_side as int);
                        let oy = i / (out_side as int);
                        let fresh = oy == by + row && bx + w * bw <= ox < bx + (w + 1) * bw;
                        assert((w + 1) * bw == w * bw + bw) by (nonlinear_arith);
                        if i / bw == wi as int {
                            let b = i % bw;
                            assert(i == base_bit + b) by (nonlinear_arith)
                                requires
                                    i == bw * (i / bw) + b,
                                    i / bw == wi,
                                    base_bit == wi * bw,
                            ;
                            vstd::arithmetic::div_mod::lemma_fundamental_div_mod_converse(
                                i,
                                out_side as int,
                                dst_row as int,
                                bx + w * bw + b,
                            );
                            assert(fresh);
                            let t = (src_row_start + w) * bw + b;
                            vstd::arithmetic::div_mod::lemma_fundamental_div_mod_converse(t, bw, (src_row_start + w) as int, b);
                            assert(block_local(i, out_side as int, bx, by, s as int) == t);
                            assert(t < s * s) by (nonlinear_arith)
                                requires
                                    t == row * s + w * bw + b,
                                    w * bw + bw <= s,
                                    b < bw,
                                    row < s,
                            ;
                            assert(word_bit(src_words@, t) == sub[t]);
                            assert(src_words@[t / bw] == v);
                        } else {
                            if fresh {
                                assert(out_side * oy == oy * out_side) by (nonlinear_arith);
                                vstd::arithmetic::div_mod::lemma_fundamental_div_mod_converse(
                                    i,
                                    bw,
                                    wi as int,
                                    ox - bx - w * bw,
                                );
                            }
                        }
                    }
                }
                w += 1;
            }
            proof {
                assert(src_words_per_row * bw == s);
                assert forall|i: int| 0 <= i < n implies #[trigger] word_bit(out_words@, i) == (word_bit(
                    old(out_words)@,
                    i,
                ) || (block_part(i, out_side as int, bx, by, s as int, row + 1, 0) && sub[block_local(
                    i,
                    out_side as int,
                    bx,
                    by,
                    s as int,
                )])) by {
                    assert(block_part(i, out_side as int, bx, by, s as int, row as int, s as int) == block_part(
                        i,
                        out_side as int,
                        bx,
                        by,
                        s as int,
                        row + 1,
                        0,
                    ));
                }
            }
            row += 1;
        }
    } else {
        let mut row: usize = 0;
        while row < s
            invariant
                out_words@.len() == old(out_words)@.len(),
                bw == usize::BITS as int,
                n == out_side * out_side,
                n <= usize::MAX,
                n <= old(out_words)@.len() * bw,
                sub == bits_of(*sub_level),
                sub.len() >= s * s,
                s * s <= n,
                bx == gx * s,
                by == gy * s,
                bx + s <= out_side,
                by + s <= out_side,
                0 <= bx,
                0 <= by,
                s > 0,
                row <= s,
                forall|i: int|
                    0 <= i < n ==> #[trigger] word_bit(out_words@, i) == (word_bit(old(out_words)@, i) || (block_part(
                        i,
                        out_side as int,
                        bx,
                        by,
                        s as int,
                        row as int,
                        0,
                    ) && sub[block_local(i, out_side as int, bx, by, s as int)])),
            decreases s - row,
        {
            proof {
                assert(row * s + s <= s * s && 0 <= row * s) by (nonlinear_arith)
                    requires
                        row < s,
                        s > 0,
                ;
                assert((gy * s + row) * out_side + gx * s + s <= n && 0 <= (gy * s + row) * out_side) by (nonlinear_arith)
                    requires
                        gy * s + row < out_side,
                        gx * s + s <= out_side,
                        n == out_side * out_side,
                        0 <= gy * s,
                ;
            }
            let src_start = row * s;
            let dst_row = gy * s + row;
            let dst_start = dst_row * out_side + gx * s;
            let mut bit: usize = 0;
            while bit < s
                invariant
                    out_words@.len() == old(out_words)@.len(),
                    bw == usize::BITS as int,
                    n == out_side * out_side,
                    n <= usize::MAX,
                    n <= old(out_words)@.len() * bw,
                    sub == bits_of(*sub_level),
                    sub.len() >= s * s,
                    s * s <= n,
                    bx == gx * s,
                    by == gy * s,
                    bx + s <= out_side,
                    by + s <= out_side,
                    0 <= bx,
                    0 <= by,
                    s > 0,
                    row < s,
                    src_start == row * s,
                    src_start + s <= s * s,
                    dst_row == by + row,
                    dst_start == dst_row * out_side + bx,
                    dst_start + s <= n,
                    0 <= dst_row * out_side,
                    bit <= s,
                    forall|i: int|
                        0 <= i < n ==> #[trigger] word_bit(out_words@, i) == (word_bit(old(out_words)@, i) || (
                        block_part(i, out_side as int, bx, by, s as int, row as int, bit as int) && sub[block_local(
                            i,
                            out_side as int,
                            bx,
                            by,
                            s as int,
                        )])),
                decreases s - bit,
            {
                let v = ext_index(sub_level, src_start + bit);
                let ghost before = out_words@;
                let dst_bit = dst_start + bit;
                proof {
                    vstd::arithmetic::div_mod::lemma_fundamental_div_mod_converse(
                        dst_bit as int,
                        out_side as int,
                        dst_row as int,
                        bx + bit,
                    );
                    assert(block_local(dst_bit as int, out_side as int, bx, by, s as int) == src_start + bit) by {
                        assert(row * s == (dst_row - by) * s);
                    }
                }
                if v {
                    proof {
                        vstd::arithmetic::div_mod::lemma_div_is_ordered(dst_bit as int, n - 1, bw);
                        vstd::arithmetic::div_mod::lemma_div_is_ordered(n - 1, old(out_words)@.len() * bw - 1, bw);
                        vstd::arithmetic::div_mod::lemma_fundamental_div_mod_converse(
                            old(out_words)@.len() * bw - 1,
                            bw,
                            old(out_words)@.len() - 1,
                            bw - 1,
                        );
                    }
                    set_word_bit(out_words, dst_bit);
                }
                proof {
                    assert forall|i: int| 0 <= i < n implies #[trigger] word_bit(out_words@, i) == (word_bit(
                        old(out_words)@,
                        i,
                    ) || (block_part(i, out_side as int, bx, by, s as int, row as int, bit + 1) && sub[block_local(
                        i,
                        out_side as int,
                        bx,
                        by,
                        s as int,
                    )])) by {
                        vstd::arithmetic::div_mod::lemma_fundamental_div_mod(i, out_side as int);
                        vstd::arithmetic::div_mod::lemma_mod_pos_bound(i, out_side as int);
                        if i % (out_side as int) == bx + bit && i / (out_side as int) == dst_row {
                            assert(out_side * dst_row == dst_row * out_side) by (nonlinear_arith);
                            assert(i == dst_bit);
                        }
                    }
                }
                bit += 1;
            }
            proof {
                assert forall|i: int| 0 <= i < n implies #[trigger] word_bit(out_words@, i) == (word_bit(
                    old(out_words)@,
                    i,
                ) || (block_part(i, out_side as int, bx, by, s as int, row + 1, 0) && sub[block_local(
                    i,
                    out_side as int,
                    bx,
                    by,
                    s as int,
                )])) by {
                    assert(block_part(i, out_side as int, bx, by, s as int, row as int, s as int) == block_part(
                        i,
                        out_side as int,
                        bx,
                        by,
                        s as int,
                        row + 1,
                        0,
                    ));
                }
            }
            row += 1;
        }
    }
    proof {
        assert forall|i: int| 0 <= i < n implies #[trigger] block_part(i, out_side as int, bx, by, s as int, s as int, 0)
            == in_block(i, out_side as int, bx, by, s as int) by {}
    }
}


/// Entry `j` of the sub-tile mipmaps of cells `k..n` is that of cell `k + j`.
proof fn lemma_cell_mips_index(
    slots: Seq<Option<Box<GenericTile>>>,
    w: nat,
    x0: int,
    y0: int,
    side: int,
    sres: int,
    k: int,
    n: int,
    j: int,
)
    requires
        side > 0,
        0 <= k <= n,
        0 <= j < n - k,
    ensures
        cell_mips(slots, w, x0, y0, side, sres, k, n).len() == n - k,
        cell_mips(slots, w, x0, y0, side, sres, k, n)[j] == {
            let c = cell_of(x0, y0, side, k + j);
            let idx = c.0 + c.1 * pow2(w);
            if 0 <= idx < slots.len() {
                match slots[idx] {
                    Some(b) => (*b).extract(0, 0, 0, sres),
                    None => None,
                }
            } else {
                None
            }
        },
    decreases n - k,
{
    lemma_cell_mips_len(slots, w, x0, y0, side, sres, k, n);
    if j > 0 {
        lemma_cell_mips_index(slots, w, x0, y0, side, sres, k + 1, n, j - 1);
    }
}

proof fn lemma_cell_mips_len(
    slots: Seq<Option<Box<GenericTile>>>,
    w: nat,
    x0: int,
    y0: int,
    side: int,
    sres: int,
    k: int,
    n: int,
)
    requires
        side > 0,
        k <= n,
    ensures
        cell_mips(slots, w, x0, y0, side, sres, k, n).len() == n - k,
    decreases n - k,
{
    if k < n {
        lemma_cell_mips_len(slots, w, x0, y0, side, sres, k + 1, n);
    }
}

/// What `cells_extract_ok` says of one cell.
proof fn lemma_cells_extract_ok_at(
    slots: Seq<Option<Box<GenericTile>>>,
    w: nat,
    x0: int,
    y0: int,
    side: int,
    sres: int,
    k: int,
    n: int,
    c: int,
)
    requires
        cells_extract_ok(slots, w, x0, y0, side, sres, k, n),
        side > 0,
        k <= c < n,
    ensures
        ({
            let cc = cell_of(x0, y0, side, c);
            let idx = cc.0 + cc.1 * pow2(w);
            0 <= idx < slots.len() ==> match slots[idx] {
                Some(b) => {
                    &&& (*b).extract_ok(0, 0, 0, sres)
                    &&& (*b).extract(0, 0, 0, sres) matches Some(m) ==> forall|j: int|
                        0 <= j <= sres && j < m.len() ==> #[trigger] m[j].len() >= pow2(2 * (sres - j) as nat)
                },
                None => true,
            }
        }),
    decreases c - k,
{
    if c > k {
        lemma_cells_extract_ok_at(slots, w, x0, y0, side, sres, k + 1, n, c);
    }
}

/// The pixels of cells `k..n` of a window lie within the window, placed at `(sx, sy)`.
proof fn lemma_window_bounds(bits: Seq<bool>, e: nat, sx: int, sy: int, x0: int, y0: int, side: int, k: int, n: int)
    requires
        side > 0,
        0 <= k,
        n <= side * side,
    ensures
        forall|j: int|
            0 <= j < window_from(bits, e, sx, sy, x0, y0, side, k, n).len() ==> {
                let p = #[trigger] window_from(bits, e, sx, sy, x0, y0, side, k, n)[j];
                sx <= p.0 < sx + side && sy <= p.1 < sy + side
            },
    decreases n - k,
{
    if k < n {
        lemma_window_bounds(bits, e, sx, sy, x0, y0, side, k + 1, n);
        crate::tile_iter::lemma_cell_in_window(x0, y0, side, side, k);
        let c = cell_of(x0, y0, side, k);
        let head = if bits[c.0 + c.1 * pow2(e)] {
            seq![(sx + c.0 - x0, sy + c.1 - y0)]
        } else {
            Seq::empty()
        };
        let rest = window_from(bits, e, sx, sy, x0, y0, side, k + 1, n);
        assert forall|j: int| 0 <= j < (head + rest).len() implies {
            let q = #[trigger] (head + rest)[j];
            sx <= q.0 < sx + side && sy <= q.1 < sy + side
        } by {
            if j >= head.len() {
                assert((head + rest)[j] == rest[j - head.len()]);
            }
        }
    }
}

/// The pixels of cells `k..n` of a block lie within the block, placed at `(sx, sy)`.
proof fn lemma_block_bounds(sx: int, sy: int, x0: int, y0: int, side: int, k: int, n: int)
    requires
        side > 0,
        0 <= k,
        n <= side * side,
    ensures
        forall|j: int|
            0 <= j < block_from(sx, sy, x0, y0, side, k, n).len() ==> {
                let p = #[trigger] block_from(sx, sy, x0, y0, side, k, n)[j];
                sx + x0 <= p.0 < sx + x0 + side && sy + y0 <= p.1 < sy + y0 + side
            },
    decreases n - k,
{
    if k < n {
        lemma_block_bounds(sx, sy, x0, y0, side, k + 1, n);
        crate::tile_iter::lemma_cell_in_window(x0, y0, side, side, k);
        let c = cell_of(x0, y0, side, k);
        let head = seq![(sx + c.0, sy + c.1)];
        let rest = block_from(sx, sy, x0, y0, side, k + 1, n);
        assert forall|j: int| 0 <= j < (head + rest).len() implies {
            let q = #[trigger] (head + rest)[j];
            sx + x0 <= q.0 < sx + x0 + side && sy + y0 <= q.1 < sy + y0 + side
        } by {
            if j >= head.len() {
                assert((head + rest)[j] == rest[j - head.len()]);
            }
        }
    }
}

/// The pixels of cells `k..n` of an enlarged window lie within the enlarged window.
proof fn lemma_overscan_bounds(
    bits: Seq<bool>,
    e: nat,
    sx: int,
    sy: int,
    x0: int,
    y0: int,
    side: int,
    sres: nat,
    k: int,
    n: int,
)
    requires
        side > 0,
        0 <= k,
        n <= side * side,
    ensures
        forall|j: int|
            0 <= j < overscan_from(bits, e, sx, sy, x0, y0, side, sres, k, n).len() ==> {
                let p = #[trigger] overscan_from(bits, e, sx, sy, x0, y0, side, sres, k, n)[j];
                sx <= p.0 < sx + side * pow2(sres) && sy <= p.1 < sy + side * pow2(sres)
            },
    decreases n - k,
{
    if k < n {
        lemma_overscan_bounds(bits, e, sx, sy, x0, y0, side, sres, k + 1, n);
        crate::tile_iter::lemma_cell_in_window(x0, y0, side, side, k);
        let c = cell_of(x0, y0, side, k);
        let p = pow2(sres) as int;
        vstd::arithmetic::power2::lemma_pow2_pos(sres);
        lemma_block_bounds(sx, sy, (c.0 - x0) * p, (c.1 - y0) * p, p, 0, p * p);
        assert((c.0 - x0) * p + p <= side * p && (c.1 - y0) * p + p <= side * p && 0 <= (c.0 - x0) * p && 0 <= (
        c.1 - y0) * p) by (nonlinear_arith)
            requires
                0 <= c.0 - x0 < side,
                0 <= c.1 - y0 < side,
                p > 0,
        ;
        let head = if bits[c.0 + c.1 * pow2(e)] {
            block_from(sx, sy, (c.0 - x0) * p, (c.1 - y0) * p, p, 0, p * p)
        } else {
            Seq::empty()
        };
        let rest = overscan_from(bits, e, sx, sy, x0, y0, side, sres, k + 1, n);
        assert forall|j: int| 0 <= j < (head + rest).len() implies {
            let q = #[trigger] (head + rest)[j];
            sx <= q.0 < sx + side * p && sy <= q.1 < sy + side * p
        } by {
            if j >= head.len() {
                assert((head + rest)[j] == rest[j - head.len()]);
            }
        }
    }
}

/// A cell of a `u64` holding `2^s` has its only set bit at `s`.
proof fn lemma_trailing_zeros_pow2(s: u64)
    requires
        s < 64,
    ensures
        (1u64 << s).trailing_zeros() == s,
{
    let i = 1u64 << s;
    vstd::std_specs::bits::axiom_u64_trailing_zeros(i);
    let t = i.trailing_zeros();
    assert(i != 0) by (bit_vector)
        requires
            i == 1u64 << s,
            s < 64,
    ;
    assert(forall|j: u64| j < 64 ==> ((((1u64 << s) >> j) & 1u64 == 1u64) <==> j == s)) by (bit_vector)
        requires
            s < 64,
    ;
    if (t as u64) < s {
        assert(((i >> (t as u64)) & 1u64) == 1u64);
    } else if (t as u64) > s {
        assert((i >> s) & 1u64 == 0u64);
    }
}



/// The levels of a loaded sub-tile's mipmap in a composed block are as large as its
/// resolution asks.
proof fn lemma_sub_level_sizes(
    slots: Seq<Option<Box<GenericTile>>>,
    w: nat,
    x0: int,
    y0: int,
    grid: int,
    sres: int,
    gx: int,
    gy: int,
    idx: int,
    t: GenericTile,
    m: Seq<Seq<bool>>,
)
    requires
        cells_extract_ok(slots, w, x0, y0, grid, sres, 0, grid * grid),
        grid > 0,
        0 <= gx < grid,
        0 <= gy < grid,
        idx == (x0 + gx) + (y0 + gy) * pow2(w),
        0 <= idx < slots.len(),
        slots[idx] matches Some(b) && *b == t,
        t.extract(0, 0, 0, sres) == Some(m),
    ensures
        forall|j: int| 0 <= j <= sres && j < m.len() ==> #[trigger] m[j].len() >= pow2(2 * (sres - j) as nat),
{
    let c = gy * grid + gx;
    assert(c < grid * grid) by (nonlinear_arith)
        requires
            0 <= gx < grid,
            0 <= gy < grid,
            c == gy * grid + gx,
    ;
    vstd::arithmetic::div_mod::lemma_fundamental_div_mod_converse(c, grid, gy, gx);
    lemma_cells_extract_ok_at(slots, w, x0, y0, grid, sres, 0, grid * grid, c);
    assert(cell_of(x0, y0, grid, c) == (x0 + gx, y0 + gy));
    let cc = cell_of(x0, y0, grid, c);
    assert(cc.0 + cc.1 * pow2(w) == idx);
    let b = slots[idx]->0;
    assert((*b).extract(0, 0, 0, sres) == Some(m));
    assert((*b).extract(0, 0, 0, sres) matches Some(mm) ==> forall|j: int|
        0 <= j <= sres && j < mm.len() ==> #[trigger] mm[j].len() >= pow2(2 * (sres - j) as nat));
}

/// Pixel `i` of level `k` of a composed mipmap, counted only once its sub-tile's square has
/// been handled: every square before `done`, and square `done` itself below level `levels`.
pub open spec fn composed_so_far(
    mips: Seq<Option<Seq<Seq<bool>>>>,
    grid: int,
    sres: nat,
    k: nat,
    i: int,
    done: int,
    levels: int,
) -> bool {
    let s = pow2((sres - k) as nat) as int;
    let side = grid * s;
    let c = (i % side) / s + ((i / side) / s) * grid;
    (c < done || (c == done && k < levels)) && composite_level(mips, grid, sres, k)[i]
}

/// The words of level `k` of a mipmap being composed: enough for the level's pixels, and
/// holding the pixels of the squares handled so far.
pub open spec fn level_ok(
    ws: Seq<usize>,
    mips: Seq<Option<Seq<Seq<bool>>>>,
    grid: int,
    sres: nat,
    res: nat,
    k: nat,
    done: int,
    levels: int,
) -> bool {
    let side = pow2((res - k) as nat) as int;
    let bw = usize::BITS as int;
    &&& side * side <= ws.len() * bw <= side * side + bw
    &&& forall|i: int|
        0 <= i < side * side ==> #[trigger] word_bit(ws, i) == composed_so_far(mips, grid, sres, k, i, done, levels)
}

/// The sizes of level `k` of a composed mipmap.
proof fn lemma_level_sizes(grid: int, span: nat, sres: nat, res: nat, k: nat)
    requires
        grid == pow2(span),
        res == span + sres,
        k <= sres,
    ensures
        pow2((res - k) as nat) == grid * pow2((sres - k) as nat),
        pow2((sres - k) as nat) > 0,
        grid > 0,
{
    vstd::arithmetic::power2::lemma_pow2_adds(span, (sres - k) as nat);
    vstd::arithmetic::power2::lemma_pow2_pos((sres - k) as nat);
    vstd::arithmetic::power2::lemma_pow2_pos(span);
}

/// Handling a square that holds nothing, or whose levels have all been handled, moves on.
proof fn lemma_square_done(
    ws: Seq<usize>,
    mips: Seq<Option<Seq<Seq<bool>>>>,
    grid: int,
    span: nat,
    sres: nat,
    res: nat,
    k: nat,
    done: int,
    levels: int,
)
    requires
        level_ok(ws, mips, grid, sres, res, k, done, levels),
        grid == pow2(span),
        res == span + sres,
        k <= sres,
        0 <= done < mips.len(),
        mips[done] is None || (mips[done] matches Some(m) && (k < levels || k >= m.len())),
    ensures
        level_ok(ws, mips, grid, sres, res, k, done + 1, 0),
{
    lemma_level_sizes(grid, span, sres, res, k);
}

impl GenericTile {
    /// Composite sub-tile mipmaps into a single output mipmap using word-level
    /// bulk copies where alignment permits.
    #[verifier::spinoff_prover]
    fn composite_sub_tile_mipmaps(
        &self,
        x: i64,
        y: i64,
        span_exp: usize,
        sub_res_exp: i16,
        resolution_exp: i16,
    ) -> (r: Option<Vec<BitVec>>)
        requires
            !self.is_leaf,
            span_exp <= self.width_exp,
            0 <= sub_res_exp,
            resolution_exp == span_exp + sub_res_exp,
            self.extract_ok(x as int, y as int, self.width_exp - span_exp, resolution_exp as int),
        ensures
            match r {
                None => self.extract(x as int, y as int, self.width_exp - span_exp, resolution_exp as int) is None,
                Some(v) => self.extract(x as int, y as int, self.width_exp - span_exp, resolution_exp as int) == Some(
                    bit_seqs(v@),
                ),
            },
        decreases self, 0nat,
    {
        let ghost w = self.width_exp as nat;
        let ghost span = span_exp as nat;
        let ghost sres = sub_res_exp as nat;
        let ghost res = resolution_exp as nat;
        let ghost grid = pow2(span) as int;
        let ghost x0 = x * grid;
        let ghost y0 = y * grid;
        let ghost bw = usize::BITS as int;
        let ghost slots = self.sub_tiles@;
        let ghost mips = cell_mips(slots, w, x0, y0, grid, sres as int, 0, grid * grid);
        proof {
            vstd::arithmetic::power2::lemma_pow2_pos(span);
            vstd::arithmetic::power2::lemma_pow2_pos(sres);
            vstd::arithmetic::power2::lemma_pow2_adds(span, sres);
            vstd::bits::lemma_usize_pow2_no_overflow(span);
            vstd::bits::lemma_usize_shl_is_mul(1, span_exp);
            vstd::bits::lemma_usize_pow2_no_overflow(sres);
            vstd::bits::lemma_usize_shl_is_mul(1, sres as usize);
            vstd::bits::lemma_usize_pow2_no_overflow(res);
            vstd::bits::lemma_usize_shl_is_mul(1, res as usize);
            crate::bitmap2d::lemma_grid_size(res);
            lemma_cell_mips_len(slots, w, x0, y0, grid, sres as int, 0, grid * grid);
            assert(grid * grid > 0) by (nonlinear_arith)
                requires
                    grid > 0,
            ;
            assert(window_fits(slots.len(), w, 0, 0, x0, y0, grid, grid));
            assert(cells_extract_ok(slots, w, x0, y0, grid, sres as int, 0, grid * grid));
            vstd::arithmetic::power2::lemma2_to64();
            vstd::arithmetic::power2::lemma2_to64_rest();
            vstd::arithmetic::power2::lemma_pow2_strictly_increases(w, 63);
            if span < w {
                vstd::arithmetic::power2::lemma_pow2_strictly_increases(span, w);
            }
        }
        let grid_side = 1usize << span_exp;
        let span_mul = shl1_i64_exec(span_exp as u32);
        proof {
            assert(span_mul == grid);
            assert(x * grid <= (x + 1) * grid && y * grid <= (y + 1) * grid && 0 <= x * grid && 0 <= y * grid
                && x * grid + grid == (x + 1) * grid && y * grid + grid == (y + 1) * grid) by (nonlinear_arith)
                requires
                    grid > 0,
                    x >= 0,
                    y >= 0,
            ;
        }
        let x_base = x * span_mul;
        let y_base = y * span_mul;
        let sub_side = 1usize << (sub_res_exp as usize);
        let out_side = 1usize << (resolution_exp as usize);
        let num_sub_levels = sub_res_exp as usize + 1;
        let bits_per_word = usize::BITS as usize;
        let mut out_word_vecs: Vec<Vec<usize>> = Vec::new();
        let mut k: usize = 0;
        while k < num_sub_levels
            invariant
                k <= num_sub_levels,
                num_sub_levels == sres + 1,
                out_side == pow2(res),
                grid == pow2(span),
                res == span + sres,
                2 * res < usize::BITS,
                pow2(2 * res) + usize::BITS <= max_bits(),
                bw == usize::BITS as int,
                bits_per_word == bw,
                out_word_vecs@.len() == k,
                forall|kk: nat| kk < k ==> #[trigger] level_ok(out_word_vecs@[kk as int]@, mips, grid, sres, res, kk, 0, 0),
            decreases num_sub_levels - k,
        {
            proof {
                vstd::bits::lemma_usize_shr_is_div(out_side, k);
                vstd::arithmetic::power2::lemma_pow2_adds((res - k) as nat, k as nat);
                vstd::arithmetic::power2::lemma_pow2_pos(k as nat);
                vstd::arithmetic::div_mod::lemma_div_by_multiple(pow2((res - k) as nat) as int, pow2(k as nat) as int);
                crate::bitmap2d::lemma_grid_size((res - k) as nat);
                crate::bitmap2d::lemma_grid_size(res);
                if res - k < res {
                    vstd::arithmetic::power2::lemma_pow2_strictly_increases((2 * (res - k)) as nat, 2 * res);
                }
                vstd::arithmetic::power2::lemma_pow2_adds((res - k) as nat, (res - k) as nat);
            }
            let level_side = out_side >> k;
            let total_bits = level_side * level_side;
            let words = zero_words((total_bits + bits_per_word - 1) / bits_per_word);
            proof {
                let nw = (total_bits + bw - 1) / bw;
                vstd::arithmetic::div_mod::lemma_fundamental_div_mod(total_bits + bw - 1, bw);
                vstd::arithmetic::div_mod::lemma_mod_pos_bound(total_bits + bw - 1, bw);
                assert forall|i: int| 0 <= i < total_bits implies #[trigger] word_bit(words@, i) == composed_so_far(
                    mips,
                    grid,
                    sres,
                    k as nat,
                    i,
                    0,
                    0,
                ) by {
                    vstd::arithmetic::div_mod::lemma_div_is_ordered(i, nw * bw - 1, bw);
                    vstd::arithmetic::div_mod::lemma_fundamental_div_mod_converse(nw * bw - 1, bw, nw - 1, bw - 1);
                    vstd::arithmetic::div_mod::lemma_div_pos_is_pos(i, bw);
                    crate::words::lemma_zero_word_bit(words@, i);
                    lemma_level_sizes(grid, span, sres, res, k as nat);
                    lemma_in_block_iff(i, grid, pow2((sres - k) as nat) as int, 0, 0);
                }
                assert(level_ok(words@, mips, grid, sres, res, k as nat, 0, 0));
            }
            out_word_vecs.push(words);
            k += 1;
        }
        let mut has_any = false;
        let mut gy: usize = 0;
        while gy < grid_side
            invariant
                gy <= grid_side,
                grid_side == grid,
                grid == pow2(span),
                res == span + sres,
                grid > 0,
                x_base == x0,
                y_base == y0,
                x0 + grid <= i64::MAX,
                y0 + grid <= i64::MAX,
                0 <= x0,
                0 <= y0,
                slots == self.sub_tiles@,
                mips == cell_mips(slots, w, x0, y0, grid, sres as int, 0, grid * grid),
                window_fits(slots.len(), w, 0, 0, x0, y0, grid, grid),
                cells_extract_ok(slots, w, x0, y0, grid, sres as int, 0, grid * grid),
                self.extract_ok(x as int, y as int, self.width_exp - span_exp, resolution_exp as int),
                !self.is_leaf,
                w == self.width_exp,
                sres == sub_res_exp,
                res == resolution_exp,
                sub_side == pow2(sres),
                out_side == pow2(res),
                2 * res < usize::BITS,
                pow2(2 * res) + usize::BITS <= max_bits(),
                bw == usize::BITS as int,
                out_word_vecs@.len() == num_sub_levels,
                num_sub_levels == sres + 1,
                mips.len() == grid * grid,
                has_any == exists|c: int| 0 <= c < gy * grid && #[trigger] mips[c] is Some,
                forall|kk: nat| kk <= sres ==> #[trigger] level_ok(out_word_vecs@[kk as int]@, mips, grid, sres, res, kk, gy * grid, 0),
            decreases grid_side - gy,
        {
            let mut gx: usize = 0;
            while gx < grid_side
                invariant
                    gy < grid_side,
                    gx <= grid_side,
                    grid_side == grid,
                    grid == pow2(span),
                    res == span + sres,
                    grid > 0,
                    x_base == x0,
                    y_base == y0,
                    x0 + grid <= i64::MAX,
                    y0 + grid <= i64::MAX,
                    0 <= x0,
                    0 <= y0,
                    slots == self.sub_tiles@,
                    mips == cell_mips(slots, w, x0, y0, grid, sres as int, 0, grid * grid),
                    window_fits(slots.len(), w, 0, 0, x0, y0, grid, grid),
                    cells_extract_ok(slots, w, x0, y0, grid, sres as int, 0, grid * grid),
                window_fits(slots.len(), w, 0, 0, x0, y0, grid, grid),
                cells_extract_ok(slots, w, x0, y0, grid, sres as int, 0, grid * grid),
                    self.extract_ok(x as int, y as int, self.width_exp - span_exp, resolution_exp as int),
                    !self.is_leaf,
                    w == self.width_exp,
                    sres == sub_res_exp,
                    res == resolution_exp,
                    sub_side == pow2(sres),
                    out_side == pow2(res),
                    2 * res < usize::BITS,
                    pow2(2 * res) + usize::BITS <= max_bits(),
                    bw == usize::BITS as int,
                    out_word_vecs@.len() == num_sub_levels,
                    num_sub_levels == sres + 1,
                    mips.len() == grid * grid,
                    has_any == exists|c: int| 0 <= c < gy * grid + gx && #[trigger] mips[c] is Some,
                    forall|kk: nat| kk <= sres ==> #[trigger] level_ok(
                            out_word_vecs@[kk as int]@,
                            mips,
                            grid,
                            sres,
                            res,
                            kk,
                            gy * grid + gx,
                            0,
                        ),
                decreases grid_side - gx,
            {
                let ghost c = gy * grid + gx;
                proof {
                    assert(gy * grid + gx < grid * grid) by (nonlinear_arith)
                        requires
                            gy < grid,
                            gx < grid,
                    ;
                    vstd::arithmetic::div_mod::lemma_fundamental_div_mod_converse(c, grid, gy as int, gx as int);
                    lemma_cell_mips_index(slots, w, x0, y0, grid, sres as int, 0, grid * grid, c);
                    lemma_cells_extract_ok_at(slots, w, x0, y0, grid, sres as int, 0, grid * grid, c);
                    crate::tile_iter::lemma_window_index(
                        slots.len(),
                        w,
                        x0,
                        y0,
                        grid,
                        grid,
                        x0 + gx,
                        y0 + gy,
                    );
                    vstd::arithmetic::power2::lemma2_to64();
                    vstd::arithmetic::power2::lemma2_to64_rest();
                    vstd::arithmetic::power2::lemma_pow2_strictly_increases(w, 63);
                    assert(shl1_i64(w) == pow2(w));
                    assert(self.sub_tiles@.len() == self.sub_tiles.len());
                }
                let sx = x_base + gx as i64;
                let sy = y_base + gy as i64;
                let idx = xy_to_index(sx, sy, self.width_exp);
                proof {
                    assert(idx == (x0 + gx) + (y0 + gy) * pow2(w));
                }
                let mut handled = false;
                if let Some(sub_tile) = &self.sub_tiles[idx] {
                    proof {
                        assert(slots[idx as int] == Some(*sub_tile));
                    }
                    if let Some(sub_mipmap) = sub_tile.extract_mipmap(0, 0, 0, sub_res_exp) {
                        let ghost m = bit_seqs(sub_mipmap@);
                        proof {
                            assert(mips[c] == Some(m));
                            lemma_sub_level_sizes(slots, w, x0, y0, grid, sres as int, gx as int, gy as int, idx as int, **sub_tile, m);
                        }
                        has_any = true;
                        let lim = if num_sub_levels < sub_mipmap.len() {
                            num_sub_levels
                        } else {
                            sub_mipmap.len()
                        };
                        let mut k: usize = 0;
                        while k < lim
                            invariant
                                k <= lim,
                                lim <= num_sub_levels,
                                lim <= sub_mipmap@.len(),
                                lim == num_sub_levels || lim == sub_mipmap@.len(),
                                num_sub_levels == sres + 1,
                                m == bit_seqs(sub_mipmap@),
                                mips.len() == grid * grid,
                                0 <= c < grid * grid,
                                c == gy * grid + gx,
                                gx < grid,
                                gy < grid,
                                mips[c] == Some(m),
                                forall|j: int|
                                    0 <= j <= sres && j < m.len() ==> #[trigger] m[j].len() >= pow2(
                                        2 * (sres - j) as nat,
                                    ),
                                grid == pow2(span),
                                res == span + sres,
                                grid > 0,
                                sub_side == pow2(sres),
                                out_side == pow2(res),
                                2 * res < usize::BITS,
                                bw == usize::BITS as int,
                                out_word_vecs@.len() == num_sub_levels,
                                forall|kk: nat| kk <= sres ==> #[trigger] level_ok(
                                        out_word_vecs@[kk as int]@,
                                        mips,
                                        grid,
                                        sres,
                                        res,
                                        kk,
                                        c,
                                        k as int,
                                    ),
                            decreases lim - k,
                        {
                            let ghost sk = pow2((sres - k) as nat) as int;
                            let ghost side_k = pow2((res - k) as nat) as int;
                            proof {
                                lemma_level_sizes(grid, span, sres, res, k as nat);
                                vstd::bits::lemma_usize_shr_is_div(sub_side, k);
                                vstd::bits::lemma_usize_shr_is_div(out_side, k);
                                vstd::arithmetic::power2::lemma_pow2_adds((sres - k) as nat, k as nat);
                                vstd::arithmetic::power2::lemma_pow2_adds((res - k) as nat, k as nat);
                                vstd::arithmetic::power2::lemma_pow2_pos(k as nat);
                                vstd::arithmetic::div_mod::lemma_div_by_multiple(sk, pow2(k as nat) as int);
                                vstd::arithmetic::div_mod::lemma_div_by_multiple(side_k, pow2(k as nat) as int);
                                vstd::arithmetic::power2::lemma_pow2_adds((sres - k) as nat, (sres - k) as nat);
                                crate::bitmap2d::lemma_grid_size((res - k) as nat);
                                crate::bitmap2d::lemma_grid_size(res);
                                if res - k < res {
                                    vstd::arithmetic::power2::lemma_pow2_strictly_increases((2 * (res - k)) as nat, 2 * res);
                                }
                                vstd::arithmetic::power2::lemma_pow2_adds((res - k) as nat, (res - k) as nat);
                                assert(level_ok(out_word_vecs@[k as int]@, mips, grid, sres, res, k as nat, c, k as int));
                                assert(sk * sk == pow2(2 * (sres - k) as nat));
                                assert((gx + 1) * sk <= side_k && (gy + 1) * sk <= side_k) by (nonlinear_arith)
                                    requires
                                        gx < grid,
                                        gy < grid,
                                        side_k == grid * sk,
                                        sk > 0,
                                ;
                                vstd::arithmetic::div_mod::lemma_fundamental_div_mod_converse(side_k, sk, grid, 0);
                                assert(bits_of(sub_mipmap@[k as int]) == m[k as int]);
                            }
                            let sub_level = &sub_mipmap[k];
                            let sub_level_side = sub_side >> k;
                            let out_level_side = out_side >> k;
                            let mut level_words: Vec<usize> = Vec::new();
                            let ghost vecs0 = out_word_vecs@;
                            std::mem::swap(&mut level_words, &mut out_word_vecs[k]);
                            let ghost before = level_words@;
                            blit_level(&mut level_words, out_level_side, sub_level, sub_level_side, gx, gy);
                            proof {
                                assert forall|i: int| 0 <= i < side_k * side_k implies #[trigger] word_bit(level_words@, i)
                                    == composed_so_far(mips, grid, sres, k as nat, i, c, k + 1) by {
                                    lemma_in_block_iff(i, grid, sk, gx as int, gy as int);
                                    let ox = i % side_k;
                                    let oy = i / side_k;
                                    vstd::arithmetic::div_mod::lemma_fundamental_div_mod(ox, sk);
                                    vstd::arithmetic::div_mod::lemma_fundamental_div_mod(oy, sk);
                                    if in_block(i, side_k, gx * sk, gy * sk, sk) {
                                        assert(ox / sk == gx && oy / sk == gy) by {
                                            vstd::arithmetic::div_mod::lemma_fundamental_div_mod_converse(
                                                ox,
                                                sk,
                                                gx as int,
                                                ox - gx * sk,
                                            );
                                            vstd::arithmetic::div_mod::lemma_fundamental_div_mod_converse(
                                                oy,
                                                sk,
                                                gy as int,
                                                oy - gy * sk,
                                            );
                                        }
                                        assert(sk * gx == gx * sk && sk * gy == gy * sk) by (nonlinear_arith);
                                        assert(block_local(i, side_k, gx * sk, gy * sk, sk) == (ox % sk) + (oy % sk) * sk);
                                    }
                                }
                            }
                            let ghost blitted = level_words@;
                            std::mem::swap(&mut level_words, &mut out_word_vecs[k]);
                            proof {
                                assert(out_word_vecs@[k as int]@ == blitted);
                                assert forall|kk: nat| kk <= sres implies #[trigger] level_ok(
                                    out_word_vecs@[kk as int]@,
                                    mips,
                                    grid,
                                    sres,
                                    res,
                                    kk,
                                    c,
                                    k + 1,
                                ) by {
                                    lemma_level_sizes(grid, span, sres, res, kk);
                                    if kk != k {
                                        assert(out_word_vecs@[kk as int] == vecs0[kk as int]);
                                        assert(level_ok(vecs0[kk as int]@, mips, grid, sres, res, kk, c, k as int));
                                    }
                                }
                            }
                            k += 1;
                        }
                        proof {
                            assert forall|kk: nat| kk <= sres implies #[trigger] level_ok(
                                out_word_vecs@[kk as int]@,
                                mips,
                                grid,
                                sres,
                                res,
                                kk,
                                c + 1,
                                0,
                            ) by {
                                lemma_square_done(out_word_vecs@[kk as int]@, mips, grid, span, sres, res, kk, c, lim as int);
                            }
                        }
                        handled = true;
                    }
                }
                if !handled {
                    proof {
                        assert(mips[c] is None);
                        assert forall|kk: nat| kk <= sres implies #[trigger] level_ok(
                            out_word_vecs@[kk as int]@,
                            mips,
                            grid,
                            sres,
                            res,
                            kk,
                            c + 1,
                            0,
                        ) by {
                            lemma_square_done(out_word_vecs@[kk as int]@, mips, grid, span, sres, res, kk, c, 0);
                        }
                    }
                }
                proof {
                    assert(c + 1 == gy * grid + (gx + 1));
                    assert forall|kk: nat| kk <= sres implies #[trigger] level_ok(
                        out_word_vecs@[kk as int]@,
                        mips,
                        grid,
                        sres,
                        res,
                        kk,
                        gy * grid + (gx + 1),
                        0,
                    ) by {
                        assert(level_ok(out_word_vecs@[kk as int]@, mips, grid, sres, res, kk, c + 1, 0));
                    }
                    if has_any {
                        assert(exists|c2: int| 0 <= c2 < c + 1 && #[trigger] mips[c2] is Some) by {
                            if mips[c] is Some {
                                assert(mips[c] is Some);
                            } else {
                                let c2 = choose|c2: int| 0 <= c2 < c && #[trigger] mips[c2] is Some;
                                assert(mips[c2] is Some);
                            }
                        }
                    } else {
                        assert(!exists|c2: int| 0 <= c2 < c + 1 && #[trigger] mips[c2] is Some);
                    }
                }
                gx += 1;
            }
            proof {
                assert((gy + 1) * grid == gy * grid + grid) by (nonlinear_arith);
            }
            gy += 1;
        }
        proof {
            assert(grid * grid == grid_side * grid);
        }
        if !has_any {
            proof {
                assert forall|i: int| 0 <= i < mips.len() implies #[trigger] mips[i] is None by {
                    if mips[i] is Some {
                        assert(exists|c: int| 0 <= c < gy * grid && #[trigger] mips[c] is Some);
                    }
                }
            }
            return None;
        }
        let mut out_mipmap: Vec<BitVec> = Vec::new();
        let mut k: usize = 0;
        while k < num_sub_levels
            invariant
                k <= num_sub_levels,
                num_sub_levels == sres + 1,
                grid == pow2(span),
                res == span + sres,
                grid > 0,
                out_side == pow2(res),
                2 * res < usize::BITS,
                pow2(2 * res) + usize::BITS <= max_bits(),
                bw == usize::BITS as int,
                mips.len() == grid * grid,
                out_word_vecs@.len() == num_sub_levels,
                forall|kk: nat| k <= kk <= sres ==> #[trigger] level_ok(out_word_vecs@[kk as int]@, mips, grid, sres, res, kk, grid * grid, 0),
                out_mipmap@.len() == k,
                forall|kk: int| 0 <= kk < k ==> #[trigger] bits_of(out_mipmap@[kk]) == composite_level(mips, grid, sres, kk as nat),
            decreases num_sub_levels - k,
        {
            let ghost side_k = pow2((res - k) as nat) as int;
            let ghost sk = pow2((sres - k) as nat) as int;
            proof {
                lemma_level_sizes(grid, span, sres, res, k as nat);
                vstd::bits::lemma_usize_shr_is_div(out_side, k);
                vstd::arithmetic::power2::lemma_pow2_adds((res - k) as nat, k as nat);
                vstd::arithmetic::power2::lemma_pow2_pos(k as nat);
                vstd::arithmetic::div_mod::lemma_div_by_multiple(side_k, pow2(k as nat) as int);
                crate::bitmap2d::lemma_grid_size((res - k) as nat);
                crate::bitmap2d::lemma_grid_size(res);
                if res - k < res {
                    vstd::arithmetic::power2::lemma_pow2_strictly_increases((2 * (res - k)) as nat, 2 * res);
                }
                vstd::arithmetic::power2::lemma_pow2_adds((res - k) as nat, (res - k) as nat);
                assert(level_ok(out_word_vecs@[k as int]@, mips, grid, sres, res, k as nat, grid * grid, 0));
            }
            let level_side = out_side >> k;
            let mut words: Vec<usize> = Vec::new();
            let ghost vecs0 = out_word_vecs@;
            std::mem::swap(&mut words, &mut out_word_vecs[k]);
            proof {
                assert(words@ == vecs0[k as int]@);
                assert(words@.len() * (usize::BITS as nat) <= max_bits());
            }
            let mut bv = ext_from_vec(words);
            ext_truncate(&mut bv, level_side * level_side);
            proof {
                assert forall|i: int| 0 <= i < side_k * side_k implies #[trigger] bits_of(bv)[i] == composite_level(
                    mips,
                    grid,
                    sres,
                    k as nat,
                )[i] by {
                    lemma_in_block_iff(i, grid, sk, 0, 0);
                    let qx = (i % side_k) / sk;
                    let qy = (i / side_k) / sk;
                    assert(qx + qy * grid < grid * grid) by (nonlinear_arith)
                        requires
                            0 <= qx < grid,
                            0 <= qy < grid,
                    ;
                    assert(word_bit(vecs0[k as int]@, i) == composed_so_far(mips, grid, sres, k as nat, i, grid * grid, 0));
                }
                assert(bits_of(bv) =~= composite_level(mips, grid, sres, k as nat));
                assert forall|kk: nat| k + 1 <= kk <= sres implies #[trigger] level_ok(
                    out_word_vecs@[kk as int]@,
                    mips,
                    grid,
                    sres,
                    res,
                    kk,
                    grid * grid,
                    0,
                ) by {
                    assert(out_word_vecs@[kk as int] == vecs0[kk as int]);
                }
            }
            out_mipmap.push(bv);
            k += 1;
        }
        let ghost comp = Seq::new(sres + 1, |k: int| composite_level(mips, grid, sres, k as nat));
        let last_level = out_mipmap[num_sub_levels - 1].clone();
        proof {
            vstd::bits::lemma_usize_shr_is_div(out_side, (num_sub_levels - 1) as usize);
            vstd::arithmetic::div_mod::lemma_div_by_multiple(grid, pow2(sres) as int);
            vstd::bits::lemma_u64_shl_is_mul(1, span as u64);
            lemma_trailing_zeros_pow2(span as u64);
            lemma_level_sizes(grid, span, sres, res, sres);
            assert(bits_of(last_level) == comp[sres as int]);
        }
        let last_exp = ((out_side >> (num_sub_levels - 1)) as u64).trailing_zeros() as u8;
        proof {
            assert(last_exp == span);
        }
        if last_exp > 0 {
            proof {
                crate::bitmap2d::lemma_grid_size(span);
                vstd::arithmetic::power2::lemma_pow2_adds(span, span);
            }
            let mut tail_bm = BitMap2D::from_bitvec(last_exp, last_level);
            tail_bm.build_lods();
            let lods = tail_bm.lod_levels();
            let mut j: usize = 0;
            while j < lods.len()
                invariant
                    j <= lods@.len(),
                    lods@.map_values(|b: BitVec| bits_of(b)) == tail_bm.lods_view(),
                    tail_bm.lods_view().len() == span,
                    forall|t: int| 0 <= t < span ==> #[trigger] tail_bm.lods_view()[t] == pyramid_level(comp[sres as int], span, (t + 1) as nat),
                    out_mipmap@.len() == sres + 1 + j,
                    forall|kk: int| 0 <= kk <= sres ==> #[trigger] bits_of(out_mipmap@[kk]) == comp[kk],
                    forall|t: int| 0 <= t < j ==> #[trigger] bits_of(out_mipmap@[sres + 1 + t]) == pyramid_level(comp[sres as int], span, (t + 1) as nat),
                decreases lods@.len() - j,
            {
                proof {
                    assert(bits_of(lods@[j as int]) == tail_bm.lods_view()[j as int]);
                }
                out_mipmap.push(lods[j].clone());
                j += 1;
            }
            proof {
                let target = composite(mips, span, sres);
                assert(target.len() == out_mipmap@.len());
                assert forall|i: int| 0 <= i < target.len() implies #[trigger] bit_seqs(out_mipmap@)[i] == target[i] by {
                    if i > sres {
                        assert(bits_of(out_mipmap@[sres + 1 + (i - sres - 1)]) == pyramid_level(comp[sres as int], span, (i - sres) as nat));
                    }
                }
                assert(bit_seqs(out_mipmap@) =~= composite(mips, span, sres));
            }
        } else {
            proof {
                assert(bit_seqs(out_mipmap@) =~= composite(mips, span, sres));
            }
        }
        proof {
            assert(exists|c: int| 0 <= c < mips.len() && #[trigger] mips[c] is Some) by {
                let c = choose|c: int| 0 <= c < gy * grid && #[trigger] mips[c] is Some;
                assert(mips[c] is Some);
            }
        }
        Some(out_mipmap)
    }
}

impl GenericTile {
    /// Extract a tile's mipmap pyramid for `(x, y, z, resolution_exp)` in LSB order.
    ///
    /// Returns `None` when the extracted tile is empty.
    pub fn extract_mipmap(&self, x: i64, y: i64, z: i16, resolution_exp: i16) -> (r: Option<Vec<BitVec>>)
        requires
            self.extract_ok(x as int, y as int, z as int, resolution_exp as int),
        ensures
            match r {
                None => self.extract(x as int, y as int, z as int, resolution_exp as int) is None,
                Some(v) => self.extract(x as int, y as int, z as int, resolution_exp as int) == Some(bit_seqs(v@)),
            },
        decreases self, 1nat,
    {
        // Deep zoom: navigate the tree
        if z > self.width_exp {
            if self.is_leaf {
                return None;
            }
            let child_z = z - self.width_exp;
            let ghost p = pow2(child_z as nat) as int;
            proof {
                vstd::arithmetic::power2::lemma_pow2_pos(child_z as nat);
                vstd::bits::lemma_u64_shr_is_div(x as u64, child_z as u64);
                vstd::bits::lemma_u64_shr_is_div(y as u64, child_z as u64);
            }
            let tile_x = ((x as u64) >> (child_z as u64)) as i64;
            let tile_y = ((y as u64) >> (child_z as u64)) as i64;
            proof {
                vstd::arithmetic::div_mod::lemma_fundamental_div_mod(x as int, p);
                vstd::arithmetic::div_mod::lemma_fundamental_div_mod(y as int, p);
                vstd::arithmetic::div_mod::lemma_mod_pos_bound(x as int, p);
                vstd::arithmetic::div_mod::lemma_mod_pos_bound(y as int, p);
                let qx = (x as int) / p;
                let qy = (y as int) / p;
                assert(qx * p <= x && qx * p == p * qx) by (nonlinear_arith)
                    requires
                        x == p * qx + (x as int) % p,
                        0 <= (x as int) % p,
                ;
                assert(qy * p <= y && qy * p == p * qy) by (nonlinear_arith)
                    requires
                        y == p * qy + (y as int) % p,
                        0 <= (y as int) % p,
                ;
                vstd::bits::lemma_u64_shl_is_mul(tile_x as u64, child_z as u64);
                vstd::bits::lemma_u64_shl_is_mul(tile_y as u64, child_z as u64);
            }
            let child_x = x - (((tile_x as u64) << (child_z as u64)) as i64);
            let child_y = y - (((tile_y as u64) << (child_z as u64)) as i64);
            proof {
                vstd::arithmetic::power2::lemma_pow2_strictly_increases(self.width_exp as nat, 63);
                vstd::arithmetic::power2::lemma2_to64();
                vstd::arithmetic::power2::lemma2_to64_rest();
                assert(shl1_i64(self.width_exp as nat) == pow2(self.width_exp as nat));
                assert(self.sub_tiles@.len() == self.sub_tiles.len());
            }
            let idx = xy_to_index(tile_x, tile_y, self.width_exp);
            return match &self.sub_tiles[idx] {
                Some(sub_tile) => {
                    proof {
                        assert(self.sub_tiles@[idx as int] == Some(*sub_tile));
                    }
                    sub_tile.extract_mipmap(child_x, child_y, child_z, resolution_exp)
                },
                None => None,
            };
        }
        // A whole leaf: reuse its mipmap levels directly
        if self.is_leaf && z == 0 {
            if resolution_exp <= self.width_exp {
                let bm = match &self.bitmap {
                    Some(bm) => bm,
                    None => return None,
                };
                let level_offset = (self.width_exp - resolution_exp) as usize;
                let n_levels = bm.num_levels();
                if level_offset >= n_levels {
                    return None;
                }
                let level = bm.level_at_offset(level_offset).unwrap();
                if ext_not_any(level) {
                    proof {
                        if any_set(bm.levels_view()[level_offset as int]) {
                            let i = choose|i: int|
                                0 <= i < bm.levels_view()[level_offset as int].len()
                                    && bm.levels_view()[level_offset as int][i];
                            assert(!bits_of(*level)[i]);
                        }
                    }
                    return None;
                }
                let mut out: Vec<BitVec> = Vec::new();
                let mut k = level_offset;
                while k < n_levels
                    invariant
                        level_offset <= k <= n_levels,
                        n_levels == bm.levels_view().len(),
                        out@.len() == k - level_offset,
                        forall|j: int|
                            0 <= j < k - level_offset ==> #[trigger] bits_of(out@[j]) == bm.levels_view()[level_offset
                                + j],
                    decreases n_levels - k,
                {
                    let lv = bm.level_at_offset(k).unwrap();
                    out.push(lv.clone());
                    k += 1;
                }
                proof {
                    assert(bit_seqs(out@) =~= bm.levels_view().subrange(level_offset as int, n_levels as int));
                    assert(any_set(bm.levels_view()[level_offset as int])) by {
                        let i = choose|i: int| 0 <= i < bits_of(*level).len() && bits_of(*level)[i];
                        assert(bm.levels_view()[level_offset as int][i]);
                    }
                }
                return Some(out);
            }
            // resolution_exp > width_exp: oversample leaf data
            return self.oversample_leaf_mipmap(resolution_exp);
        }
        // An inner tile at or above its grid: composite sub-tile mipmaps
        if !self.is_leaf {
            let span_exp = (self.width_exp - z) as usize;
            let sub_res_exp = resolution_exp as isize - span_exp as isize;
            if sub_res_exp >= 0 {
                return self.composite_sub_tile_mipmaps(x, y, span_exp, sub_res_exp as i16, resolution_exp);
            }
        }
        // Fallback: the pyramid of the pixels
        let ghost res = resolution_exp as nat;
        let ghost all = self.pixels(0, 0, x as int, y as int, z as int, resolution_exp as int);
        proof {
            vstd::bits::lemma_usize_pow2_no_overflow(res);
            vstd::bits::lemma_usize_shl_is_mul(1, res as usize);
            crate::bitmap2d::lemma_grid_size(res);
            self.lemma_fallback_pixels_bounded(x as int, y as int, z as int, resolution_exp as int);
        }
        let side = 1usize << (resolution_exp as usize);
        let mut level0 = ext_repeat(false, side * side);
        let mut iter = self.iter_pixels(0, 0, x, y, z, resolution_exp);
        let ghost mut consumed: Seq<(int, int)> = Seq::empty();
        proof {
            assert(bits_of(level0) =~= raster(consumed, res));
        }
        loop
            invariant
                iter.wf(),
                side == pow2(res),
                side * side == pow2(2 * res),
                2 * res < usize::BITS,
                res == resolution_exp,
                bits_of(level0).len() == side * side,
                all == self.pixels(0, 0, x as int, y as int, z as int, resolution_exp as int),
                forall|j: int| 0 <= j < all.len() ==> 0 <= (#[trigger] all[j]).0 < side && 0 <= all[j].1 < side,
                consumed + iter.remaining() == all,
                bits_of(level0) == raster(consumed, res),
            ensures
                bits_of(level0) == raster(all, res),
            decreases iter.remaining().len(),
        {
            let ghost rem = iter.remaining();
            match iter.next() {
                Some(pixel) => {
                    let (px, py) = pixel;
                    proof {
                        assert(all[consumed.len() as int] == rem[0]);
                        vstd::arithmetic::power2::lemma2_to64();
                        vstd::arithmetic::power2::lemma2_to64_rest();
                        if res < 63 {
                            vstd::arithmetic::power2::lemma_pow2_strictly_increases(res, 63);
                        }
                        assert(py * side + px < side * side) by (nonlinear_arith)
                            requires
                                0 <= px < side,
                                0 <= py < side,
                        ;
                        assert(0 <= py * side) by (nonlinear_arith)
                            requires
                                0 <= py,
                                0 <= side,
                        ;
                        assert(shl1_i64(res) == side);
                    }
                    let idx = xy_to_index(px, py, resolution_exp);
                    let ghost before = bits_of(level0);
                    ext_set(&mut level0, idx, true);
                    proof {
                        let p = (px as int, py as int);
                        let c2 = consumed.push(p);
                        assert(idx == px + py * side);
                        vstd::arithmetic::div_mod::lemma_fundamental_div_mod_converse(
                            idx as int,
                            side as int,
                            py as int,
                            px as int,
                        );
                        assert forall|i: int| 0 <= i < side * side implies #[trigger] bits_of(level0)[i] == raster(
                            c2,
                            res,
                        )[i] by {
                            let q = (i % (side as int), i / (side as int));
                            vstd::arithmetic::div_mod::lemma_fundamental_div_mod(i, side as int);
                            assert(bits_of(level0)[i] == (i == idx || before[i]));
                            assert(before[i] == consumed.contains(q));
                            if q == p {
                                assert(side * q.1 == q.1 * side) by (nonlinear_arith);
                                assert(i == idx);
                                assert(c2[c2.len() - 1] == q);
                            } else {
                                assert(i != idx);
                                if c2.contains(q) {
                                    let j = choose|j: int| 0 <= j < c2.len() && c2[j] == q;
                                    assert(consumed[j] == q);
                                }
                                if consumed.contains(q) {
                                    let j = choose|j: int| 0 <= j < consumed.len() && consumed[j] == q;
                                    assert(c2[j] == q);
                                }
                            }
                        }
                        assert(bits_of(level0) =~= raster(c2, res));
                        assert(c2 + iter.remaining() =~= all);
                        consumed = c2;
                    }
                },
                None => {
                    proof {
                        assert(consumed =~= all);
                    }
                    break;
                },
            }
        }
        if ext_not_any(&level0) {
            proof {
                if any_set(raster(all, res)) {
                    let i = choose|i: int| 0 <= i < raster(all, res).len() && raster(all, res)[i];
                    assert(!bits_of(level0)[i]);
                }
            }
            return None;
        }
        proof {
            assert(any_set(raster(all, res))) by {
                let i = choose|i: int| 0 <= i < bits_of(level0).len() && bits_of(level0)[i];
                assert(raster(all, res)[i]);
            }
        }
        let levels = Self::build_leaf_mipmap_from_level0(resolution_exp, level0);
        Some(levels)
    }

    /// The pixels that the fallback of `extract` rasterizes lie within the tile.
    proof fn lemma_fallback_pixels_bounded(self, x: int, y: int, z: int, res: int)
        requires
            self.pixels_ok(0, 0, x, y, z, res),
            z <= self.width_exp,
            self.is_leaf || z + res < self.width_exp,
        ensures
            forall|j: int|
                0 <= j < self.pixels(0, 0, x, y, z, res).len() ==> {
                    let p = #[trigger] self.pixels(0, 0, x, y, z, res)[j];
                    0 <= p.0 < pow2(res as nat) && 0 <= p.1 < pow2(res as nat)
                },
    {
        let w = self.width_exp as int;
        vstd::arithmetic::power2::lemma_pow2_pos(res as nat);
        if z + res <= w {
            let s = pow2(res as nat) as int;
            assert(s * s >= 0) by (nonlinear_arith);
            let bm = self.bitmap->0;
            lemma_window_bounds(bm.levels_view()[w - res - z], (z + res) as nat, 0, 0, x * s, y * s, s, 0, s * s);
        } else {
            let side = pow2((w - z) as nat) as int;
            let sres = z + res - w;
            vstd::arithmetic::power2::lemma_pow2_pos((w - z) as nat);
            vstd::arithmetic::power2::lemma_pow2_adds((w - z) as nat, sres as nat);
            let bm = self.bitmap->0;
            lemma_overscan_bounds(bm.base(), w as nat, 0, 0, x * side, y * side, side, sres as nat, 0, side * side);
        }
    }
}


/// Laws of the row-major cell index: for a cell of a `2^width_exp`-wide grid,
/// `index_to_xy` gives back the coordinates that `xy_to_index` was given, and every
/// index is the index of the coordinates `index_to_xy` gives.
pub proof fn lemma_xy_index_roundtrip(x: int, y: int, index: int, width_exp: nat)
    requires
        width_exp < 63,
        0 <= x < pow2(width_exp),
        0 <= y,
        0 <= index,
    ensures
        xy_index_i64(x, y, width_exp) % (pow2(width_exp) as int) == x,
        xy_index_i64(x, y, width_exp) / (pow2(width_exp) as int) == y,
        xy_index_i64(index % (pow2(width_exp) as int), index / (pow2(width_exp) as int), width_exp) == index,
{
    let p = pow2(width_exp) as int;
    vstd::arithmetic::power2::lemma_pow2_pos(width_exp);
    assert(shl1_i64(width_exp) == p);
    vstd::arithmetic::div_mod::lemma_fundamental_div_mod_converse(x + y * p, p, y, x);
    vstd::arithmetic::div_mod::lemma_fundamental_div_mod(index, p);
    assert(p * (index / p) == (index / p) * p) by (nonlinear_arith);
}

/// Laws of the sub-tile slots: after `set_sub_tile` at a cell, `get_sub_tile` there gives
/// the tile set and every other cell is as before; after `evict_sub_tile` the cell holds
/// nothing and every other cell is as before.
pub proof fn lemma_set_get_evict_sub_tile(
    before: GenericTile,
    after_set: GenericTile,
    after_evict: GenericTile,
    x: int,
    y: int,
    tile: GenericTile,
    qx: int,
    qy: int,
)
    requires
        before.valid_slot(x, y),
        before.valid_slot(qx, qy),
        after_set.exp() == before.exp(),
        after_set.slots() == before.slots().update(before.slot_of(x, y), Some(tile)),
        after_evict.exp() == after_set.exp(),
        after_evict.slots() == after_set.slots().update(after_set.slot_of(x, y), None),
    ensures
        after_set.slots()[after_set.slot_of(x, y)] == Some(tile),
        after_evict.slots()[after_evict.slot_of(x, y)] is None,
        before.slot_of(qx, qy) != before.slot_of(x, y) ==> {
            &&& after_set.slots()[after_set.slot_of(qx, qy)] == before.slots()[before.slot_of(qx, qy)]
            &&& after_evict.slots()[after_evict.slot_of(qx, qy)] == before.slots()[before.slot_of(qx, qy)]
        },
{
    assert(before.slots().len() == before.sub_tiles@.len());
}

impl GenericTile {
    /// A leaf never needs a sub-tile, whatever the query.
    pub proof fn lemma_leaf_needs_nothing(self, x: int, y: int, z: int, res: int)
        requires
            self.leaf(),
        ensures
            self.missing(x, y, z, res) == Seq::<MissingSubTile>::empty(),
    {
    }

    /// A query that the tile's own grid resolves (`z + res <= width_exp`) needs no sub-tile.
    pub proof fn lemma_coarse_query_needs_nothing(self, x: int, y: int, z: int, res: int)
        requires
            z + res <= self.exp(),
        ensures
            self.missing(x, y, z, res) == Seq::<MissingSubTile>::empty(),
    {
    }
}


impl GenericTile {
    /// Two trees hold the same thing: the same exponent and leaf flag, mipmaps with the same
    /// exponent and levels (or both none), and slots that are loaded in the same places with
    /// sub-trees that agree in turn.
    pub closed spec fn agrees(self, other: GenericTile) -> bool
        decreases self,
    {
        &&& self.width_exp == other.width_exp
        &&& self.is_leaf == other.is_leaf
        &&& match (self.bitmap, other.bitmap) {
            (Some(a), Some(b)) => a.exp() == b.exp() && a.levels_view() == b.levels_view(),
            (None, None) => true,
            _ => false,
        }
        &&& self.sub_tiles@.len() == other.sub_tiles@.len()
        &&& forall|i: int|
            0 <= i < self.sub_tiles@.len() ==> match (#[trigger] self.sub_tiles@[i], other.sub_tiles@[i]) {
                (Some(a), Some(b)) => (*a).agrees(*b),
                (None, None) => true,
                _ => false,
            }
    }
}

impl Clone for GenericTile {
    fn clone(&self) -> (r: Self)
        ensures
            self.agrees(r),
        decreases self,
    {
        let mut sub_tiles: Vec<Option<Box<GenericTile>>> = Vec::new();
        let mut i: usize = 0;
        while i < self.sub_tiles.len()
            invariant
                i <= self.sub_tiles@.len(),
                sub_tiles@.len() == i,
                forall|j: int|
                    0 <= j < i ==> match (#[trigger] self.sub_tiles@[j], sub_tiles@[j]) {
                        (Some(a), Some(b)) => (*a).agrees(*b),
                        (None, None) => true,
                        _ => false,
                    },
            decreases self.sub_tiles.len() - i,
        {
            match &self.sub_tiles[i] {
                Some(b) => {
                    let c = (&**b).clone();
                    sub_tiles.push(Some(Box::new(c)));
                },
                None => {
                    sub_tiles.push(None);
                },
            }
            i += 1;
        }
        let bitmap = match &self.bitmap {
            Some(bm) => Some(bm.clone()),
            None => None,
        };
        GenericTile { sub_tiles, bitmap, width_exp: self.width_exp, is_leaf: self.is_leaf }
    }
}


/// Law of pixel listing: every pixel of a query lies inside the queried tile, that is
/// within `2^res` of the start `(sx, sy)` on each axis.
pub proof fn lemma_pixels_in_tile(t: GenericTile, sx: int, sy: int, x: int, y: int, z: int, res: int)
    requires
        t.pixels_ok(sx, sy, x, y, z, res),
    ensures
        forall|j: int|
            0 <= j < t.pixels(sx, sy, x, y, z, res).len() ==> {
                let p = #[trigger] t.pixels(sx, sy, x, y, z, res)[j];
                sx <= p.0 < sx + pow2(res as nat) && sy <= p.1 < sy + pow2(res as nat)
            },
    decreases t, 1nat,
{
    t.lemma_pixels_in_tile_step(sx, sy, x, y, z, res);
}

/// The pixels of cells `k..n` of a window of slots lie within the window's blocks.
proof fn lemma_sub_pixels_in_window(
    slots: Seq<Option<Box<GenericTile>>>,
    w: nat,
    sx: int,
    sy: int,
    x0: int,
    y0: int,
    side: int,
    sres: int,
    k: int,
    n: int,
)
    requires
        side > 0,
        0 <= sres,
        0 <= k,
        n <= side * side,
        sub_ok_from(slots, w, sx, sy, x0, y0, side, sres, k, n),
    ensures
        forall|j: int|
            0 <= j < sub_pixels_from(slots, w, sx, sy, x0, y0, side, sres, k, n).len() ==> {
                let p = #[trigger] sub_pixels_from(slots, w, sx, sy, x0, y0, side, sres, k, n)[j];
                sx <= p.0 < sx + side * pow2(sres as nat) && sy <= p.1 < sy + side * pow2(sres as nat)
            },
    decreases slots, n - k,
{
    if k < n {
        lemma_sub_pixels_in_window(slots, w, sx, sy, x0, y0, side, sres, k + 1, n);
        crate::tile_iter::lemma_cell_in_window(x0, y0, side, side, k);
        let c = cell_of(x0, y0, side, k);
        let idx = c.0 + c.1 * pow2(w);
        let p = pow2(sres as nat) as int;
        vstd::arithmetic::power2::lemma_pow2_pos(sres as nat);
        assert((c.0 - x0) * p + p <= side * p && (c.1 - y0) * p + p <= side * p && 0 <= (c.0 - x0) * p && 0 <= (
        c.1 - y0) * p) by (nonlinear_arith)
            requires
                0 <= c.0 - x0 < side,
                0 <= c.1 - y0 < side,
                p > 0,
        ;
        let head = if 0 <= idx < slots.len() {
            match slots[idx] {
                Some(b) => (*b).pixels(sx + (c.0 - x0) * p, sy + (c.1 - y0) * p, 0, 0, 0, sres),
                None => Seq::empty(),
            }
        } else {
            Seq::empty()
        };
        if 0 <= idx < slots.len() {
            if let Some(b) = slots[idx] {
                lemma_pixels_in_tile(*b, sx + (c.0 - x0) * p, sy + (c.1 - y0) * p, 0, 0, 0, sres);
            }
        }
        let rest = sub_pixels_from(slots, w, sx, sy, x0, y0, side, sres, k + 1, n);
        assert(sub_pixels_from(slots, w, sx, sy, x0, y0, side, sres, k, n) == head + rest);
        assert forall|j: int| 0 <= j < (head + rest).len() implies {
            let q = #[trigger] (head + rest)[j];
            sx <= q.0 < sx + side * p && sy <= q.1 < sy + side * p
        } by {
            if j >= head.len() {
                assert((head + rest)[j] == rest[j - head.len()]);
            } else {
                assert((head + rest)[j] == head[j]);
            }
        }
    }
}

impl GenericTile {
    proof fn lemma_pixels_in_tile_step(self, sx: int, sy: int, x: int, y: int, z: int, res: int)
        requires
            self.pixels_ok(sx, sy, x, y, z, res),
        ensures
            forall|j: int|
                0 <= j < self.pixels(sx, sy, x, y, z, res).len() ==> {
                    let p = #[trigger] self.pixels(sx, sy, x, y, z, res)[j];
                    sx <= p.0 < sx + pow2(res as nat) && sy <= p.1 < sy + pow2(res as nat)
                },
        decreases self, 0nat,
    {
        let w = self.width_exp as int;
        let px = self.pixels(sx, sy, x, y, z, res);
        let r = pow2(res as nat) as int;
        vstd::arithmetic::power2::lemma_pow2_pos(res as nat);
        if z + res <= w {
            let s = pow2(res as nat) as int;
            assert(s * s >= 0) by (nonlinear_arith);
            let bm = self.bitmap->0;
            lemma_window_bounds(bm.levels_view()[w - res - z], (z + res) as nat, sx, sy, x * s, y * s, s, 0, s * s);
            assert(px == window_from(bm.levels_view()[w - res - z], (z + res) as nat, sx, sy, x * s, y * s, s, 0, s * s));
        } else if z <= w {
            let side = pow2((w - z) as nat) as int;
            let sres = z + res - w;
            vstd::arithmetic::power2::lemma_pow2_pos((w - z) as nat);
            vstd::arithmetic::power2::lemma_pow2_adds((w - z) as nat, sres as nat);
            assert(((w - z) as nat + sres as nat) as nat == res as nat);
            assert(side * pow2(sres as nat) == r);
            assert(side * side >= 0) by (nonlinear_arith);
            if self.is_leaf {
                let bm = self.bitmap->0;
                lemma_overscan_bounds(bm.base(), w as nat, sx, sy, x * side, y * side, side, sres as nat, 0, side * side);
                assert(px == overscan_from(bm.base(), w as nat, sx, sy, x * side, y * side, side, sres as nat, 0, side * side));
            } else {
                lemma_sub_pixels_in_window(
                    self.sub_tiles@,
                    w as nat,
                    sx,
                    sy,
                    x * side,
                    y * side,
                    side,
                    sres,
                    0,
                    side * side,
                );
                assert(px == sub_pixels_from(self.sub_tiles@, w as nat, sx, sy, x * side, y * side, side, sres, 0, side * side));
            }
        } else {
            let cz = (z - w) as nat;
            let p = pow2(cz) as int;
            let idx = x / p + (y / p) * pow2(w as nat);
            if let Some(b) = self.sub_tiles@[idx] {
                lemma_pixels_in_tile(*b, sx, sy, x % p, y % p, cz as int, res);
                assert(px == (*b).pixels(sx, sy, x % p, y % p, cz as int, res));
            } else {
                assert(px == Seq::<(int, int)>::empty());
            }
        }
    }
}


/// The pixels of a list that fall in the `2^e`-wide square at `(sx, sy)`, as a row-major grid.
pub open spec fn raster_at(pixels: Seq<(int, int)>, sx: int, sy: int, e: nat) -> Seq<bool> {
    let s = pow2(e) as int;
    Seq::new((s * s) as nat, |i: int| pixels.contains((sx + i % s, sy + i / s)))
}

/// Cells `c` and `(a, b)` of a `side`-wide grid are the same cell exactly when
/// `c == a + b * side`.
proof fn lemma_cell_is(c: int, side: int, a: int, b: int)
    requires
        side > 0,
        0 <= c,
        0 <= a < side,
        0 <= b,
    ensures
        (c % side == a && c / side == b) == (c == a + b * side),
{
    vstd::arithmetic::div_mod::lemma_fundamental_div_mod(c, side);
    if c == a + b * side {
        vstd::arithmetic::div_mod::lemma_fundamental_div_mod_converse(c, side, b, a);
    }
    if c % side == a && c / side == b {
        assert(side * b == b * side) by (nonlinear_arith);
    }
}

/// Which placed pixels cells `k..n` of a window list: those of set cells.
proof fn lemma_window_contains(
    bits: Seq<bool>,
    e: nat,
    sx: int,
    sy: int,
    x0: int,
    y0: int,
    side: int,
    k: int,
    n: int,
    a: int,
    b: int,
)
    requires
        side > 0,
        0 <= k,
        0 <= a < side,
        0 <= b,
    ensures
        window_from(bits, e, sx, sy, x0, y0, side, k, n).contains((sx + a, sy + b)) == (k <= a + b * side < n
            && bits[(x0 + a) + (y0 + b) * pow2(e)]),
    decreases n - k,
{
    let q = (sx + a, sy + b);
    if k < n {
        lemma_window_contains(bits, e, sx, sy, x0, y0, side, k + 1, n, a, b);
        lemma_cell_is(k, side, a, b);
        let c = cell_of(x0, y0, side, k);
        let head = if bits[c.0 + c.1 * pow2(e)] {
            seq![(sx + c.0 - x0, sy + c.1 - y0)]
        } else {
            Seq::empty()
        };
        let rest = window_from(bits, e, sx, sy, x0, y0, side, k + 1, n);
        assert(window_from(bits, e, sx, sy, x0, y0, side, k, n) == head + rest);
        if k == a + b * side {
            assert(c == (x0 + a, y0 + b));
            assert(head.contains(q) == bits[(x0 + a) + (y0 + b) * pow2(e)]) by {
                if bits[(x0 + a) + (y0 + b) * pow2(e)] {
                    assert(head[0] == q);
                }
            }
        } else {
            assert(!head.contains(q)) by {
                if head.contains(q) {
                    assert(head[0] == q);
                }
            }
        }
        if (head + rest).contains(q) {
            let j = choose|j: int| 0 <= j < (head + rest).len() && (head + rest)[j] == q;
            if j >= head.len() {
                assert(rest[j - head.len()] == q);
            }
        }
        if head.contains(q) {
            assert((head + rest)[0] == q);
        }
        if rest.contains(q) {
            let j = choose|j: int| 0 <= j < rest.len() && rest[j] == q;
            assert((head + rest)[head.len() + j] == q);
        }
    }
}

/// Which placed pixels cells `k..n` of a block list: all of them.
proof fn lemma_block_contains(sx: int, sy: int, x0: int, y0: int, side: int, k: int, n: int, a: int, b: int)
    requires
        side > 0,
        0 <= k,
        0 <= a < side,
        0 <= b,
    ensures
        block_from(sx, sy, x0, y0, side, k, n).contains((sx + x0 + a, sy + y0 + b)) == (k <= a + b * side < n),
    decreases n - k,
{
    let q = (sx + x0 + a, sy + y0 + b);
    if k < n {
        lemma_block_contains(sx, sy, x0, y0, side, k + 1, n, a, b);
        lemma_cell_is(k, side, a, b);
        let c = cell_of(x0, y0, side, k);
        let head = seq![(sx + c.0, sy + c.1)];
        let rest = block_from(sx, sy, x0, y0, side, k + 1, n);
        assert(block_from(sx, sy, x0, y0, side, k, n) == head + rest);
        if k == a + b * side {
            assert(head[0] == q);
        } else {
            assert(!head.contains(q)) by {
                if head.contains(q) {
                    assert(head[0] == q);
                }
            }
        }
        if (head + rest).contains(q) {
            let j = choose|j: int| 0 <= j < (head + rest).len() && (head + rest)[j] == q;
            if j >= head.len() {
                assert(rest[j - head.len()] == q);
            }
        }
        if head.contains(q) {
            assert((head + rest)[0] == q);
        }
        if rest.contains(q) {
            let j = choose|j: int| 0 <= j < rest.len() && rest[j] == q;
            assert((head + rest)[head.len() + j] == q);
        }
    }
}


/// Which placed pixels cells `k..n` of an enlarged window list: those in the block of a
/// set cell.
proof fn lemma_overscan_contains(
    bits: Seq<bool>,
    e: nat,
    sx: int,
    sy: int,
    x0: int,
    y0: int,
    side: int,
    sres: nat,
    k: int,
    n: int,
    a: int,
    b: int,
)
    requires
        side > 0,
        0 <= k,
        0 <= a < side * pow2(sres),
        0 <= b,
    ensures
        ({
            let p = pow2(sres) as int;
            let c = a / p + (b / p) * side;
            overscan_from(bits, e, sx, sy, x0, y0, side, sres, k, n).contains((sx + a, sy + b)) == (k <= c < n
                && bits[(x0 + a / p) + (y0 + b / p) * pow2(e)])
        }),
    decreases n - k,
{
    let p = pow2(sres) as int;
    vstd::arithmetic::power2::lemma_pow2_pos(sres);
    let q = (sx + a, sy + b);
    vstd::arithmetic::div_mod::lemma_fundamental_div_mod(a, p);
    vstd::arithmetic::div_mod::lemma_fundamental_div_mod(b, p);
    vstd::arithmetic::div_mod::lemma_mod_pos_bound(a, p);
    vstd::arithmetic::div_mod::lemma_mod_pos_bound(b, p);
    vstd::arithmetic::div_mod::lemma_div_pos_is_pos(a, p);
    vstd::arithmetic::div_mod::lemma_div_pos_is_pos(b, p);
    assert(a / p < side) by (nonlinear_arith)
        requires
            a == p * (a / p) + a % p,
            0 <= a % p,
            a < side * p,
            p > 0,
    ;
    let c = a / p + (b / p) * side;
    if k < n {
        lemma_overscan_contains(bits, e, sx, sy, x0, y0, side, sres, k + 1, n, a, b);
        lemma_cell_is(k, side, a / p, b / p);
        let cc = cell_of(x0, y0, side, k);
        let bx = (cc.0 - x0) * p;
        let by = (cc.1 - y0) * p;
        let block = block_from(sx, sy, bx, by, p, 0, p * p);
        let head = if bits[cc.0 + cc.1 * pow2(e)] {
            block
        } else {
            Seq::empty()
        };
        let rest = overscan_from(bits, e, sx, sy, x0, y0, side, sres, k + 1, n);
        assert(overscan_from(bits, e, sx, sy, x0, y0, side, sres, k, n) == head + rest);
        vstd::arithmetic::div_mod::lemma_mod_pos_bound(k, side);
        vstd::arithmetic::div_mod::lemma_div_pos_is_pos(k, side);
        if k == c {
            assert(cc == (x0 + a / p, y0 + b / p));
            assert(bx == (a / p) * p && by == (b / p) * p);
            assert((a / p) * p == p * (a / p) && (b / p) * p == p * (b / p)) by (nonlinear_arith);
            lemma_block_contains(sx, sy, bx, by, p, 0, p * p, a % p, b % p);
            assert(a % p + (b % p) * p < p * p) by (nonlinear_arith)
                requires
                    0 <= a % p < p,
                    0 <= b % p < p,
            ;
            assert(block.contains(q));
            assert(head.contains(q) == bits[(x0 + a / p) + (y0 + b / p) * pow2(e)]);
        } else {
            assert(!head.contains(q)) by {
                if head.contains(q) {
                    let j = choose|j: int| 0 <= j < block.len() && block[j] == q;
                    lemma_block_bounds(sx, sy, bx, by, p, 0, p * p);
                    assert(bx <= a < bx + p && by <= b < by + p);
                    vstd::arithmetic::div_mod::lemma_fundamental_div_mod_converse(a, p, cc.0 - x0, a - bx);
                    vstd::arithmetic::div_mod::lemma_fundamental_div_mod_converse(b, p, cc.1 - y0, b - by);
                }
            }
        }
        if (head + rest).contains(q) {
            let j = choose|j: int| 0 <= j < (head + rest).len() && (head + rest)[j] == q;
            if j >= head.len() {
                assert(rest[j - head.len()] == q);
            } else {
                assert(head[j] == q);
            }
        }
        if head.contains(q) {
            let j = choose|j: int| 0 <= j < head.len() && head[j] == q;
            assert((head + rest)[j] == q);
        }
        if rest.contains(q) {
            let j = choose|j: int| 0 <= j < rest.len() && rest[j] == q;
            assert((head + rest)[head.len() + j] == q);
        }
    }
}

/// What `sub_ok_from` says of one cell.
proof fn lemma_sub_ok_at(
    slots: Seq<Option<Box<GenericTile>>>,
    w: nat,
    sx: int,
    sy: int,
    x0: int,
    y0: int,
    side: int,
    sres: int,
    k: int,
    n: int,
    c: int,
)
    requires
        sub_ok_from(slots, w, sx, sy, x0, y0, side, sres, k, n),
        side > 0,
        k <= c < n,
    ensures
        ({
            let cc = cell_of(x0, y0, side, c);
            let idx = cc.0 + cc.1 * pow2(w);
            let p = pow2(sres as nat) as int;
            0 <= idx < slots.len() ==> match slots[idx] {
                Some(t) => (*t).pixels_ok(sx + (cc.0 - x0) * p, sy + (cc.1 - y0) * p, 0, 0, 0, sres),
                None => true,
            }
        }),
    decreases c - k,
{
    if c > k {
        lemma_sub_ok_at(slots, w, sx, sy, x0, y0, side, sres, k + 1, n, c);
    }
}

/// The pixels of cell `c` of a window of slots: those of its loaded sub-tile.
pub open spec fn cell_pixels(
    slots: Seq<Option<Box<GenericTile>>>,
    w: nat,
    sx: int,
    sy: int,
    x0: int,
    y0: int,
    side: int,
    sres: int,
    c: int,
) -> Seq<(int, int)> {
    let cc = cell_of(x0, y0, side, c);
    let idx = cc.0 + cc.1 * pow2(w);
    let p = pow2(sres as nat) as int;
    if 0 <= idx < slots.len() {
        match slots[idx] {
            Some(t) => (*t).pixels(sx + (cc.0 - x0) * p, sy + (cc.1 - y0) * p, 0, 0, 0, sres),
            None => Seq::empty(),
        }
    } else {
        Seq::empty()
    }
}

/// Which placed pixels cells `k..n` of a window of slots list: those that the sub-tile of
/// the cell whose block holds the pixel lists.
proof fn lemma_sub_pixels_contains(
    slots: Seq<Option<Box<GenericTile>>>,
    w: nat,
    sx: int,
    sy: int,
    x0: int,
    y0: int,
    side: int,
    sres: int,
    k: int,
    n: int,
    a: int,
    b: int,
)
    requires
        side > 0,
        0 <= sres,
        0 <= k,
        n <= side * side,
        0 <= a < side * pow2(sres as nat),
        0 <= b,
        sub_ok_from(slots, w, sx, sy, x0, y0, side, sres, k, n),
    ensures
        ({
            let p = pow2(sres as nat) as int;
            let c = a / p + (b / p) * side;
            sub_pixels_from(slots, w, sx, sy, x0, y0, side, sres, k, n).contains((sx + a, sy + b)) == (k <= c < n
                && cell_pixels(slots, w, sx, sy, x0, y0, side, sres, c).contains((sx + a, sy + b)))
        }),
    decreases n - k,
{
    let p = pow2(sres as nat) as int;
    vstd::arithmetic::power2::lemma_pow2_pos(sres as nat);
    let q = (sx + a, sy + b);
    vstd::arithmetic::div_mod::lemma_fundamental_div_mod(a, p);
    vstd::arithmetic::div_mod::lemma_fundamental_div_mod(b, p);
    vstd::arithmetic::div_mod::lemma_mod_pos_bound(a, p);
    vstd::arithmetic::div_mod::lemma_mod_pos_bound(b, p);
    vstd::arithmetic::div_mod::lemma_div_pos_is_pos(a, p);
    vstd::arithmetic::div_mod::lemma_div_pos_is_pos(b, p);
    assert(a / p < side) by (nonlinear_arith)
        requires
            a == p * (a / p) + a % p,
            0 <= a % p,
            a < side * p,
            p > 0,
    ;
    let c = a / p + (b / p) * side;
    if k < n {
        lemma_sub_pixels_contains(slots, w, sx, sy, x0, y0, side, sres, k + 1, n, a, b);
        lemma_cell_is(k, side, a / p, b / p);
        let head = cell_pixels(slots, w, sx, sy, x0, y0, side, sres, k);
        let rest = sub_pixels_from(slots, w, sx, sy, x0, y0, side, sres, k + 1, n);
        assert(sub_pixels_from(slots, w, sx, sy, x0, y0, side, sres, k, n) == head + rest);
        if k != c {
            assert(!head.contains(q)) by {
                if head.contains(q) {
                    let j = choose|j: int| 0 <= j < head.len() && head[j] == q;
                    let cc = cell_of(x0, y0, side, k);
                    let idx = cc.0 + cc.1 * pow2(w);
                    lemma_sub_ok_at(slots, w, sx, sy, x0, y0, side, sres, k, n, k);
                    vstd::arithmetic::div_mod::lemma_mod_pos_bound(k, side);
                    vstd::arithmetic::div_mod::lemma_div_pos_is_pos(k, side);
                    let t = slots[idx]->0;
                    lemma_pixels_in_tile(*t, sx + (cc.0 - x0) * p, sy + (cc.1 - y0) * p, 0, 0, 0, sres);
                    assert(head[j] == q);
                    vstd::arithmetic::div_mod::lemma_fundamental_div_mod_converse(
                        a,
                        p,
                        cc.0 - x0,
                        a - (cc.0 - x0) * p,
                    );
                    vstd::arithmetic::div_mod::lemma_fundamental_div_mod_converse(
                        b,
                        p,
                        cc.1 - y0,
                        b - (cc.1 - y0) * p,
                    );
                }
            }
        }
        if (head + rest).contains(q) {
            let j = choose|j: int| 0 <= j < (head + rest).len() && (head + rest)[j] == q;
            if j >= head.len() {
                assert(rest[j - head.len()] == q);
            } else {
                assert(head[j] == q);
            }
        }
        if head.contains(q) {
            let j = choose|j: int| 0 <= j < head.len() && head[j] == q;
            assert((head + rest)[j] == q);
        }
        if rest.contains(q) {
            let j = choose|j: int| 0 <= j < rest.len() && rest[j] == q;
            assert((head + rest)[head.len() + j] == q);
        }
    }
}


/// Cells `k..n` of a window of slots: every loaded sub-tile there satisfies
/// `raster_agrees` at `(0, 0, 0, sres)`.
pub open spec fn cells_raster_agree(
    slots: Seq<Option<Box<GenericTile>>>,
    w: nat,
    x0: int,
    y0: int,
    side: int,
    sres: int,
    k: int,
    n: int,
) -> bool
    decreases slots, n - k,
{
    if k >= n || side <= 0 {
        true
    } else {
        let c = cell_of(x0, y0, side, k);
        let idx = c.0 + c.1 * pow2(w);
        &&& (0 <= idx < slots.len() ==> match slots[idx] {
            Some(b) => (*b).raster_agrees(0, 0, 0, sres),
            None => true,
        })
        &&& cells_raster_agree(slots, w, x0, y0, side, sres, k + 1, n)
    }
}

impl GenericTile {
    /// The queries on which extracting a mipmap and listing pixels read the same data: a
    /// whole leaf is asked for as tile `(0, 0)`, and no inner tile reached is asked for at
    /// exactly its own grid's resolution (where listing reads the inner tile's stored mipmap
    /// while extraction composes its loaded sub-tiles).
    pub closed spec fn raster_agrees(self, x: int, y: int, z: int, res: int) -> bool
        decreases self, 0nat,
    {
        let w = self.width_exp as int;
        if z > w {
            self.is_leaf || {
                let p = pow2((z - w) as nat) as int;
                let idx = x / p + (y / p) * pow2(w as nat);
                0 <= idx < self.sub_tiles@.len() ==> match self.sub_tiles@[idx] {
                    Some(b) => (*b).raster_agrees(x % p, y % p, z - w, res),
                    None => true,
                }
            }
        } else if self.is_leaf && z == 0 {
            x == 0 && y == 0
        } else if !self.is_leaf && res >= w - z {
            let span = (w - z) as nat;
            let grid = pow2(span) as int;
            &&& res > w - z
            &&& cells_raster_agree(self.sub_tiles@, w as nat, x * grid, y * grid, grid, res - span, 0, grid * grid)
        } else {
            true
        }
    }
}

/// What `cells_raster_agree` says of one cell.
proof fn lemma_cells_raster_agree_at(
    slots: Seq<Option<Box<GenericTile>>>,
    w: nat,
    x0: int,
    y0: int,
    side: int,
    sres: int,
    k: int,
    n: int,
    c: int,
)
    requires
        cells_raster_agree(slots, w, x0, y0, side, sres, k, n),
        side > 0,
        k <= c < n,
    ensures
        ({
            let cc = cell_of(x0, y0, side, c);
            let idx = cc.0 + cc.1 * pow2(w);
            0 <= idx < slots.len() ==> match slots[idx] {
                Some(b) => (*b).raster_agrees(0, 0, 0, sres),
                None => true,
            }
        }),
    decreases c - k,
{
    if c > k {
        lemma_cells_raster_agree_at(slots, w, x0, y0, side, sres, k + 1, n, c);
    }
}

/// Law of mipmap extraction: the finest level of an extracted mipmap is the raster of the
/// pixels that `iter_pixels` lists for the same query, and when nothing is extracted no
/// pixel is listed, on queries where both read the same data.
pub proof fn lemma_extract_is_raster(t: GenericTile, sx: int, sy: int, x: int, y: int, z: int, res: int)
    requires
        t.extract_ok(x, y, z, res),
        t.pixels_ok(sx, sy, x, y, z, res),
        t.raster_agrees(x, y, z, res),
    ensures
        match t.extract(x, y, z, res) {
            None => !any_set(raster_at(t.pixels(sx, sy, x, y, z, res), sx, sy, res as nat)),
            Some(levels) => levels.len() > 0 && levels[0] == raster_at(
                t.pixels(sx, sy, x, y, z, res),
                sx,
                sy,
                res as nat,
            ),
        },
    decreases t, 2nat,
{
    t.lemma_extract_is_raster_step(sx, sy, x, y, z, res);
}

/// A list of no pixels rasters to a clear grid.
proof fn lemma_raster_empty(sx: int, sy: int, e: nat)
    ensures
        !any_set(raster_at(Seq::<(int, int)>::empty(), sx, sy, e)),
{
}

/// The raster of a whole window list is the window itself.
proof fn lemma_raster_window(bits: Seq<bool>, e: nat, sx: int, sy: int, x0: int, y0: int, side: int, i: int)
    requires
        side == pow2(e),
        0 <= i < side * side,
    ensures
        raster_at(window_from(bits, e, sx, sy, x0, y0, side, 0, side * side), sx, sy, e)[i] == bits[(x0 + i % side) + (
        y0 + i / side) * pow2(e)],
{
    vstd::arithmetic::power2::lemma_pow2_pos(e);
    vstd::arithmetic::div_mod::lemma_fundamental_div_mod(i, side);
    vstd::arithmetic::div_mod::lemma_mod_pos_bound(i, side);
    vstd::arithmetic::div_mod::lemma_div_pos_is_pos(i, side);
    lemma_window_contains(bits, e, sx, sy, x0, y0, side, 0, side * side, i % side, i / side);
    assert(side * (i / side) == (i / side) * side) by (nonlinear_arith);
}

impl GenericTile {
    proof fn lemma_extract_is_raster_step(self, sx: int, sy: int, x: int, y: int, z: int, res: int)
        requires
            self.extract_ok(x, y, z, res),
            self.pixels_ok(sx, sy, x, y, z, res),
            self.raster_agrees(x, y, z, res),
        ensures
            match self.extract(x, y, z, res) {
                None => !any_set(raster_at(self.pixels(sx, sy, x, y, z, res), sx, sy, res as nat)),
                Some(levels) => levels.len() > 0 && levels[0] == raster_at(
                    self.pixels(sx, sy, x, y, z, res),
                    sx,
                    sy,
                    res as nat,
                ),
            },
        decreases self, 1nat,
    {
        let w = self.width_exp as int;
        let px = self.pixels(sx, sy, x, y, z, res);
        let r = raster_at(px, sx, sy, res as nat);
        vstd::arithmetic::power2::lemma_pow2_pos(res as nat);
        if z > w {
            let cz = (z - w) as nat;
            let p = pow2(cz) as int;
            let idx = x / p + (y / p) * pow2(w as nat);
            match self.sub_tiles@[idx] {
                Some(b) => {
                    lemma_extract_is_raster(*b, sx, sy, x % p, y % p, z - w, res);
                },
                None => {
                    assert(px == Seq::<(int, int)>::empty());
                    lemma_raster_empty(sx, sy, res as nat);
                },
            }
        } else if self.is_leaf && z == 0 {
            let bm = self.bitmap->0;
            let s = pow2(res as nat) as int;
            if res <= w {
                let lvl = bm.levels_view()[w - res];
                assert(px == window_from(lvl, res as nat, sx, sy, 0, 0, s, 0, s * s));
                assert(lvl.len() == s * s) by {
                    vstd::arithmetic::power2::lemma_pow2_adds(res as nat, res as nat);
                }
                assert forall|i: int| 0 <= i < s * s implies #[trigger] r[i] == lvl[i] by {
                    lemma_raster_window(lvl, res as nat, sx, sy, 0, 0, s, i);
                    vstd::arithmetic::div_mod::lemma_fundamental_div_mod(i, s);
                    assert(s * (i / s) == (i / s) * s) by (nonlinear_arith);
                }
                assert(r =~= lvl);
            } else {
                let side = pow2(w as nat) as int;
                let sres = (res - w) as nat;
                let rep = pow2(sres) as int;
                vstd::arithmetic::power2::lemma_pow2_pos(w as nat);
                vstd::arithmetic::power2::lemma_pow2_pos(sres);
                vstd::arithmetic::power2::lemma_pow2_adds(w as nat, sres);
                assert(side * rep == s);
                assert(px == overscan_from(bm.base(), w as nat, sx, sy, 0, 0, side, sres, 0, side * side));
                let up = upsample(bm.base(), w as nat, sres);
                assert forall|i: int| 0 <= i < s * s implies #[trigger] r[i] == up[i] by {
                    vstd::arithmetic::div_mod::lemma_mod_pos_bound(i, s);
                    vstd::arithmetic::div_mod::lemma_div_pos_is_pos(i, s);
                    vstd::arithmetic::div_mod::lemma_fundamental_div_mod(i, s);
                    assert(i / s < s) by (nonlinear_arith)
                        requires
                            i == s * (i / s) + i % s,
                            0 <= i % s,
                            i < s * s,
                            s > 0,
                    ;
                    lemma_overscan_contains(bm.base(), w as nat, sx, sy, 0, 0, side, sres, 0, side * side, i % s, i / s);
                    lemma_in_block_iff(i, side, rep, 0, 0);
                    let qx = (i % s) / rep;
                    let qy = (i / s) / rep;
                    assert(qx + qy * side < side * side) by (nonlinear_arith)
                        requires
                            0 <= qx < side,
                            0 <= qy < side,
                    ;
                }
                assert(self.bitmap is Some);
                assert(window_fits(bm.base().len(), w as nat, 0, 0, 0, 0, side, side));
                assert(side * side <= bm.base().len()) by (nonlinear_arith)
                    requires
                        (side - 1) + (side - 1) * side < bm.base().len(),
                ;
                if any_set(bm.base()) {
                    assert(r =~= up);
                } else {
                    assert forall|i: int| 0 <= i < r.len() implies !r[i] by {
                        assert(r[i] == up[i]);
                        lemma_in_block_iff(i, side, rep, 0, 0);
                        let j = (i % s) / rep + ((i / s) / rep) * side;
                        assert(j < side * side) by (nonlinear_arith)
                            requires
                                0 <= (i % s) / rep < side,
                                0 <= (i / s) / rep < side,
                                j == (i % s) / rep + ((i / s) / rep) * side,
                        ;
                        assert(up[i] == bm.base()[j]);
                        if up[i] {
                            assert(any_set(bm.base()));
                        }
                    }
                }
            }
        } else if !self.is_leaf && res >= w - z {
            self.lemma_composite_is_raster(sx, sy, x, y, z, res);
        } else {
            let level0 = raster(self.pixels(0, 0, x, y, z, res), res as nat);
            let s = pow2(res as nat) as int;
            if z > 0 {
                assert(sx == 0 && sy == 0);
                assert(level0 =~= r);
            } else {
                let lvl = self.bitmap->0.levels_view()[w - res];
                assert(px == window_from(lvl, res as nat, sx, sy, x * s, y * s, s, 0, s * s));
                let p0 = self.pixels(0, 0, x, y, z, res);
                assert(p0 == window_from(lvl, res as nat, 0, 0, x * s, y * s, s, 0, s * s));
                assert forall|i: int| 0 <= i < s * s implies #[trigger] r[i] == level0[i] by {
                    lemma_raster_window(lvl, res as nat, sx, sy, x * s, y * s, s, i);
                    lemma_raster_window(lvl, res as nat, 0, 0, x * s, y * s, s, i);
                }
                assert(level0 =~= r);
            }
            assert(pyramid(level0, res as nat)[0] == level0);
        }
    }
}


impl GenericTile {
    /// The law of `lemma_extract_is_raster` where the mipmap is composed from sub-tiles.
    proof fn lemma_composite_is_raster(self, sx: int, sy: int, x: int, y: int, z: int, res: int)
        requires
            self.extract_ok(x, y, z, res),
            self.pixels_ok(sx, sy, x, y, z, res),
            self.raster_agrees(x, y, z, res),
            !self.is_leaf,
            z <= self.width_exp,
            res >= self.width_exp - z,
        ensures
            match self.extract(x, y, z, res) {
                None => !any_set(raster_at(self.pixels(sx, sy, x, y, z, res), sx, sy, res as nat)),
                Some(levels) => levels.len() > 0 && levels[0] == raster_at(
                    self.pixels(sx, sy, x, y, z, res),
                    sx,
                    sy,
                    res as nat,
                ),
            },
        decreases self, 0nat,
    {
        let w = self.width_exp as int;
        let span = (w - z) as nat;
        let grid = pow2(span) as int;
        let sres = res - span;
        let p = pow2(sres as nat) as int;
        let out = pow2(res as nat) as int;
        let x0 = x * grid;
        let y0 = y * grid;
        let slots = self.sub_tiles@;
        let mips = cell_mips(slots, w as nat, x0, y0, grid, sres, 0, grid * grid);
        let px = self.pixels(sx, sy, x, y, z, res);
        let r = raster_at(px, sx, sy, res as nat);
        vstd::arithmetic::power2::lemma_pow2_pos(span);
        vstd::arithmetic::power2::lemma_pow2_pos(sres as nat);
        vstd::arithmetic::power2::lemma_pow2_adds(span, sres as nat);
        assert(grid * p == out);
        assert(grid * grid > 0) by (nonlinear_arith)
            requires
                grid > 0,
        ;
        assert(px == sub_pixels_from(slots, w as nat, sx, sy, x0, y0, grid, sres, 0, grid * grid));
        assert(cells_extract_ok(slots, w as nat, x0, y0, grid, sres, 0, grid * grid));
        assert(sub_ok_from(slots, w as nat, sx, sy, x0, y0, grid, sres, 0, grid * grid));
        assert(cells_raster_agree(slots, w as nat, x0, y0, grid, sres, 0, grid * grid));
        assert(window_fits(slots.len(), w as nat, 0, 0, x0, y0, grid, grid));
        lemma_cell_mips_len(slots, w as nat, x0, y0, grid, sres, 0, grid * grid);
        let cl = composite_level(mips, grid, sres as nat, 0);
        assert forall|i: int| 0 <= i < out * out implies #[trigger] r[i] == cl[i] by {
            vstd::arithmetic::div_mod::lemma_fundamental_div_mod(i, out);
            vstd::arithmetic::div_mod::lemma_mod_pos_bound(i, out);
            vstd::arithmetic::div_mod::lemma_div_pos_is_pos(i, out);
            let ox = i % out;
            let oy = i / out;
            assert(oy < out) by (nonlinear_arith)
                requires
                    i == out * oy + ox,
                    0 <= ox,
                    i < out * out,
                    out > 0,
            ;
            lemma_in_block_iff(i, grid, p, 0, 0);
            let gx = ox / p;
            let gy = oy / p;
            let c = gx + gy * grid;
            assert(c < grid * grid) by (nonlinear_arith)
                requires
                    0 <= gx < grid,
                    0 <= gy < grid,
                    c == gx + gy * grid,
            ;
            let q = (sx + ox, sy + oy);
            lemma_sub_pixels_contains(slots, w as nat, sx, sy, x0, y0, grid, sres, 0, grid * grid, ox, oy);
            assert(r[i] == cell_pixels(slots, w as nat, sx, sy, x0, y0, grid, sres, c).contains(q));
            vstd::arithmetic::div_mod::lemma_fundamental_div_mod_converse(c, grid, gy, gx);
            lemma_cell_mips_index(slots, w as nat, x0, y0, grid, sres, 0, grid * grid, c);
            let cc = cell_of(x0, y0, grid, c);
            assert(cc == (x0 + gx, y0 + gy));
            let sidx = cc.0 + cc.1 * pow2(w as nat);
            crate::tile_iter::lemma_window_index(slots.len(), w as nat, x0, y0, grid, grid, x0 + gx, y0 + gy);
            vstd::arithmetic::div_mod::lemma_fundamental_div_mod(ox, p);
            vstd::arithmetic::div_mod::lemma_fundamental_div_mod(oy, p);
            vstd::arithmetic::div_mod::lemma_mod_pos_bound(ox, p);
            vstd::arithmetic::div_mod::lemma_mod_pos_bound(oy, p);
            let local = (ox % p) + (oy % p) * p;
            assert(local < p * p) by (nonlinear_arith)
                requires
                    0 <= ox % p < p,
                    0 <= oy % p < p,
                    local == (ox % p) + (oy % p) * p,
            ;
            vstd::arithmetic::div_mod::lemma_fundamental_div_mod_converse(local, p, oy % p, ox % p);
            let st = (sx + gx * p, sy + gy * p);
            assert(st.0 + local % p == sx + ox && st.1 + local / p == sy + oy) by {
                assert(p * gx == gx * p && p * gy == gy * p) by (nonlinear_arith);
            }
            match slots[sidx] {
                Some(t) => {
                    lemma_cells_extract_ok_at(slots, w as nat, x0, y0, grid, sres, 0, grid * grid, c);
                    lemma_sub_ok_at(slots, w as nat, sx, sy, x0, y0, grid, sres, 0, grid * grid, c);
                    lemma_cells_raster_agree_at(slots, w as nat, x0, y0, grid, sres, 0, grid * grid, c);
                    lemma_extract_is_raster(*t, st.0, st.1, 0, 0, 0, sres);
                    let tp = (*t).pixels(st.0, st.1, 0, 0, 0, sres);
                    assert(cell_pixels(slots, w as nat, sx, sy, x0, y0, grid, sres, c) == tp);
                    let tr = raster_at(tp, st.0, st.1, sres as nat);
                    assert(tr[local] == tp.contains(q));
                    match (*t).extract(0, 0, 0, sres) {
                        Some(m) => {
                            assert(mips[c] == Some(m));
                            assert(cl[i] == m[0][local]);
                        },
                        None => {
                            assert(mips[c] is None);
                            assert(!tr[local]);
                        },
                    }
                },
                None => {
                    assert(mips[c] is None);
                },
            }
        }
        if forall|i: int| 0 <= i < mips.len() ==> #[trigger] mips[i] is None {
            assert forall|i: int| 0 <= i < r.len() implies !r[i] by {
                assert(r[i] == cl[i]);
                lemma_in_block_iff(i, grid, p, 0, 0);
                let c = (i % out) / p + ((i / out) / p) * grid;
                assert(c < grid * grid) by (nonlinear_arith)
                    requires
                        0 <= (i % out) / p < grid,
                        0 <= (i / out) / p < grid,
                        c == (i % out) / p + ((i / out) / p) * grid,
                ;
                assert(mips[c] is None);
            }
        } else {
            let levels = composite(mips, span, sres as nat);
            assert(levels[0] == cl);
            assert(r =~= cl);
        }
    }
}


impl GenericTile {
    /// `m` names a slot of this tile, or of a loaded tile below it, that holds no sub-tile
    /// while that tile's mipmap marks it as holding data.
    pub closed spec fn marks_missing(self, m: MissingSubTile) -> bool
        decreases self,
    {
        let idx = m.x + m.y * pow2(self.width_exp as nat);
        ||| {
            &&& m.parent_width_exp == self.width_exp
            &&& 0 <= m.x
            &&& 0 <= m.y
            &&& 0 <= idx < self.sub_tiles@.len()
            &&& self.sub_tiles@[idx] is None
            &&& occupied(self.bitmap, idx)
        }
        ||| exists|i: int|
            0 <= i < self.sub_tiles@.len() && (#[trigger] self.sub_tiles@[i] matches Some(b) && (*b).marks_missing(m))
    }
}

/// Coordinates of a cell whose row-major index fits in an `i64` fit in one themselves.
proof fn lemma_cell_coords_fit(sx: int, sy: int, w: int)
    requires
        0 <= w,
        0 <= sx,
        0 <= sy,
        sx + sy * pow2(w as nat) <= i64::MAX,
    ensures
        sx <= i64::MAX,
        sy <= i64::MAX,
{
    vstd::arithmetic::power2::lemma_pow2_pos(w as nat);
    let q = pow2(w as nat) as int;
    assert(sy <= sy * q) by (nonlinear_arith)
        requires
            0 <= sy,
            1 <= q,
    ;
}

/// Law of `check_ready`: every sub-tile it reports is a slot, of the tile or of a loaded
/// tile below it, that holds no sub-tile while that tile's mipmap marks it as holding data.
pub proof fn lemma_missing_are_marked(t: GenericTile, x: int, y: int, z: int, res: int)
    requires
        t.ready_ok(x, y, z, res),
    ensures
        forall|j: int| 0 <= j < t.missing(x, y, z, res).len() ==> t.marks_missing(#[trigger] t.missing(x, y, z, res)[j]),
    decreases t, 1nat,
{
    t.lemma_missing_are_marked_step(x, y, z, res);
}

impl GenericTile {
    proof fn lemma_missing_are_marked_step(self, x: int, y: int, z: int, res: int)
        requires
            self.ready_ok(x, y, z, res),
        ensures
            forall|j: int|
                0 <= j < self.missing(x, y, z, res).len() ==> self.marks_missing(#[trigger] self.missing(x, y, z, res)[j]),
        decreases self, 0nat,
    {
        let w = self.width_exp as int;
        let ms = self.missing(x, y, z, res);
        if z + res <= w || self.is_leaf {
        } else if z <= w {
            let side = pow2((w - z) as nat) as int;
            vstd::arithmetic::power2::lemma_pow2_pos((w - z) as nat);
            assert(side * side >= 0) by (nonlinear_arith);
            self.lemma_cells_missing_marked(x * side, y * side, side, z + res - w, (side * side) as nat);
            assert(ms == cells_missing(
                self.sub_tiles@,
                self.bitmap,
                self.width_exp,
                x * side,
                y * side,
                side,
                z + res - w,
                (side * side) as nat,
            ));
        } else {
            let cz = (z - w) as nat;
            let p = pow2(cz) as int;
            let tx = x / p;
            let ty = y / p;
            let idx = tx + ty * pow2(w as nat);
            vstd::arithmetic::power2::lemma_pow2_pos(cz);
            match self.sub_tiles@[idx] {
                Some(b) => {
                    lemma_missing_are_marked(*b, x % p, y % p, cz as int, res);
                    assert(ms == (*b).missing(x % p, y % p, cz as int, res));
                    assert forall|j: int| 0 <= j < ms.len() implies self.marks_missing(#[trigger] ms[j]) by {
                        assert((*b).marks_missing(ms[j]));
                        assert(self.sub_tiles@[idx] matches Some(bb) && (*bb).marks_missing(ms[j]));
                    }
                },
                None => {
                    if occupied(self.bitmap, idx) {
                        vstd::arithmetic::div_mod::lemma_div_pos_is_pos(x, p);
                        vstd::arithmetic::div_mod::lemma_div_pos_is_pos(y, p);
                        lemma_cell_coords_fit(tx, ty, w);
                        assert(ms == seq![MissingSubTile { x: tx as i64, y: ty as i64, parent_width_exp: self.width_exp }]);
                        assert(self.marks_missing(ms[0]));
                    }
                },
            }
        }
    }

    /// Every sub-tile that the first `k` cells of a block report is marked missing here.
    proof fn lemma_cells_missing_marked(self, xmin: int, ymin: int, side: int, sres: int, k: nat)
        requires
            side > 0,
            cells_ok(self.sub_tiles@, self.width_exp as int, xmin, ymin, side, sres, k),
        ensures
            forall|j: int|
                0 <= j < cells_missing(self.sub_tiles@, self.bitmap, self.width_exp, xmin, ymin, side, sres, k).len()
                    ==> self.marks_missing(
                    #[trigger] cells_missing(self.sub_tiles@, self.bitmap, self.width_exp, xmin, ymin, side, sres, k)[j],
                ),
        decreases self.sub_tiles@, k,
    {
        if k > 0 {
            let c = (k - 1) as nat;
            self.lemma_cells_missing_marked(xmin, ymin, side, sres, c);
            let sx = xmin + (c as int) % side;
            let sy = ymin + (c as int) / side;
            let idx = sx + sy * pow2(self.width_exp as nat);
            let prev = cells_missing(self.sub_tiles@, self.bitmap, self.width_exp, xmin, ymin, side, sres, c);
            let here = if 0 <= idx < self.sub_tiles@.len() {
                match self.sub_tiles@[idx] {
                    Some(b) => (*b).missing(0, 0, 0, sres),
                    None => if occupied(self.bitmap, idx) {
                        seq![MissingSubTile { x: sx as i64, y: sy as i64, parent_width_exp: self.width_exp }]
                    } else {
                        Seq::empty()
                    },
                }
            } else {
                Seq::empty()
            };
            let all = cells_missing(self.sub_tiles@, self.bitmap, self.width_exp, xmin, ymin, side, sres, k);
            assert(all == prev + here);
            assert(cell_in(self.sub_tiles@.len(), sx, sy, self.width_exp as int));
            match self.sub_tiles@[idx] {
                Some(b) => {
                    lemma_missing_are_marked(*b, 0, 0, 0, sres);
                },
                None => {
                    if occupied(self.bitmap, idx) {
                        lemma_cell_coords_fit(sx, sy, self.width_exp as int);
                        assert(self.marks_missing(here[0]));
                    }
                },
            }
            assert forall|j: int| 0 <= j < all.len() implies self.marks_missing(#[trigger] all[j]) by {
                if j < prev.len() {
                    assert(all[j] == prev[j]);
                } else {
                    assert(all[j] == here[j - prev.len()]);
                    if let Some(b) = self.sub_tiles@[idx] {
                        assert((*b).marks_missing(here[j - prev.len()]));
                        assert(self.sub_tiles@[idx] matches Some(bb) && (*bb).marks_missing(all[j]));
                    }
                }
            }
        }
    }
}


/// Cells `k..n` of a window of slots: every loaded sub-tile there satisfies `levels_fit` at
/// `(0, 0, 0, sres)`.
pub open spec fn cells_levels_fit(
    slots: Seq<Option<Box<GenericTile>>>,
    w: nat,
    x0: int,
    y0: int,
    side: int,
    sres: int,
    k: int,
    n: int,
) -> bool
    decreases slots, n - k,
{
    if k >= n || side <= 0 {
        true
    } else {
        let c = cell_of(x0, y0, side, k);
        let idx = c.0 + c.1 * pow2(w);
        &&& (0 <= idx < slots.len() ==> match slots[idx] {
            Some(b) => (*b).levels_fit(0, 0, 0, sres),
            None => true,
        })
        &&& cells_levels_fit(slots, w, x0, y0, side, sres, k + 1, n)
    }
}

impl GenericTile {
    /// The queries on which every leaf reached keeps the stored level that the query reads
    /// sized to that level's grid: `4^res` bits at a resolution at most the leaf's own, and
    /// a base of `4^w` bits where the leaf is enlarged.
    pub closed spec fn levels_fit(self, x: int, y: int, z: int, res: int) -> bool
        decreases self, 0nat,
    {
        let w = self.width_exp as int;
        if z > w {
            self.is_leaf || {
                let p = pow2((z - w) as nat) as int;
                let idx = x / p + (y / p) * pow2(w as nat);
                0 <= idx < self.sub_tiles@.len() ==> match self.sub_tiles@[idx] {
                    Some(b) => (*b).levels_fit(x % p, y % p, z - w, res),
                    None => true,
                }
            }
        } else if self.is_leaf && z == 0 {
            match self.bitmap {
                None => true,
                Some(bm) => if res <= w {
                    w - res < bm.levels_view().len() ==> bm.levels_view()[w - res].len() == pow2(2 * res as nat)
                } else {
                    bm.base().len() == pow2(2 * w as nat)
                },
            }
        } else if !self.is_leaf && res >= w - z {
            let span = (w - z) as nat;
            let grid = pow2(span) as int;
            cells_levels_fit(self.sub_tiles@, w as nat, x * grid, y * grid, grid, res - span, 0, grid * grid)
        } else {
            true
        }
    }
}

/// What `cells_levels_fit` says of one cell.
proof fn lemma_cells_levels_fit_at(
    slots: Seq<Option<Box<GenericTile>>>,
    w: nat,
    x0: int,
    y0: int,
    side: int,
    sres: int,
    k: int,
    n: int,
    c: int,
)
    requires
        cells_levels_fit(slots, w, x0, y0, side, sres, k, n),
        side > 0,
        k <= c < n,
    ensures
        ({
            let cc = cell_of(x0, y0, side, c);
            let idx = cc.0 + cc.1 * pow2(w);
            0 <= idx < slots.len() ==> match slots[idx] {
                Some(b) => (*b).levels_fit(0, 0, 0, sres),
                None => true,
            }
        }),
    decreases c - k,
{
    if c > k {
        lemma_cells_levels_fit_at(slots, w, x0, y0, side, sres, k + 1, n, c);
    }
}

/// Bit `j` of the `s x s` block `c` of a `grid x grid` arrangement of such blocks: the bit
/// of the whole `grid * s`-wide grid that lies there.
proof fn lemma_place_in_block(c: int, j: int, grid: int, s: int) -> (i: int)
    requires
        grid > 0,
        s > 0,
        0 <= c < grid * grid,
        0 <= j < s * s,
    ensures
        0 <= i < (grid * s) * (grid * s),
        (i % (grid * s)) / s + ((i / (grid * s)) / s) * grid == c,
        (i % (grid * s)) % s + ((i / (grid * s)) % s) * s == j,
{
    let side = grid * s;
    let cx = c % grid;
    let cy = c / grid;
    let jx = j % s;
    let jy = j / s;
    vstd::arithmetic::div_mod::lemma_fundamental_div_mod(c, grid);
    vstd::arithmetic::div_mod::lemma_fundamental_div_mod(j, s);
    vstd::arithmetic::div_mod::lemma_mod_pos_bound(c, grid);
    vstd::arithmetic::div_mod::lemma_mod_pos_bound(j, s);
    vstd::arithmetic::div_mod::lemma_div_pos_is_pos(c, grid);
    vstd::arithmetic::div_mod::lemma_div_pos_is_pos(j, s);
    assert(cy < grid) by (nonlinear_arith)
        requires
            c == grid * cy + cx,
            0 <= cx,
            c < grid * grid,
            grid > 0,
    ;
    assert(jy < s) by (nonlinear_arith)
        requires
            j == s * jy + jx,
            0 <= jx,
            j < s * s,
            s > 0,
    ;
    let ox = cx * s + jx;
    let oy = cy * s + jy;
    assert(0 <= ox < side && 0 <= oy < side) by (nonlinear_arith)
        requires
            0 <= cx < grid,
            0 <= cy < grid,
            0 <= jx < s,
            0 <= jy < s,
            side == grid * s,
            ox == cx * s + jx,
            oy == cy * s + jy,
    ;
    let i = ox + oy * side;
    assert(0 <= i < side * side) by (nonlinear_arith)
        requires
            0 <= ox < side,
            0 <= oy < side,
            i == ox + oy * side,
    ;
    vstd::arithmetic::div_mod::lemma_fundamental_div_mod_converse(i, side, oy, ox);
    vstd::arithmetic::div_mod::lemma_fundamental_div_mod_converse(ox, s, cx, jx);
    vstd::arithmetic::div_mod::lemma_fundamental_div_mod_converse(oy, s, cy, jy);
    assert(cx + cy * grid == c) by (nonlinear_arith)
        requires
            c == grid * cy + cx,
    ;
    assert(jx + jy * s == j) by (nonlinear_arith)
        requires
            j == s * jy + jx,
    ;
    i
}

/// Law of mipmap extraction: an extracted mipmap has a finest level, `4^res` bits, with a
/// pixel set; nothing is extracted for an empty tile. Stated on the queries whose reached
/// leaves keep the level read sized to its grid.
pub proof fn lemma_extract_some_is_nonempty(t: GenericTile, x: int, y: int, z: int, res: int)
    requires
        t.extract_ok(x, y, z, res),
        t.levels_fit(x, y, z, res),
    ensures
        t.extract(x, y, z, res) matches Some(levels) ==> {
            &&& levels.len() > 0
            &&& levels[0].len() == pow2(2 * res as nat)
            &&& any_set(levels[0])
        },
    decreases t, 1nat,
{
    t.lemma_extract_some_is_nonempty_step(x, y, z, res);
}

impl GenericTile {
    proof fn lemma_extract_some_is_nonempty_step(self, x: int, y: int, z: int, res: int)
        requires
            self.extract_ok(x, y, z, res),
            self.levels_fit(x, y, z, res),
        ensures
            self.extract(x, y, z, res) matches Some(levels) ==> {
                &&& levels.len() > 0
                &&& levels[0].len() == pow2(2 * res as nat)
                &&& any_set(levels[0])
            },
        decreases self, 0nat,
    {
        let w = self.width_exp as int;
        vstd::arithmetic::power2::lemma_pow2_adds(res as nat, res as nat);
        assert(2 * res as nat == res as nat + res as nat);
        if z > w {
            if !self.is_leaf {
                let p = pow2((z - w) as nat) as int;
                let idx = x / p + (y / p) * pow2(w as nat);
                if let Some(b) = self.sub_tiles@[idx] {
                    lemma_extract_some_is_nonempty(*b, x % p, y % p, z - w, res);
                }
            }
        } else if self.is_leaf && z == 0 {
            if let Some(bm) = self.bitmap {
                if res > w && any_set(bm.base()) {
                    let sw = pow2(w as nat) as int;
                    let r = (res - w) as nat;
                    let rep = pow2(r) as int;
                    vstd::arithmetic::power2::lemma_pow2_pos(w as nat);
                    vstd::arithmetic::power2::lemma_pow2_pos(r);
                    vstd::arithmetic::power2::lemma_pow2_adds(w as nat, w as nat);
                    vstd::arithmetic::power2::lemma_pow2_adds(w as nat, r);
                    assert((w as nat) + r == res as nat);
                    let up = upsample(bm.base(), w as nat, r);
                    let j = choose|j: int| 0 <= j < bm.base().len() && bm.base()[j];
                    assert(rep * rep > 0) by (nonlinear_arith)
                        requires
                            rep > 0,
                    ;
                    let i = lemma_place_in_block(j, 0, sw, rep);
                    assert(up[i] == bm.base()[j]);
                    assert(any_set(up));
                    let levels = self.extract(x, y, z, res)->0;
                    assert(levels[0] == up);
                }
            }
        } else if !self.is_leaf && res >= w - z {
            let span = (w - z) as nat;
            let grid = pow2(span) as int;
            let sres = res - span;
            let x0 = x * grid;
            let y0 = y * grid;
            let n = grid * grid;
            let mips = cell_mips(self.sub_tiles@, w as nat, x0, y0, grid, sres, 0, n);
            if !(forall|i: int| 0 <= i < mips.len() ==> #[trigger] mips[i] is None) {
                let c = choose|c: int| 0 <= c < mips.len() && !(mips[c] is None);
                vstd::arithmetic::power2::lemma_pow2_pos(span);
                vstd::arithmetic::power2::lemma_pow2_pos(sres as nat);
                vstd::arithmetic::power2::lemma_pow2_adds(span, sres as nat);
                vstd::arithmetic::power2::lemma_pow2_adds(sres as nat, sres as nat);
                assert(span + sres as nat == res as nat);
                assert(grid * grid > 0) by (nonlinear_arith)
                    requires
                        grid > 0,
                ;
                lemma_cell_mips_len(self.sub_tiles@, w as nat, x0, y0, grid, sres, 0, n);
                lemma_cell_mips_index(self.sub_tiles@, w as nat, x0, y0, grid, sres, 0, n, c);
                lemma_cells_extract_ok_at(self.sub_tiles@, w as nat, x0, y0, grid, sres, 0, n, c);
                lemma_cells_levels_fit_at(self.sub_tiles@, w as nat, x0, y0, grid, sres, 0, n, c);
                let cc = cell_of(x0, y0, grid, c);
                let idx = cc.0 + cc.1 * pow2(w as nat);
                let b = self.sub_tiles@[idx]->0;
                lemma_extract_some_is_nonempty(*b, 0, 0, 0, sres);
                let m = mips[c]->0;
                let s = pow2(sres as nat) as int;
                let j = choose|j: int| 0 <= j < m[0].len() && m[0][j];
                let i = lemma_place_in_block(c, j, grid, s);
                let lvl = composite_level(mips, grid, sres as nat, 0);
                assert(lvl[i]);
                assert(any_set(lvl));
                let levels = composite(mips, span, sres as nat);
                assert(levels[0] == lvl);
                assert(grid * s == pow2(res as nat));
            }
        } else {
            let level0 = raster(self.pixels(0, 0, x, y, z, res), res as nat);
            assert(pyramid(level0, res as nat)[0] == level0);
        }
    }
}


impl GenericTile {
    /// For callers: on a tile with one slot per cell of its grid, every cell of the grid
    /// addresses a slot, the row-major one.
    pub proof fn lemma_valid_slot(self, x: int, y: int)
        requires
            0 <= self.exp(),
            2 * self.exp() < 63,
            self.slots().len() == pow2(2 * self.exp() as nat),
            0 <= x < pow2(self.exp() as nat),
            0 <= y < pow2(self.exp() as nat),
        ensures
            self.valid_slot(x, y),
            self.slot_of(x, y) == x + y * pow2(self.exp() as nat),
    {
        let w = self.width_exp as nat;
        let p = pow2(w) as int;
        vstd::arithmetic::power2::lemma_pow2_adds(w, w);
        vstd::arithmetic::power2::lemma_pow2_strictly_increases(2 * w, 63);
        vstd::arithmetic::power2::lemma2_to64_rest();
        if w > 0 {
            vstd::arithmetic::power2::lemma_pow2_strictly_increases(w, 63);
        } else {
            vstd::arithmetic::power2::lemma2_to64();
        }
        assert(y * p + x < p * p) by (nonlinear_arith)
            requires
                0 <= x < p,
                0 <= y < p,
        ;
        assert(0 <= y * p) by (nonlinear_arith)
            requires
                0 <= y,
                0 <= p,
        ;
    }

    /// For callers: on a non-leaf tile with one slot per cell of its grid and no sub-tile
    /// loaded, `check_ready` can run on every tile of its grid or coarser, and so can
    /// `extract_mipmap` at a resolution of at least one pixel per slot that the machine word
    /// and a bit-vector can hold.
    pub proof fn lemma_unloaded_queries_ok(self, x: int, y: int, z: int, res: int)
        requires
            !self.leaf(),
            0 <= self.exp(),
            2 * self.exp() < 63,
            2 * self.exp() < usize::BITS,
            self.slots().len() == pow2(2 * self.exp() as nat),
            forall|i: int| 0 <= i < self.slots().len() ==> #[trigger] self.slots()[i] is None,
            0 <= z <= self.exp(),
            0 <= x < pow2(z as nat),
            0 <= y < pow2(z as nat),
            0 <= res,
            z + res <= i16::MAX,
        ensures
            self.ready_ok(x, y, z, res),
            res >= self.exp() - z && 2 * res < usize::BITS && pow2(2 * res as nat) + usize::BITS <= max_bits()
                ==> self.extract_ok(x, y, z, res),
    {
        let w = self.width_exp as int;
        let span = (w - z) as nat;
        let side = pow2(span) as int;
        let pw = pow2(w as nat) as int;
        vstd::arithmetic::power2::lemma_pow2_adds(z as nat, span);
        vstd::arithmetic::power2::lemma_pow2_adds(w as nat, w as nat);
        vstd::arithmetic::power2::lemma_pow2_pos(span);
        vstd::arithmetic::power2::lemma_pow2_pos(z as nat);
        vstd::arithmetic::power2::lemma_pow2_strictly_increases(2 * w as nat, 63);
        vstd::arithmetic::power2::lemma2_to64_rest();
        vstd::bits::lemma_usize_pow2_no_overflow(2 * w as nat);
        vstd::arithmetic::power2::lemma_pow2_pos(w as nat);
        assert forall|i: int| 0 <= i < self.sub_tiles@.len() implies #[trigger] self.sub_tiles@[i] is None by {
            assert(self.slots()[i] is None);
        }
        assert((x + 1) * side <= pw && (y + 1) * side <= pw) by (nonlinear_arith)
            requires
                x < pow2(z as nat),
                y < pow2(z as nat),
                pow2(z as nat) * side == pw,
                side > 0,
        ;
        assert(pw * pw == pow2(2 * w as nat));
        assert(pw <= pw * pw) by (nonlinear_arith)
            requires
                pw > 0,
        ;
        assert(0 <= x * side && 0 <= y * side) by (nonlinear_arith)
            requires
                0 <= x,
                0 <= y,
                side > 0,
        ;
        assert(x * side + side == (x + 1) * side && y * side + side == (y + 1) * side) by (nonlinear_arith);
        assert(side * side >= 0) by (nonlinear_arith);
        lemma_unloaded_cells_ok(self.sub_tiles@, w, x * side, y * side, side, z + res - w, (side * side) as nat);
        lemma_unloaded_cells_extract_ok(self.sub_tiles@, w as nat, x * side, y * side, side, res - span, 0, side * side);
        assert((x * side + side - 1) + (y * side + side - 1) * pw < pw * pw) by (nonlinear_arith)
            requires
                (x + 1) * side <= pw,
                (y + 1) * side <= pw,
                side > 0,
                0 <= x * side,
                0 <= y * side,
        ;
    }
}

/// The first `k` cells of a block inside the grid of a tile with no loaded sub-tile satisfy
/// `cells_ok`.
proof fn lemma_unloaded_cells_ok(
    slots: Seq<Option<Box<GenericTile>>>,
    w: int,
    x0: int,
    y0: int,
    side: int,
    sres: int,
    k: nat,
)
    requires
        0 <= w,
        2 * w < 63,
        slots.len() == pow2(2 * w as nat),
        forall|i: int| 0 <= i < slots.len() ==> #[trigger] slots[i] is None,
        side > 0,
        k <= side * side,
        0 <= x0,
        0 <= y0,
        x0 + side <= pow2(w as nat),
        y0 + side <= pow2(w as nat),
    ensures
        cells_ok(slots, w, x0, y0, side, sres, k),
    decreases k,
{
    if k > 0 {
        lemma_unloaded_cells_ok(slots, w, x0, y0, side, sres, (k - 1) as nat);
        let c = (k - 1) as int;
        let pw = pow2(w as nat) as int;
        vstd::arithmetic::div_mod::lemma_fundamental_div_mod(c, side);
        vstd::arithmetic::div_mod::lemma_mod_pos_bound(c, side);
        vstd::arithmetic::div_mod::lemma_div_pos_is_pos(c, side);
        assert(c / side < side) by (nonlinear_arith)
            requires
                c == side * (c / side) + c % side,
                0 <= c % side,
                c < side * side,
                side > 0,
        ;
        let sx = x0 + c % side;
        let sy = y0 + c / side;
        vstd::arithmetic::power2::lemma_pow2_adds(w as nat, w as nat);
        vstd::arithmetic::power2::lemma_pow2_strictly_increases(2 * w as nat, 63);
        vstd::arithmetic::power2::lemma2_to64_rest();
        assert(sx + sy * pw < pw * pw) by (nonlinear_arith)
            requires
                0 <= sx < pw,
                0 <= sy < pw,
        ;
        assert(0 <= sy * pw) by (nonlinear_arith)
            requires
                0 <= sy,
                0 <= pw,
        ;
        assert(slots[sx + sy * pw] is None);
    }
}

/// Cells `k..n` of a window of a tile with no loaded sub-tile satisfy `cells_extract_ok`.
proof fn lemma_unloaded_cells_extract_ok(
    slots: Seq<Option<Box<GenericTile>>>,
    w: nat,
    x0: int,
    y0: int,
    side: int,
    sres: int,
    k: int,
    n: int,
)
    requires
        forall|i: int| 0 <= i < slots.len() ==> #[trigger] slots[i] is None,
    ensures
        cells_extract_ok(slots, w, x0, y0, side, sres, k, n),
    decreases n - k,
{
    if k < n && side > 0 {
        lemma_unloaded_cells_extract_ok(slots, w, x0, y0, side, sres, k + 1, n);
    }
}


impl GenericTile {
    /// Law of `iter_pixels` on an inner tile asked for at zoom at most its grid's and at a
    /// resolution finer than its grid: the pixels of each loaded sub-tile of the block the
    /// query covers, cell by cell, row-major, each placed at its cell's offset; an empty
    /// slot gives none, whatever the mipmap says of it.
    pub proof fn lemma_inner_pixels(self, sx: int, sy: int, x: int, y: int, z: int, res: int)
        requires
            !self.leaf(),
            0 <= z <= self.exp() < z + res,
        ensures
            self.pixels(sx, sy, x, y, z, res) == {
                let side = pow2((self.exp() - z) as nat) as int;
                sub_pixels_from(
                    self.slot_raws(),
                    self.exp() as nat,
                    sx,
                    sy,
                    x * side,
                    y * side,
                    side,
                    z + res - self.exp(),
                    0,
                    side * side,
                )
            },
            self.slot_raws().len() == self.slots().len(),
            forall|i: int|
                0 <= i < self.slots().len() ==> {
                    &&& (#[trigger] self.slot_raws()[i] is None <==> self.slots()[i] is None)
                    &&& (self.slot_raws()[i] matches Some(b) ==> self.slots()[i] == Some(*b))
                },
    {
    }
}


/// The slot of cell `c`, row-major, of the block that tile `(x, y)` at zoom `z` covers in a
/// `2^w`-wide grid of slots.
pub open spec fn block_slot(w: int, z: int, x: int, y: int, c: int) -> int {
    let side = pow2((w - z) as nat) as int;
    let cc = cell_of(x * side, y * side, side, c);
    cc.0 + cc.1 * pow2(w as nat)
}

/// When the first `k` cells of a block report nothing, each of them reports nothing.
proof fn lemma_cells_missing_none_at(
    slots: Seq<Option<Box<GenericTile>>>,
    bitmap: Option<BitMap2D>,
    w: i16,
    xmin: int,
    ymin: int,
    side: int,
    sres: int,
    k: nat,
    c: nat,
)
    requires
        cells_missing(slots, bitmap, w, xmin, ymin, side, sres, k).len() == 0,
        c < k,
        side > 0,
    ensures
        ({
            let idx = (xmin + (c as int) % side) + (ymin + (c as int) / side) * pow2(w as nat);
            0 <= idx < slots.len() ==> match slots[idx] {
                Some(b) => (*b).missing(0, 0, 0, sres).len() == 0,
                None => !occupied(bitmap, idx),
            }
        }),
    decreases k,
{
    if c + 1 < k {
        lemma_cells_missing_none_at(slots, bitmap, w, xmin, ymin, side, sres, (k - 1) as nat, c);
    }
}

impl GenericTile {
    /// Law of `check_ready` for a query finer than this tile's grid (zoom `z` above its width
    /// `w`, and a resolution that reaches below it): the query falls in the one slot that
    /// holds tile `(x >> (z - w), y >> (z - w))`. Where that slot is loaded, the answer is the
    /// loaded sub-tile's answer for tile `(x mod 2^(z - w), y mod 2^(z - w))` at zoom `z - w`;
    /// where it is not, the slot itself is reported exactly when the mipmap marks it as
    /// holding data.
    pub proof fn lemma_check_ready_deep(self, x: int, y: int, z: int, res: int)
        requires
            self.ready_ok(x, y, z, res),
            !self.leaf(),
            self.exp() < z,
            self.exp() < z + res,
        ensures
            ({
                let w = self.exp();
                let p = pow2((z - w) as nat) as int;
                let idx = x / p + (y / p) * pow2(w as nat);
                &&& 0 <= idx < self.slots().len()
                &&& self.slots()[idx] matches Some(b) ==> {
                    &&& b.ready_ok(x % p, y % p, z - w, res)
                    &&& self.missing(x, y, z, res) == b.missing(x % p, y % p, z - w, res)
                }
                &&& self.slots()[idx] is None ==> self.missing(x, y, z, res) == if occupied(self.mipmap(), idx) {
                    seq![MissingSubTile { x: (x / p) as i64, y: (y / p) as i64, parent_width_exp: w as i16 }]
                } else {
                    Seq::<MissingSubTile>::empty()
                }
            }),
    {
        let w = self.width_exp as int;
        let cz = (z - w) as nat;
        let p = pow2(cz) as int;
        let idx = x / p + (y / p) * pow2(w as nat);
        assert(self.slots()[idx] is None <==> self.sub_tiles@[idx] is None);
        if let Some(b) = self.sub_tiles@[idx] {
            assert(self.slots()[idx] == Some(*b));
        }
    }

    /// Law of `check_ready` and `iter_pixels`: when `check_ready` reports nothing for an
    /// inner tile asked for at zoom at most its grid's and finer than its grid, every slot of
    /// the block that the listing passes over empty is one the mipmap marks as holding no
    /// data, and every loaded sub-tile there reports nothing in turn.
    pub proof fn lemma_ready_skips_nothing_marked(self, x: int, y: int, z: int, res: int)
        requires
            self.ready_ok(x, y, z, res),
            self.missing(x, y, z, res).len() == 0,
            !self.leaf(),
            0 <= z <= self.exp() < z + res,
        ensures
            forall|c: int|
                0 <= c < pow2((self.exp() - z) as nat) * pow2((self.exp() - z) as nat) ==> {
                    let idx = #[trigger] block_slot(self.exp(), z, x, y, c);
                    &&& 0 <= idx < self.slots().len()
                    &&& (self.slots()[idx] is None ==> !occupied(self.mipmap(), idx))
                    &&& (self.slots()[idx] matches Some(t) ==> t.missing(0, 0, 0, z + res - self.exp()).len() == 0)
                },
    {
        let w = self.width_exp as int;
        let side = pow2((w - z) as nat) as int;
        vstd::arithmetic::power2::lemma_pow2_pos((w - z) as nat);
        assert forall|c: int| 0 <= c < side * side implies {
            let idx = #[trigger] block_slot(self.exp(), z, x, y, c);
            &&& 0 <= idx < self.slots().len()
            &&& (self.slots()[idx] is None ==> !occupied(self.mipmap(), idx))
            &&& (self.slots()[idx] matches Some(t) ==> t.missing(0, 0, 0, z + res - self.exp()).len() == 0)
        } by {
            assert(side * side >= 0) by (nonlinear_arith);
            lemma_cells_ok_at(self.sub_tiles@, w, x * side, y * side, side, z + res - w, (side * side) as nat, c as nat);
            lemma_cells_missing_none_at(
                self.sub_tiles@,
                self.bitmap,
                self.width_exp,
                x * side,
                y * side,
                side,
                z + res - w,
                (side * side) as nat,
                c as nat,
            );
        }
    }
}


/// Reading levels whose bytes stop short fails.
#[verifier::spinoff_prover]
#[verifier::rlimit(50)]
proof fn lemma_parse_levels_cut(b: Seq<u8>, off: int, levels: Seq<BitVec>)
    requires
        0 <= off <= b.len(),
        b.len() < off + levels_bytes(levels).len(),
        off + levels_bytes(levels).len() <= usize::MAX,
        b.subrange(off, b.len() as int) == levels_bytes(levels).take(b.len() - off),
        forall|k: int| 0 <= k < levels.len() ==> level_decodes(#[trigger] levels[k]),
        forall|k: int| 0 <= k < levels.len() ==> level_loadable(#[trigger] levels[k]),
    ensures
        parse_levels(b, off, levels.len()) is Fail,
    decreases levels.len(),
{
    if levels.len() == 0 {
        assert(levels_bytes(levels) =~= Seq::<u8>::empty());
        return;
    }
    lemma_levels_bytes_front(levels);
    let l0 = levels[0];
    let lb = level_bytes(l0);
    let rest = levels.drop_first();
    let all = levels_bytes(levels);
    let n = bits_of(l0).len();
    let bc = ((n + 7) / 8) as int;
    let avail = b.len() - off;
    assert(lb.len() == 8 + bc);
    assert(all.len() >= lb.len());
    if b.len() < off + 8 {
        reveal(parse_levels);
        return;
    }
    assert(b.subrange(off, off + 8) =~= le64_bytes(n as u64)) by {
        assert(b.subrange(off, off + 8) =~= all.take(avail).subrange(0, 8));
        assert(all.subrange(0, 8) =~= lb.subrange(0, 8));
    }
    lemma_loadable_len(n);
    lemma_le64_read(n as u64, b, off);
    let start = off + 8;
    if b.len() < start + bc {
        assert(read_le64(b, off) as usize == n);
        assert(start + bc <= usize::MAX);
        reveal(parse_levels);
        return;
    }
    let data = lsb_bytes(words_of(l0), n);
    assert(b.subrange(off, off + lb.len()) =~= lb) by {
        assert(b.subrange(off, off + lb.len()) =~= all.take(avail).subrange(0, lb.len() as int));
        assert(all.subrange(0, lb.len() as int) =~= lb);
    }
    lemma_parse_one_level(b, off, l0, rest.len());
    let off2 = off + lb.len();
    assert(b.subrange(off2, b.len() as int) =~= levels_bytes(rest).take(b.len() - off2)) by {
        assert(b.subrange(off2, b.len() as int) =~= all.take(avail).subrange(lb.len() as int, avail));
        assert(all.subrange(lb.len() as int, all.len() as int) =~= levels_bytes(rest));
    }
    assert forall|k: int| 0 <= k < rest.len() implies level_decodes(#[trigger] rest[k]) by {
        assert(rest[k] == levels[k + 1]);
    }
    assert forall|k: int| 0 <= k < rest.len() implies level_loadable(#[trigger] rest[k]) by {
        assert(rest[k] == levels[k + 1]);
    }
    lemma_parse_levels_cut(b, off2, rest);
}

impl GenericTile {
    /// Reading slots `j..` whose bytes stop short fails.
    #[verifier::rlimit(50)]
    #[verifier::spinoff_prover]
    proof fn lemma_parse_slots_cut(self, b: Seq<u8>, off: int, j: int)
        requires
            0 <= j <= self.slot_count(),
            0 <= off <= b.len(),
            b.len() < off + self.slots_seg(j, self.slot_count() as int).len(),
            off + self.slots_seg(j, self.slot_count() as int).len() <= usize::MAX,
            b.subrange(off, b.len() as int) == self.slots_seg(j, self.slot_count() as int).take(b.len() - off),
            self.serializable(),
            self.stored_levels_ok(),
        ensures
            parse_slots(b, off, (self.slot_count() - j) as nat) is Fail,
        decreases self, self.slot_count() - j,
    {
        reveal(parse_slots);
        let n = self.slot_count() as int;
        if j == n {
            assert(self.slots_seg(j, n) =~= Seq::<u8>::empty());
            return;
        }
        let seg = self.slots_seg(j, n);
        let sb = slot_bytes(self.slot_raw(j));
        let rest = self.slots_seg(j + 1, n);
        assert(seg == sb + rest);
        let avail = b.len() - off;
        if b.len() < off + 1 {
            return;
        }
        assert(b[off] == seg[0]) by {
            assert(b.subrange(off, b.len() as int)[0] == seg.take(avail)[0]);
        }
        assert(b[off] == sb[0]);
        match self.sub_tiles@[j] {
            None => {
                let off2 = off + 1;
                assert(b.subrange(off2, b.len() as int) =~= rest.take(b.len() - off2)) by {
                    assert(b.subrange(off2, b.len() as int) =~= seg.take(avail).subrange(1, avail));
                }
                self.lemma_parse_slots_cut(b, off2, j + 1);
                assert(((n - j) - 1) as nat == (n - (j + 1)) as nat);
            },
            Some(t) => {
                let tb = (*t).tile_bytes();
                assert((*t).serializable());
                assert((*t).stored_levels_ok());
                if b.len() < off + 1 + tb.len() {
                    assert(b.subrange(off + 1, b.len() as int) =~= tb.take(b.len() - (off + 1))) by {
                        assert(b.subrange(off + 1, b.len() as int) =~= seg.take(avail).subrange(1, avail));
                        assert(seg.subrange(1, sb.len() as int) =~= tb);
                    }
                    (*t).lemma_tile_bytes_cut(b, off + 1);
                } else {
                    assert(b.subrange(off + 1, off + 1 + tb.len()) =~= tb) by {
                        assert(b.subrange(off + 1, off + 1 + tb.len()) =~= seg.take(avail).subrange(
                            1,
                            1 + tb.len() as int,
                        ));
                        assert(seg.subrange(1, 1 + tb.len() as int) =~= tb);
                    }
                    (*t).lemma_parse_tile_back(b, off + 1);
                    (*t).lemma_tile_bytes_len();
                    let off2 = off + 1 + tb.len();
                    assert(b.subrange(off2, b.len() as int) =~= rest.take(b.len() - off2)) by {
                        assert(b.subrange(off2, b.len() as int) =~= seg.take(avail).subrange(
                            sb.len() as int,
                            avail,
                        ));
                    }
                    self.lemma_parse_slots_cut(b, off2, j + 1);
                    assert(((n - j) - 1) as nat == (n - (j + 1)) as nat);
                }
            },
        }
    }

    /// Reading a tile whose bytes stop short fails: it reports an error, it does not abort.
    #[verifier::rlimit(100)]
    #[verifier::spinoff_prover]
    proof fn lemma_tile_bytes_cut(self, b: Seq<u8>, off: int)
        requires
            0 <= off <= b.len(),
            b.len() < off + self.tile_bytes().len(),
            off + self.tile_bytes().len() <= usize::MAX,
            b.subrange(off, b.len() as int) == self.tile_bytes().take(b.len() - off),
            self.serializable(),
            self.stored_levels_ok(),
        ensures
            parse_tile(b, off) is Fail,
        decreases self, self.slot_count() + 1,
    {
        let levels = self.level_vecs();
        let n = self.sub_tiles@.len();
        let lb = levels_bytes(levels);
        let tb = self.tile_bytes();
        let avail = b.len() - off;
        let head = le16_bytes(self.width_exp as u16) + seq![if self.is_leaf { 1u8 } else { 0u8 }]
            + le32_bytes(levels.len() as u32);
        let sb = self.slots_bytes(n);
        assert(tb =~= head + lb + le32_bytes(n as u32) + sb);
        if avail < 7 {
            return;
        }
        assert(b.subrange(off, off + 7) =~= tb.subrange(0, 7)) by {
            assert(b.subrange(off, off + 7) =~= tb.take(avail).subrange(0, 7));
        }
        assert(b.subrange(off + 3, off + 7) =~= le32_bytes(levels.len() as u32)) by {
            assert(b.subrange(off + 3, off + 7) =~= b.subrange(off, off + 7).subrange(3, 7));
        }
        lemma_le32_read(levels.len() as u32, b, off + 3);
        let t2 = 7 + lb.len() as int;
        if b.len() < off + t2 {
            assert(b.subrange(off + 7, b.len() as int) =~= lb.take(b.len() - (off + 7))) by {
                assert(b.subrange(off + 7, b.len() as int) =~= tb.take(avail).subrange(7, avail));
            }
            lemma_parse_levels_cut(b, off + 7, levels);
            return;
        }
        assert(b.subrange(off + 7, off + t2) =~= lb) by {
            assert(b.subrange(off + 7, off + t2) =~= tb.take(avail).subrange(7, t2));
        }
        lemma_parse_levels_back(b, off + 7, levels);
        let lend = off + t2;
        if b.len() < lend + 4 {
            return;
        }
        assert(b.subrange(lend, lend + 4) =~= le32_bytes(n as u32)) by {
            assert(b.subrange(lend, lend + 4) =~= tb.take(avail).subrange(t2, t2 + 4));
        }
        lemma_le32_read(n as u32, b, lend);
        self.lemma_slots_bytes_seg(n);
        assert(b.subrange(lend + 4, b.len() as int) =~= sb.take(b.len() - (lend + 4))) by {
            assert(b.subrange(lend + 4, b.len() as int) =~= tb.take(avail).subrange(t2 + 4, avail));
        }
        self.lemma_parse_slots_cut(b, lend + 4, 0);
    }

    /// Law of the byte format: every proper prefix of what `to_bytes` writes reads back as
    /// an error, never as a tile and never as an abort.
    pub proof fn lemma_truncated_bytes_fail(self, n: nat)
        requires
            n < self.tile_bytes().len(),
            self.tile_bytes().len() <= usize::MAX,
            self.serializable(),
            self.stored_levels_ok(),
        ensures
            parse_tile(self.tile_bytes().take(n as int), 0) is Fail,
    {
        let b = self.tile_bytes().take(n as int);
        assert(b.subrange(0, b.len() as int) =~= self.tile_bytes().take(n as int));
        self.lemma_tile_bytes_cut(b, 0);
    }
}


/// Level `c` of the pyramid of level `a` of a pyramid is its level `a + c`.
pub proof fn lemma_pyramid_level_of_level(b: Seq<bool>, e: nat, a: nat, c: nat)
    requires
        a <= e,
    ensures
        pyramid_level(pyramid_level(b, e, a), (e - a) as nat, c) == pyramid_level(b, e, a + c),
    decreases c,
{
    if c > 0 {
        lemma_pyramid_level_of_level(b, e, a, (c - 1) as nat);
        assert((((e - a) as nat) - (c - 1)) as nat == (e - (a + c - 1)) as nat);
    }
}

/// Halving a coordinate and a block width together keeps the block and halves the offset.
proof fn lemma_half_block(x: int, s: int, d: int)
    requires
        s > 0,
        0 <= x,
        0 <= d <= 1,
    ensures
        (2 * x + d) / (2 * s) == x / s,
        (2 * x + d) % (2 * s) == 2 * (x % s) + d,
{
    vstd::arithmetic::div_mod::lemma_fundamental_div_mod(x, s);
    vstd::arithmetic::div_mod::lemma_mod_pos_bound(x, s);
    let q = x / s;
    let r = x % s;
    assert(2 * x + d == (2 * s) * q + (2 * r + d)) by (nonlinear_arith)
        requires
            x == s * q + r,
    ;
    vstd::arithmetic::div_mod::lemma_fundamental_div_mod_converse(2 * x + d, 2 * s, q, 2 * r + d);
}

/// Splits `a + b * side` back into `a` and `b`.
proof fn lemma_split_row_major(a: int, b: int, side: int)
    requires
        0 <= a < side,
        0 <= b,
    ensures
        (a + b * side) % side == a,
        (a + b * side) / side == b,
{
    vstd::arithmetic::div_mod::lemma_fundamental_div_mod_converse(a + b * side, side, b, a);
}

/// Pixel `(2x + dx, 2y + dy)` of a composed level: that pixel of the sub-tile level whose
/// block holds it.
proof fn lemma_composite_cell_bit(
    mips: Seq<Option<Seq<Seq<bool>>>>,
    grid: int,
    sres: nat,
    k: nat,
    x: int,
    y: int,
    s: int,
    dx: int,
    dy: int,
)
    requires
        grid > 0,
        k < sres,
        s == pow2((sres - k - 1) as nat),
        0 <= x < grid * s,
        0 <= y < grid * s,
        0 <= dx <= 1,
        0 <= dy <= 1,
    ensures
        ({
            let big = pow2((sres - k) as nat) as int;
            let side = grid * big;
            let j = (2 * y + dy) * side + (2 * x + dx);
            &&& 0 <= j < composite_level(mips, grid, sres, k).len()
            &&& composite_level(mips, grid, sres, k)[j] == match mips[x / s + (y / s) * grid] {
                Some(m) => k < m.len() && m[k as int][(2 * (x % s) + dx) + (2 * (y % s) + dy) * big],
                None => false,
            }
        }),
{
    let big = pow2((sres - k) as nat) as int;
    vstd::arithmetic::power2::lemma_pow2_unfold((sres - k) as nat);
    vstd::arithmetic::power2::lemma_pow2_pos((sres - k - 1) as nat);
    assert(big == 2 * s);
    let side = grid * big;
    assert(side == 2 * (grid * s)) by (nonlinear_arith)
        requires
            side == grid * big,
            big == 2 * s,
    ;
    let j = (2 * y + dy) * side + (2 * x + dx);
    assert(2 * x + dx < side && 2 * y + dy < side);
    lemma_split_row_major(2 * x + dx, 2 * y + dy, side);
    assert(j == (2 * x + dx) + (2 * y + dy) * side) by (nonlinear_arith)
        requires
            j == (2 * y + dy) * side + (2 * x + dx),
    ;
    lemma_half_block(x, s, dx);
    lemma_half_block(y, s, dy);
    assert(0 <= j < side * side) by (nonlinear_arith)
        requires
            0 <= 2 * x + dx < side,
            0 <= 2 * y + dy < side,
            j == (2 * x + dx) + (2 * y + dy) * side,
    ;
}

/// One level of a composed mipmap is the 2x2 OR reduction of the level before it, when each
/// sub-tile's level is the reduction of its level before.
proof fn lemma_composite_level_step(mips: Seq<Option<Seq<Seq<bool>>>>, grid: int, sres: nat, k: nat)
    requires
        grid > 0,
        k < sres,
        forall|i: int|
            0 <= i < mips.len() ==> (#[trigger] mips[i] matches Some(m) ==> m.len() > k + 1 && m[k + 1int]
                == or_reduce(m[k as int], pow2((sres - k) as nat))),
        mips.len() == grid * grid,
    ensures
        composite_level(mips, grid, sres, k + 1) == or_reduce(
            composite_level(mips, grid, sres, k),
            (grid * pow2((sres - k) as nat)) as nat,
        ),
{
    let s = pow2((sres - k - 1) as nat) as int;
    let big = pow2((sres - k) as nat) as int;
    vstd::arithmetic::power2::lemma_pow2_unfold((sres - k) as nat);
    vstd::arithmetic::power2::lemma_pow2_pos((sres - k - 1) as nat);
    assert(big == 2 * s);
    let side1 = grid * s;
    let side = grid * big;
    assert(side == 2 * side1) by (nonlinear_arith)
        requires
            side == grid * big,
            side1 == grid * s,
            big == 2 * s,
    ;
    assert(side1 > 0) by (nonlinear_arith)
        requires
            grid > 0,
            s > 0,
            side1 == grid * s,
    ;
    let lhs = composite_level(mips, grid, sres, k + 1);
    let ck = composite_level(mips, grid, sres, k);
    let rhs = or_reduce(ck, side as nat);
    assert((side as nat) / 2 == side1);
    assert forall|i: int| 0 <= i < lhs.len() implies lhs[i] == rhs[i] by {
        vstd::arithmetic::div_mod::lemma_fundamental_div_mod(i, side1);
        vstd::arithmetic::div_mod::lemma_mod_pos_bound(i, side1);
        vstd::arithmetic::div_mod::lemma_div_pos_is_pos(i, side1);
        let x = i % side1;
        let y = i / side1;
        assert(y < side1) by (nonlinear_arith)
            requires
                i == side1 * y + x,
                0 <= x,
                i < side1 * side1,
                side1 > 0,
        ;
        vstd::arithmetic::div_mod::lemma_mod_pos_bound(x, s);
        vstd::arithmetic::div_mod::lemma_mod_pos_bound(y, s);
        vstd::arithmetic::div_mod::lemma_div_pos_is_pos(x, s);
        vstd::arithmetic::div_mod::lemma_div_pos_is_pos(y, s);
        let cell = x / s + (y / s) * grid;
        let q = (x % s) + (y % s) * s;
        lemma_split_row_major(x % s, y % s, s);
        lemma_composite_cell_bit(mips, grid, sres, k, x, y, s, 0, 0);
        lemma_composite_cell_bit(mips, grid, sres, k, x, y, s, 1, 0);
        lemma_composite_cell_bit(mips, grid, sres, k, x, y, s, 0, 1);
        lemma_composite_cell_bit(mips, grid, sres, k, x, y, s, 1, 1);
        assert(x == i % side1 && y == i / side1);
        assert(0 <= cell < grid * grid) by (nonlinear_arith)
            requires
                0 <= x / s,
                0 <= y / s,
                x < side1,
                y < side1,
                side1 == grid * s,
                s > 0,
                cell == x / s + (y / s) * grid,
        ;
        assert((2 * y) * side + 2 * x == (2 * y + 0) * side + (2 * x + 0));
        assert((2 * y) * side + 2 * x + 1 == (2 * y + 0) * side + (2 * x + 1));
        assert((2 * y + 1) * side + 2 * x == (2 * y + 1) * side + (2 * x + 0));
        if let Some(m) = mips[cell] {
            let mk = m[k as int];
            let red = or_reduce(mk, big as nat);
            assert((big as nat) / 2 == s);
            assert(q < s * s) by (nonlinear_arith)
                requires
                    0 <= x % s < s,
                    0 <= y % s < s,
                    q == (x % s) + (y % s) * s,
            ;
            assert(red[q] == (mk[(2 * (y % s)) * big + 2 * (x % s)] || mk[(2 * (y % s)) * big + 2 * (x % s) + 1]
                || mk[(2 * (y % s) + 1) * big + 2 * (x % s)] || mk[(2 * (y % s) + 1) * big + 2 * (x % s) + 1]));
            assert((2 * (y % s)) * big + 2 * (x % s) == (2 * (x % s) + 0) + (2 * (y % s) + 0) * big) by (nonlinear_arith);
            assert((2 * (y % s)) * big + 2 * (x % s) + 1 == (2 * (x % s) + 1) + (2 * (y % s) + 0) * big) by (nonlinear_arith);
            assert((2 * (y % s) + 1) * big + 2 * (x % s) == (2 * (x % s) + 0) + (2 * (y % s) + 1) * big) by (nonlinear_arith);
            assert((2 * (y % s) + 1) * big + 2 * (x % s) + 1 == (2 * (x % s) + 1) + (2 * (y % s) + 1) * big) by (nonlinear_arith);
        }
    }
    assert(lhs.len() == rhs.len());
    assert(lhs =~= rhs);
}

/// Law of mipmap composition: composing sub-tile mipmaps that are each the pyramid of
/// their finest level gives the pyramid of the composed finest level.
pub proof fn lemma_composite_of_pyramids(mips: Seq<Option<Seq<Seq<bool>>>>, span: nat, sres: nat)
    requires
        mips.len() == pow2(span) * pow2(span),
        forall|i: int|
            0 <= i < mips.len() ==> (#[trigger] mips[i] matches Some(m) ==> m.len() > sres && forall|k: int|
                0 <= k <= sres ==> #[trigger] m[k] == pyramid_level(m[0], sres, k as nat)),
    ensures
        composite(mips, span, sres) == pyramid(composite_level(mips, pow2(span) as int, sres, 0), span + sres),
{
    let grid = pow2(span) as int;
    let res = span + sres;
    let c0 = composite_level(mips, grid, sres, 0);
    vstd::arithmetic::power2::lemma_pow2_pos(span);
    let comp = Seq::new(sres + 1, |k: int| composite_level(mips, grid, sres, k as nat));
    assert forall|k: nat| k <= sres implies #[trigger] composite_level(mips, grid, sres, k) == pyramid_level(c0, res, k) by {
        lemma_composite_levels_are_pyramid(mips, span, sres, k);
    }
    let full = composite(mips, span, sres);
    let pyr = pyramid(c0, res);
    assert forall|j: int| 0 <= j < full.len() implies full[j] == pyr[j] by {
        if j <= sres {
            assert(full[j] == comp[j]);
            assert(comp[j] == composite_level(mips, grid, sres, j as nat));
        } else {
            let t = j - sres - 1;
            assert(full[j] == pyramid_level(comp[sres as int], span, (t + 1) as nat));
            assert(comp[sres as int] == pyramid_level(c0, res, sres));
            lemma_pyramid_level_of_level(c0, res, sres, (t + 1) as nat);
            assert((res - sres) as nat == span);
        }
    }
    assert(full =~= pyr);
}

/// Levels `0..=sres` of a composed mipmap of pyramids are the pyramid of its finest level.
proof fn lemma_composite_levels_are_pyramid(mips: Seq<Option<Seq<Seq<bool>>>>, span: nat, sres: nat, k: nat)
    requires
        k <= sres,
        mips.len() == pow2(span) * pow2(span),
        forall|i: int|
            0 <= i < mips.len() ==> (#[trigger] mips[i] matches Some(m) ==> m.len() > sres && forall|k: int|
                0 <= k <= sres ==> #[trigger] m[k] == pyramid_level(m[0], sres, k as nat)),
    ensures
        composite_level(mips, pow2(span) as int, sres, k) == pyramid_level(
            composite_level(mips, pow2(span) as int, sres, 0),
            span + sres,
            k,
        ),
    decreases k,
{
    if k > 0 {
        let grid = pow2(span) as int;
        let j = (k - 1) as nat;
        lemma_composite_levels_are_pyramid(mips, span, sres, j);
        vstd::arithmetic::power2::lemma_pow2_pos(span);
        assert forall|i: int| 0 <= i < mips.len() implies (#[trigger] mips[i] matches Some(m) ==> m.len() > j + 1
            && m[j + 1int] == or_reduce(m[j as int], pow2((sres - j) as nat))) by {
            if let Some(m) = mips[i] {
                assert(m[j + 1int] == pyramid_level(m[0], sres, j + 1));
                assert(m[j as int] == pyramid_level(m[0], sres, j));
            }
        }
        lemma_composite_level_step(mips, grid, sres, j);
        vstd::arithmetic::power2::lemma_pow2_adds(span, (sres - j) as nat);
        assert((span + sres - j) as nat == span + (sres - j) as nat);
    }
}


impl GenericTile {
    /// For callers: a leaf whose mipmap is the full pyramid of its `2^w`-wide base can list
    /// the pixels of every tile of its grid or coarser, at any resolution below `2^63`.
    pub proof fn lemma_pyramid_leaf_pixels_ok(self, x: int, y: int, z: int, res: int)
        requires
            self.leaf(),
            0 <= self.exp(),
            2 * self.exp() < 63,
            2 * self.exp() < usize::BITS,
            self.mipmap() matches Some(bm) && bm.base().len() == pow2(2 * self.exp() as nat)
                && bm.levels_view() == pyramid(bm.base(), self.exp() as nat),
            0 <= z <= self.exp(),
            0 <= x < pow2(z as nat),
            0 <= y < pow2(z as nat),
            0 <= res < 63,
        ensures
            self.pixels_ok(0, 0, x, y, z, res),
    {
        let w = self.width_exp as int;
        let bm = self.bitmap->0;
        vstd::arithmetic::power2::lemma_pow2_pos(z as nat);
        vstd::arithmetic::power2::lemma_pow2_pos(res as nat);
        vstd::arithmetic::power2::lemma_pow2_pos(w as nat);
        vstd::arithmetic::power2::lemma2_to64_rest();
        if z + res <= w {
            let e = (z + res) as nat;
            let s = pow2(res as nat) as int;
            let p = pow2(e) as int;
            vstd::arithmetic::power2::lemma_pow2_pos(e);
            vstd::arithmetic::power2::lemma_pow2_adds(z as nat, res as nat);
            vstd::arithmetic::power2::lemma_pow2_adds(e, e);
            vstd::arithmetic::power2::lemma_pow2_strictly_increases(2 * e, 63);
            vstd::bits::lemma_usize_pow2_no_overflow(2 * e);
            crate::bitmap2d::lemma_pyramid_len(bm.base(), w as nat, (w - res - z) as nat);
            assert((2 * (w - (w - res - z))) as nat == 2 * e);
            assert(bm.levels_view()[w - res - z] == pyramid_level(bm.base(), w as nat, (w - res - z) as nat));
            assert((x + 1) * s <= p && (y + 1) * s <= p) by (nonlinear_arith)
                requires
                    x < pow2(z as nat),
                    y < pow2(z as nat),
                    pow2(z as nat) * s == p,
                    s > 0,
            ;
            assert(0 <= x * s && 0 <= y * s) by (nonlinear_arith)
                requires
                    0 <= x,
                    0 <= y,
                    s > 0,
            ;
            assert((x * s + s - 1) + (y * s + s - 1) * p < p * p) by (nonlinear_arith)
                requires
                    (x + 1) * s <= p,
                    (y + 1) * s <= p,
                    0 <= x * s,
                    0 <= y * s,
                    s > 0,
            ;
            assert(p <= p * p) by (nonlinear_arith)
                requires
                    p > 0,
            ;
            assert(e + e == 2 * e);
            assert(p * p == pow2(2 * e));
            assert(bm.levels_view()[w - res - z].len() == p * p);
            assert(pow2(2 * e) <= usize::MAX);
            assert(pow2(2 * e) <= i64::MAX);
            assert(e < 63);
            assert((x * s + s - 1) + (y * s + s - 1) * pow2(e) < bm.levels_view()[w - res - z].len());
            assert((x * s + s - 1) + (y * s + s - 1) * pow2(e) <= i64::MAX);
            assert((x * s + s - 1) + (y * s + s - 1) * pow2(e) <= usize::MAX);
            assert(x * s + s == (x + 1) * s && y * s + s == (y + 1) * s) by (nonlinear_arith);
            assert(0 + x * s + s - 1 <= i64::MAX);
            assert(0 + y * s + s - 1 <= i64::MAX);
            assert(s > 0 && 0 <= x * s && 0 <= y * s);
            assert(window_fits(bm.levels_view()[w - res - z].len(), e, 0, 0, x * s, y * s, s, s));
            assert(2 * (z + res) < usize::BITS);
        } else {
            let span = (w - z) as nat;
            let side = pow2(span) as int;
            let sres = (z + res - w) as nat;
            let p = pow2(w as nat) as int;
            vstd::arithmetic::power2::lemma_pow2_pos(span);
            vstd::arithmetic::power2::lemma_pow2_adds(z as nat, span);
            vstd::arithmetic::power2::lemma_pow2_adds(span, sres);
            vstd::arithmetic::power2::lemma_pow2_adds(w as nat, w as nat);
            vstd::arithmetic::power2::lemma_pow2_strictly_increases(res as nat, 63);
            vstd::arithmetic::power2::lemma_pow2_strictly_increases(2 * w as nat, 63);
            vstd::bits::lemma_usize_pow2_no_overflow(2 * w as nat);
            assert(span + sres == res as nat);
            assert((x + 1) * side <= p && (y + 1) * side <= p) by (nonlinear_arith)
                requires
                    x < pow2(z as nat),
                    y < pow2(z as nat),
                    pow2(z as nat) * side == p,
                    side > 0,
            ;
            assert(0 <= x * side && 0 <= y * side) by (nonlinear_arith)
                requires
                    0 <= x,
                    0 <= y,
                    side > 0,
            ;
            assert((x * side + side - 1) + (y * side + side - 1) * p < p * p) by (nonlinear_arith)
                requires
                    (x + 1) * side <= p,
                    (y + 1) * side <= p,
                    0 <= x * side,
                    0 <= y * side,
                    side > 0,
            ;
            assert(p <= p * p) by (nonlinear_arith)
                requires
                    p > 0,
            ;
            assert(side * pow2(sres) == pow2(res as nat));
            assert(blocks_fit(0, 0, side, side, sres));
            assert((w as nat) + (w as nat) == 2 * (w as nat));
            assert(p * p == pow2(2 * w as nat));
            assert(pow2(2 * w as nat) <= usize::MAX);
            assert(pow2(2 * w as nat) <= i64::MAX);
            assert(x * side + side == (x + 1) * side && y * side + side == (y + 1) * side) by (nonlinear_arith);
            assert(0 + x * side + side - 1 <= i64::MAX);
            assert(0 + y * side + side - 1 <= i64::MAX);
            assert(window_fits(bm.base().len(), w as nat, 0, 0, x * side, y * side, side, side));
        }
    }
}


impl GenericTile {
    /// For callers: what makes a tile serializable, one level at a time: counts that fit the
    /// format's 32-bit fields, a mipmap whose exponent is the tile's and whose levels a
    /// reader can load, and serializable sub-tiles.
    pub proof fn lemma_serializable(self)
        requires
            self.slots().len() <= 0xffff_ffff,
            self.mipmap() matches Some(bm) ==> {
                &&& bm.exp() == (self.exp() as u8)
                &&& bm.levels_view().len() <= 0xffff_ffff
                &&& forall|k: int|
                    0 <= k < bm.levels_view().len() ==> words_for_bits(#[trigger] bm.levels_view()[k].len())
                        * (usize::BITS as nat) <= max_bits()
            },
            forall|i: int| 0 <= i < self.slots().len() ==> (#[trigger] self.slots()[i] matches Some(t) ==> t.serializable()),
        ensures
            self.serializable(),
    {
        if let Some(bm) = self.bitmap {
            bm.lemma_levels_raw();
            assert forall|k: int| 0 <= k < self.level_vecs().len() implies level_loadable(#[trigger] self.level_vecs()[k]) by {
                assert(bits_of(self.level_vecs()[k]) == bm.levels_view()[k]);
            }
        }
        assert forall|i: int| 0 <= i < self.sub_tiles@.len() implies (#[trigger] self.sub_tiles@[i] matches Some(b)
            ==> (*b).serializable()) by {
            assert(self.slots()[i] == match self.sub_tiles@[i] {
                Some(b) => Some(*b),
                None => None,
            });
        }
    }
}

} // verus!
