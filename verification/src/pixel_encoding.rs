use crate::bitmap2d::{byte_bit, lemma_byte_from_bits};
use crate::tile::{shl1_i64, shl1_i64_exec, xy_to_index};
use vstd::arithmetic::power2::pow2;
use vstd::prelude::*;

verus! {

broadcast use vstd::string::group_string_axioms;

// ---------------------------------------------------------------------------
// Bit addressing inside a byte buffer (bit `i` is bit `i % 8` of byte `i / 8`).
// ---------------------------------------------------------------------------

/// Bit `idx` of a byte buffer in least-significant-bit-first order.
pub open spec fn bit_at(bytes: Seq<u8>, idx: int) -> bool {
    bytes[idx / 8] & (1u8 << ((idx % 8) as u8)) != 0
}

proof fn lemma_byte_or_bit(b: u8, k: u8, m: u8)
    requires
        k < 8,
        m < 8,
    ensures
        ((b | (1u8 << k)) & (1u8 << m) != 0) == (k == m || b & (1u8 << m) != 0),
        ((b & !(1u8 << k)) & (1u8 << m) != 0) == (k != m && b & (1u8 << m) != 0),
{
    assert(((b | (1u8 << k)) & (1u8 << m) != 0) == (k == m || b & (1u8 << m) != 0))
        by (bit_vector)
        requires
            k < 8,
            m < 8,
    ;
    assert(((b & !(1u8 << k)) & (1u8 << m) != 0) == (k != m && b & (1u8 << m) != 0))
        by (bit_vector)
        requires
            k < 8,
            m < 8,
    ;
}

pub fn set_lsb_bit(bytes: &mut [u8], idx: usize, value: bool)
    requires
        idx / 8 < old(bytes)@.len(),
    ensures
        final(bytes)@.len() == old(bytes)@.len(),
        forall|i: int|
            0 <= i < 8 * old(bytes)@.len() ==> #[trigger] bit_at(final(bytes)@, i) == if i
                == idx {
                value
            } else {
                bit_at(old(bytes)@, i)
            },
{
    let byte = idx / 8;
    let bit = idx % 8;
    let mask = 1u8 << (bit as u8);
    if value {
        bytes[byte] = bytes[byte] | mask;
    } else {
        bytes[byte] = bytes[byte] & !mask;
    }
    proof {
        assert forall|i: int| 0 <= i < 8 * old(bytes)@.len() implies #[trigger] bit_at(
            bytes@,
            i,
        ) == if i == idx {
            value
        } else {
            bit_at(old(bytes)@, i)
        } by {
            if i / 8 == byte as int {
                lemma_byte_or_bit(old(bytes)@[byte as int], bit as u8, (i % 8) as u8);
            }
        }
    }
}

pub fn test_lsb_bit(bytes: &[u8], idx: usize) -> (r: bool)
    requires
        idx / 8 < bytes@.len(),
    ensures
        r == bit_at(bytes@, idx as int),
{
    let byte = idx / 8;
    let bit = idx % 8;
    (bytes[byte] & (1u8 << (bit as u8))) != 0
}


// ---------------------------------------------------------------------------
// Error texts.
// ---------------------------------------------------------------------------

/// The decimal digits of a natural number, as `{}` renders it.
pub open spec fn decimal(n: nat) -> Seq<char>
    decreases n,
{
    if n < 10 {
        seq![(48 + n) as char]
    } else {
        decimal(n / 10) + seq![(48 + n % 10) as char]
    }
}

/// An integer as `{}` renders it: a minus sign for a negative one, then its digits.
pub open spec fn signed_decimal(n: int) -> Seq<char> {
    if n < 0 {
        seq!['-'] + decimal((-n) as nat)
    } else {
        decimal(n as nat)
    }
}

/// The message for a pixel outside the bitmap.
pub open spec fn pixel_bounds_text(x: int, y: int, side: int) -> Seq<char> {
    "pixel ("@ + signed_decimal(x) + ", "@ + signed_decimal(y) + ") is outside bitmap bounds [0, "@
        + signed_decimal(side) + ")"@
}

/// The message for a bitmap of the wrong length.
pub open spec fn length_mismatch_text(expected: int, got: int) -> Seq<char> {
    "bitmap length mismatch: expected "@ + signed_decimal(expected) + ", got "@ + signed_decimal(got)
}

/// The message for a decoded coordinate pair outside the bitmap.
pub open spec fn decoded_coord_text(x: int, y: int, side: int) -> Seq<char> {
    "decoded coordinate ("@ + signed_decimal(x) + ", "@ + signed_decimal(y)
        + ") is outside bitmap bounds [0, "@ + signed_decimal(side) + ")"@
}

/// The message for a decoded flat index outside the bitmap.
pub open spec fn decoded_index_text(idx: int, max_idx: int) -> Seq<char> {
    "decoded index "@ + signed_decimal(idx) + " is outside bitmap bounds [0, "@ + signed_decimal(max_idx)
        + ")"@
}

/// Renders, with std's `format!`, the message for a pixel outside `[0, side)`.
/// Contract: the literal text with each integer written in decimal.
#[verifier::external_body]
fn pixel_bounds_error(x: i64, y: i64, side: i64) -> (r: String)
    ensures
        r@ == pixel_bounds_text(x as int, y as int, side as int),
{
    format!("pixel ({}, {}) is outside bitmap bounds [0, {})", x, y, side)
}

/// Renders, with std's `format!`, the message for a bitmap of the wrong byte length.
/// Contract: the literal text with each length written in decimal.
#[verifier::external_body]
fn length_mismatch_error(expected: usize, got: usize) -> (r: String)
    ensures
        r@ == length_mismatch_text(expected as int, got as int),
{
    format!("bitmap length mismatch: expected {}, got {}", expected, got)
}

/// Renders, with std's `format!`, the message for a decoded pair outside `[0, side)`.
/// Contract: the literal text with each integer written in decimal.
#[verifier::external_body]
fn decoded_coord_error(x: u16, y: u16, side: u16) -> (r: String)
    ensures
        r@ == decoded_coord_text(x as int, y as int, side as int),
{
    format!("decoded coordinate ({}, {}) is outside bitmap bounds [0, {})", x, y, side)
}

/// Renders, with std's `format!`, the message for a decoded index outside `[0, max_idx)`.
/// Contract: the literal text with each integer written in decimal.
#[verifier::external_body]
fn decoded_index_error(idx: u32, max_idx: u32) -> (r: String)
    ensures
        r@ == decoded_index_text(idx as int, max_idx as int),
{
    format!("decoded index {} is outside bitmap bounds [0, {})", idx, max_idx)
}

pub open spec fn exp_range_text() -> Seq<char> {
    "bitmap exponent out of supported range [2, 15]"@
}

pub open spec fn coord_list_length_text() -> Seq<char> {
    "coordinate list byte length must be divisible by 4"@
}

pub open spec fn index_list_length_text() -> Seq<char> {
    "u32 index list byte length must be divisible by 4"@
}

// ---------------------------------------------------------------------------
// Geometry of a bitmap tile.
// ---------------------------------------------------------------------------

/// Exponents for which a packed bitmap size is defined.
pub open spec fn supported_exp(exp: nat) -> bool {
    2 <= exp <= 15
}

/// Bytes of a packed `2^exp x 2^exp` bitmap: one bit per pixel.
pub open spec fn bitmap_bytes(exp: nat) -> nat {
    pow2((2 * exp - 3) as nat)
}

/// A pixel lies inside a `side x side` square anchored at the origin.
pub open spec fn in_bounds(p: (i64, i64), side: int) -> bool {
    0 <= p.0 && 0 <= p.1 && p.0 < side && p.1 < side
}

pub open spec fn all_in_bounds(pixels: Seq<(i64, i64)>, side: int) -> bool {
    forall|j: int| 0 <= j < pixels.len() ==> in_bounds(#[trigger] pixels[j], side)
}

/// `k` is the position of the first pixel outside the square.
pub open spec fn is_first_out_of_bounds(pixels: Seq<(i64, i64)>, side: int, k: int) -> bool {
    &&& 0 <= k < pixels.len()
    &&& !in_bounds(pixels[k], side)
    &&& forall|j: int| 0 <= j < k ==> in_bounds(#[trigger] pixels[j], side)
}

/// The first pixel outside the square (meaningful when one exists).
pub open spec fn first_out_of_bounds(pixels: Seq<(i64, i64)>, side: int) -> (i64, i64) {
    pixels[choose|k: int| is_first_out_of_bounds(pixels, side, k)]
}

proof fn lemma_first_out_of_bounds(pixels: Seq<(i64, i64)>, side: int, k: int)
    requires
        is_first_out_of_bounds(pixels, side, k),
    ensures
        first_out_of_bounds(pixels, side) == pixels[k],
{
    let c = choose|k: int| is_first_out_of_bounds(pixels, side, k);
    assert(is_first_out_of_bounds(pixels, side, c));
    if c < k {
        assert(in_bounds(pixels[c], side));
    } else if k < c {
        assert(in_bounds(pixels[k], side));
    }
}

/// Row-major index of a pixel.
pub open spec fn pixel_index(p: (i64, i64), side: int) -> int {
    p.0 + p.1 * side
}

pub fn bitmap_bytes_for_exp(exp: u8) -> (r: Result<usize, String>)
    ensures
        supported_exp(exp as nat) ==> r == Ok::<usize, String>(bitmap_bytes(exp as nat) as usize),
        !supported_exp(exp as nat) ==> (r matches Err(e) && e@ == exp_range_text()),
{
    if exp < 2 || exp > 15 {
        return Err("bitmap exponent out of supported range [2, 15]".to_string());
    }
    let k: usize = 2 * (exp as usize) - 3;
    proof {
        vstd::bits::lemma_usize_pow2_no_overflow(k as nat);
        vstd::bits::lemma_usize_shl_is_mul(1, k);
    }
    Ok(1usize << k)
}


proof fn lemma_bitmap_geometry(exp: nat)
    requires
        supported_exp(exp),
    ensures
        pow2(2 * exp) == pow2(exp) * pow2(exp),
        8 * bitmap_bytes(exp) == pow2(2 * exp),
        4 <= pow2(exp) <= 0x8000,
        pow2(2 * exp) <= 0x4000_0000,
{
    vstd::arithmetic::power2::lemma_pow2_adds(exp, exp);
    vstd::arithmetic::power2::lemma_pow2_adds((2 * exp - 3) as nat, 3);
    vstd::arithmetic::power2::lemma2_to64();
    vstd::arithmetic::power2::lemma_pow2_strictly_increases(1, exp);
    if exp < 15 {
        vstd::arithmetic::power2::lemma_pow2_strictly_increases(exp, 15);
    }
    if 2 * exp < 30 {
        vstd::arithmetic::power2::lemma_pow2_strictly_increases(2 * exp, 30);
    }
}

proof fn lemma_index_in_square(x: int, y: int, side: int)
    requires
        0 <= x < side,
        0 <= y < side,
    ensures
        0 <= x + y * side < side * side,
{
    assert(0 <= x + y * side < side * side) by (nonlinear_arith)
        requires
            0 <= x < side,
            0 <= y < side,
    ;
}

/// The packed bitmap of `pixels`: right length, and a bit set exactly at the indices of the pixels.
pub open spec fn bitmap_encodes(pixels: Seq<(i64, i64)>, exp: nat, bytes: Seq<u8>) -> bool {
    &&& bytes.len() == bitmap_bytes(exp)
    &&& forall|i: int|
        0 <= i < pow2(2 * exp) ==> (#[trigger] bit_at(bytes, i) <==> exists|j: int|
            0 <= j < pixels.len() && pixel_index(#[trigger] pixels[j], pow2(exp) as int) == i)
}

pub fn encode_tile_bitmap(pixels: &[(i64, i64)], tile_bitmap_exp: u8) -> (r: Result<Vec<u8>, String>)
    ensures
        r is Ok <==> supported_exp(tile_bitmap_exp as nat) && all_in_bounds(
            pixels@,
            pow2(tile_bitmap_exp as nat) as int,
        ),
        r matches Ok(b) ==> bitmap_encodes(pixels@, tile_bitmap_exp as nat, b@),
        r matches Err(e) ==> e@ == if !supported_exp(tile_bitmap_exp as nat) {
            exp_range_text()
        } else {
            let p = first_out_of_bounds(pixels@, pow2(tile_bitmap_exp as nat) as int);
            pixel_bounds_text(p.0 as int, p.1 as int, pow2(tile_bitmap_exp as nat) as int)
        },
{
    let byte_count = match bitmap_bytes_for_exp(tile_bitmap_exp) {
        Ok(n) => n,
        Err(e) => return Err(e),
    };
    let ghost exp = tile_bitmap_exp as nat;
    let ghost sidei = pow2(exp) as int;
    proof {
        lemma_bitmap_geometry(exp);
    }
    let side = shl1_i64_exec(tile_bitmap_exp as u32);
    let mut bitmap: Vec<u8> = vec![0u8; byte_count];
    proof {
        assert forall|i: int| 0 <= i < pow2(2 * exp) implies !bit_at(bitmap@, i) by {
            assert(0u8 & (1u8 << ((i % 8) as u8)) == 0) by (bit_vector);
        }
    }
    let mut i: usize = 0;
    while i < pixels.len()
        invariant
            i <= pixels@.len(),
            side == sidei,
            sidei == pow2(exp),
            exp == tile_bitmap_exp as nat,
            supported_exp(exp),
            pow2(2 * exp) == sidei * sidei,
            8 * bitmap_bytes(exp) == pow2(2 * exp),
            4 <= sidei <= 0x8000,
            pow2(2 * exp) <= 0x4000_0000,
            bitmap@.len() == bitmap_bytes(exp),
            forall|j: int| 0 <= j < i ==> in_bounds(#[trigger] pixels@[j], sidei),
            forall|k: int|
                0 <= k < pow2(2 * exp) ==> (#[trigger] bit_at(bitmap@, k) <==> exists|j: int|
                    0 <= j < i && pixel_index(#[trigger] pixels@[j], sidei) == k),
        decreases pixels.len() - i,
    {
        let (x, y) = pixels[i];
        if x < 0 || y < 0 || x >= side || y >= side {
            proof {
                assert(is_first_out_of_bounds(pixels@, sidei, i as int));
                lemma_first_out_of_bounds(pixels@, sidei, i as int);
                assert(!in_bounds(pixels@[i as int], sidei));
            }
            return Err(pixel_bounds_error(x, y, side));
        }
        proof {
            lemma_index_in_square(x as int, y as int, sidei);
            assert(shl1_i64(exp) == sidei);
            assert(0 <= y * sidei <= x + y * sidei);
        }
        let idx = xy_to_index(x, y, tile_bitmap_exp as i16);
        let ghost old_bitmap = bitmap@;
        set_lsb_bit(&mut bitmap, idx, true);
        proof {
            assert forall|k: int| 0 <= k < pow2(2 * exp) implies (#[trigger] bit_at(bitmap@, k)
                <==> exists|j: int|
                0 <= j < i + 1 && pixel_index(#[trigger] pixels@[j], sidei) == k) by {
                assert(idx as int == pixel_index(pixels@[i as int], sidei));
                assert(k < 8 * old_bitmap.len());
                assert(bit_at(bitmap@, k) == (k == idx || bit_at(old_bitmap, k)));
                if k == idx {
                    assert(pixel_index(pixels@[i as int], sidei) == k);
                }
                if exists|j: int| 0 <= j < i + 1 && pixel_index(#[trigger] pixels@[j], sidei) == k {
                    let j = choose|j: int|
                        0 <= j < i + 1 && pixel_index(#[trigger] pixels@[j], sidei) == k;
                    if j < i {
                        assert(bit_at(old_bitmap, k));
                    }
                }
            }
        }
        i += 1;
    }
    Ok(bitmap)
}


/// The set pixels among the first `n` bitmap positions, in row-major order.
pub open spec fn bitmap_pixels(bytes: Seq<u8>, side: int, n: nat) -> Seq<(i64, i64)>
    decreases n,
{
    if n == 0 {
        Seq::empty()
    } else {
        let prev = bitmap_pixels(bytes, side, (n - 1) as nat);
        let i = n - 1;
        if bit_at(bytes, i) {
            prev.push(((i % side) as i64, (i / side) as i64))
        } else {
            prev
        }
    }
}

/// What decoding a packed bitmap gives: the set pixels in row-major order, or the error text.
pub open spec fn decode_tile_bitmap_spec(bytes: Seq<u8>, exp: nat) -> Result<
    Seq<(i64, i64)>,
    Seq<char>,
> {
    if !supported_exp(exp) {
        Err(exp_range_text())
    } else if bytes.len() != bitmap_bytes(exp) {
        Err(length_mismatch_text(bitmap_bytes(exp) as int, bytes.len() as int))
    } else {
        Ok(bitmap_pixels(bytes, pow2(exp) as int, pow2(2 * exp)))
    }
}

pub fn decode_tile_bitmap(bitmap: &[u8], tile_bitmap_exp: u8) -> (r: Result<Vec<(i64, i64)>, String>)
    ensures
        match r {
            Ok(v) => decode_tile_bitmap_spec(bitmap@, tile_bitmap_exp as nat) == Ok::<
                Seq<(i64, i64)>,
                Seq<char>,
            >(v@),
            Err(e) => decode_tile_bitmap_spec(bitmap@, tile_bitmap_exp as nat) == Err::<
                Seq<(i64, i64)>,
                Seq<char>,
            >(e@),
        },
{
    let expected = match bitmap_bytes_for_exp(tile_bitmap_exp) {
        Ok(n) => n,
        Err(e) => return Err(e),
    };
    let ghost exp = tile_bitmap_exp as nat;
    proof {
        lemma_bitmap_geometry(exp);
    }
    if bitmap.len() != expected {
        return Err(length_mismatch_error(expected, bitmap.len()));
    }
    proof {
        vstd::bits::lemma_usize_shl_is_mul(1, tile_bitmap_exp as usize);
    }
    let side: usize = 1usize << (tile_bitmap_exp as usize);
    let pixel_count = side * side;
    let mut out: Vec<(i64, i64)> = Vec::new();
    let mut idx: usize = 0;
    while idx < pixel_count
        invariant
            idx <= pixel_count,
            side == pow2(exp),
            pixel_count == pow2(2 * exp),
            pixel_count == side * side,
            8 * bitmap_bytes(exp) == pow2(2 * exp),
            bitmap@.len() == bitmap_bytes(exp),
            pow2(2 * exp) <= 0x4000_0000,
            4 <= side,
            out@ == bitmap_pixels(bitmap@, side as int, idx as nat),
        decreases pixel_count - idx,
    {
        if test_lsb_bit(bitmap, idx) {
            out.push(((idx % side) as i64, (idx / side) as i64));
        }
        idx += 1;
    }
    Ok(out)
}


/// A row-major index splits back into the pixel it came from.
proof fn lemma_split_index(i: int, side: int)
    requires
        side > 0,
        0 <= i <= i64::MAX,
    ensures
        ({
            let p = ((i % side) as i64, (i / side) as i64);
            &&& pixel_index(p, side) == i
            &&& 0 <= p.0 < side
            &&& 0 <= p.1
        }),
{
    vstd::arithmetic::div_mod::lemma_fundamental_div_mod(i, side);
    vstd::arithmetic::div_mod::lemma_div_pos_is_pos(i, side);
    vstd::arithmetic::div_mod::lemma_div_is_ordered_by_denominator(i, 1, side);
    assert(i * 1 / 1 == i);
    assert(i / side * side == side * (i / side)) by (nonlinear_arith);
}

/// Two pixels of the same row-major index in a square are the same pixel.
proof fn lemma_index_injective(p: (i64, i64), q: (i64, i64), side: int)
    requires
        side > 0,
        0 <= p.0 < side,
        0 <= q.0 < side,
        pixel_index(p, side) == pixel_index(q, side),
    ensures
        p == q,
{
    let i = pixel_index(p, side);
    vstd::arithmetic::div_mod::lemma_fundamental_div_mod_converse(i, side, p.1 as int, p.0 as int);
    vstd::arithmetic::div_mod::lemma_fundamental_div_mod_converse(i, side, q.1 as int, q.0 as int);
}

proof fn lemma_bitmap_pixels(bytes: Seq<u8>, side: int, n: nat)
    requires
        side > 0,
        n <= i64::MAX,
    ensures
        ({
            let out = bitmap_pixels(bytes, side, n);
            &&& forall|k: int|
                0 <= k < out.len() ==> {
                    &&& 0 <= (#[trigger] out[k]).0 < side
                    &&& 0 <= out[k].1
                    &&& pixel_index(out[k], side) < n
                    &&& bit_at(bytes, pixel_index(out[k], side))
                }
            &&& forall|a: int, b: int|
                0 <= a < b < out.len() ==> pixel_index(#[trigger] out[a], side) < pixel_index(
                    #[trigger] out[b],
                    side,
                )
            &&& forall|i: int|
                0 <= i < n && #[trigger] bit_at(bytes, i) ==> out.contains(
                    ((i % side) as i64, (i / side) as i64),
                )
        }),
    decreases n,
{
    if n > 0 {
        lemma_bitmap_pixels(bytes, side, (n - 1) as nat);
        let i = n - 1;
        lemma_split_index(i, side);
        let prev = bitmap_pixels(bytes, side, (n - 1) as nat);
        let out = bitmap_pixels(bytes, side, n);
        if bit_at(bytes, i) {
            assert(out[out.len() - 1] == ((i % side) as i64, (i / side) as i64));
        }
        assert forall|j: int| 0 <= j < n && #[trigger] bit_at(bytes, j) implies out.contains(
            ((j % side) as i64, (j / side) as i64),
        ) by {
            if j < i {
                let w = choose|w: int|
                    0 <= w < prev.len() && prev[w] == ((j % side) as i64, (j / side) as i64);
                assert(out[w] == prev[w]);
            } else {
                assert(out[out.len() - 1] == ((i % side) as i64, (i / side) as i64));
            }
        }
    }
}

/// Decoding a packed bitmap gives back exactly the encoded pixels, each once, in row-major order.
pub proof fn lemma_tile_bitmap_roundtrip(pixels: Seq<(i64, i64)>, exp: nat, bytes: Seq<u8>)
    requires
        supported_exp(exp),
        all_in_bounds(pixels, pow2(exp) as int),
        bitmap_encodes(pixels, exp, bytes),
    ensures
        decode_tile_bitmap_spec(bytes, exp) matches Ok(out) && (forall|p: (i64, i64)|
            out.contains(p) <==> pixels.contains(p)) && (forall|a: int, b: int|
            0 <= a < b < out.len() ==> pixel_index(#[trigger] out[a], pow2(exp) as int)
                < pixel_index(#[trigger] out[b], pow2(exp) as int)),
{
    let side = pow2(exp) as int;
    lemma_bitmap_geometry(exp);
    lemma_bitmap_pixels(bytes, side, pow2(2 * exp));
    let out = bitmap_pixels(bytes, side, pow2(2 * exp));
    assert forall|p: (i64, i64)| out.contains(p) <==> pixels.contains(p) by {
        if pixels.contains(p) {
            let j = choose|j: int| 0 <= j < pixels.len() && pixels[j] == p;
            assert(in_bounds(pixels[j], side));
            let i = pixel_index(p, side);
            lemma_index_in_square(p.0 as int, p.1 as int, side);
            assert(bit_at(bytes, i));
            lemma_split_index(i, side);
            lemma_index_injective(p, ((i % side) as i64, (i / side) as i64), side);
        }
        if out.contains(p) {
            let k = choose|k: int| 0 <= k < out.len() && out[k] == p;
            let i = pixel_index(p, side);
            assert(bit_at(bytes, i));
            let j = choose|j: int| 0 <= j < pixels.len() && pixel_index(#[trigger] pixels[j], side) == i;
            assert(in_bounds(pixels[j], side));
            lemma_index_injective(p, pixels[j], side);
        }
    }
}


// ---------------------------------------------------------------------------
// Sorted coordinate lists.
// ---------------------------------------------------------------------------

/// Lexicographic order on pixel pairs, as std orders tuples.
pub open spec fn pair_le(p: (i64, i64), q: (i64, i64)) -> bool {
    p.0 < q.0 || (p.0 == q.0 && p.1 <= q.1)
}

pub open spec fn pair_lt(p: (i64, i64), q: (i64, i64)) -> bool {
    p.0 < q.0 || (p.0 == q.0 && p.1 < q.1)
}

pub open spec fn strictly_sorted_pairs(s: Seq<(i64, i64)>) -> bool {
    forall|a: int, b: int| 0 <= a < b < s.len() ==> pair_lt(#[trigger] s[a], #[trigger] s[b])
}

/// Calls std's `sort_unstable` on a vector of pairs.
/// Contract: the result is a permutation of the input, in non-decreasing lexicographic order.
#[verifier::external_body]
fn sort_pairs(v: &mut Vec<(i64, i64)>)
    ensures
        final(v)@.to_multiset() == old(v)@.to_multiset(),
        forall|a: int, b: int|
            0 <= a < b < final(v)@.len() ==> pair_le(#[trigger] final(v)@[a], #[trigger] final(v)@[b]),
{
    v.sort_unstable()
}

/// Drops the repeated entries of a sorted vector of pairs.
fn dedup_sorted_pairs(v: &Vec<(i64, i64)>) -> (r: Vec<(i64, i64)>)
    requires
        forall|a: int, b: int| 0 <= a < b < v@.len() ==> pair_le(#[trigger] v@[a], #[trigger] v@[b]),
    ensures
        strictly_sorted_pairs(r@),
        forall|p: (i64, i64)| r@.contains(p) <==> v@.contains(p),
{
    let mut r: Vec<(i64, i64)> = Vec::new();
    let mut i: usize = 0;
    while i < v.len()
        invariant
            i <= v@.len(),
            forall|a: int, b: int| 0 <= a < b < v@.len() ==> pair_le(#[trigger] v@[a], #[trigger] v@[b]),
            strictly_sorted_pairs(r@),
            i > 0 ==> r@.len() > 0 && r@.last() == v@[i - 1],
            i == 0 ==> r@.len() == 0,
            forall|p: (i64, i64)| r@.contains(p) <==> v@.subrange(0, i as int).contains(p),
        decreases v.len() - i,
    {
        let p = v[i];
        let ghost old_r = r@;
        if r.len() == 0 || r[r.len() - 1].0 != p.0 || r[r.len() - 1].1 != p.1 {
            r.push(p);
            proof {
                assert forall|a: int, b: int| 0 <= a < b < r@.len() implies pair_lt(
                    #[trigger] r@[a],
                    #[trigger] r@[b],
                ) by {
                    if b == r@.len() - 1 && a < b {
                        assert(pair_le(v@[i - 1], p));
                        if a < old_r.len() - 1 {
                            assert(pair_lt(old_r[a], old_r[old_r.len() - 1]));
                        }
                    }
                }
            }
        }
        proof {
            assert forall|q: (i64, i64)| r@.contains(q) <==> v@.subrange(0, i + 1).contains(q) by {
                if v@.subrange(0, i + 1).contains(q) {
                    let w = choose|w: int| 0 <= w < i + 1 && #[trigger] v@.subrange(0, i + 1)[w] == q;
                    if w < i {
                        assert(v@.subrange(0, i as int)[w] == q);
                        assert(old_r.contains(q));
                        let u = choose|u: int| 0 <= u < old_r.len() && old_r[u] == q;
                        assert(r@[u] == q);
                    } else {
                        assert(q == p);
                        assert(r@[r@.len() - 1] == q);
                    }
                }
                if r@.contains(q) {
                    let w = choose|w: int| 0 <= w < r@.len() && r@[w] == q;
                    if w < old_r.len() {
                        assert(old_r[w] == q);
                        assert(old_r.contains(q));
                        assert(v@.subrange(0, i as int).contains(q));
                        let u = choose|u: int| 0 <= u < i && #[trigger] v@.subrange(0, i as int)[u] == q;
                        assert(v@.subrange(0, i + 1)[u] == q);
                    } else {
                        assert(v@.subrange(0, i + 1)[i as int] == q);
                    }
                }
            }
        }
        i += 1;
    }
    proof {
        assert(v@.subrange(0, v@.len() as int) == v@);
    }
    r
}


/// `m` is the lexicographically least pixel of `pixels` outside the square.
pub open spec fn is_least_out_of_bounds(pixels: Seq<(i64, i64)>, side: int, m: (i64, i64)) -> bool {
    &&& pixels.contains(m)
    &&& !in_bounds(m, side)
    &&& forall|q: (i64, i64)| pixels.contains(q) && !in_bounds(q, side) ==> pair_le(m, q)
}

/// The lexicographically least pixel outside the square (meaningful when one exists).
pub open spec fn least_out_of_bounds(pixels: Seq<(i64, i64)>, side: int) -> (i64, i64) {
    choose|m: (i64, i64)| is_least_out_of_bounds(pixels, side, m)
}

proof fn lemma_least_out_of_bounds(pixels: Seq<(i64, i64)>, side: int, m: (i64, i64))
    requires
        is_least_out_of_bounds(pixels, side, m),
    ensures
        least_out_of_bounds(pixels, side) == m,
{
    let c = least_out_of_bounds(pixels, side);
    assert(is_least_out_of_bounds(pixels, side, c));
    assert(pair_le(c, m) && pair_le(m, c));
}

/// Low byte of a 16-bit little-endian encoding.
pub open spec fn le16_lo(v: u16) -> u8 {
    (v % 256) as u8
}

/// High byte of a 16-bit little-endian encoding.
pub open spec fn le16_hi(v: u16) -> u8 {
    (v / 256) as u8
}

/// `bytes` holds each pair of `s` in turn: x then y, each as a little-endian `u16`.
pub open spec fn coord_list_bytes(s: Seq<(i64, i64)>, bytes: Seq<u8>) -> bool {
    &&& bytes.len() == 4 * s.len()
    &&& forall|k: int|
        0 <= k < s.len() ==> {
            &&& bytes[4 * k] == le16_lo((#[trigger] s[k]).0 as u16)
            &&& bytes[4 * k + 1] == le16_hi(s[k].0 as u16)
            &&& bytes[4 * k + 2] == le16_lo(s[k].1 as u16)
            &&& bytes[4 * k + 3] == le16_hi(s[k].1 as u16)
        }
}

/// `bytes` is the coordinate-list encoding of `pixels`: their distinct pairs in ascending order.
pub open spec fn encodes_coord_list(pixels: Seq<(i64, i64)>, bytes: Seq<u8>) -> bool {
    exists|s: Seq<(i64, i64)>|
        {
            &&& strictly_sorted_pairs(s)
            &&& forall|p: (i64, i64)| s.contains(p) <==> pixels.contains(p)
            &&& #[trigger] coord_list_bytes(s, bytes)
        }
}

pub fn encode_tile_coord_list(pixels: &[(i64, i64)], tile_bitmap_exp: u8) -> (r: Result<Vec<u8>, String>)
    requires
        tile_bitmap_exp < 64,
    ensures
        r is Ok <==> all_in_bounds(pixels@, shl1_i64(tile_bitmap_exp as nat)),
        r matches Ok(b) ==> encodes_coord_list(pixels@, b@),
        r matches Err(e) ==> {
            let m = least_out_of_bounds(pixels@, shl1_i64(tile_bitmap_exp as nat));
            e@ == pixel_bounds_text(m.0 as int, m.1 as int, shl1_i64(tile_bitmap_exp as nat))
        },
{
    broadcast use vstd::seq_lib::group_to_multiset_ensures;

    let side = shl1_i64_exec(tile_bitmap_exp as u32);
    let ghost sidei = side as int;
    let mut out: Vec<u8> = Vec::new();
    let mut sorted = vstd::slice::slice_to_vec(pixels);
    sort_pairs(&mut sorted);
    let uniq = dedup_sorted_pairs(&sorted);
    proof {
        assert forall|p: (i64, i64)| uniq@.contains(p) <==> pixels@.contains(p) by {
            assert(sorted@.contains(p) <==> sorted@.to_multiset().count(p) > 0);
            assert(pixels@.contains(p) <==> pixels@.to_multiset().count(p) > 0);
        }
    }
    let mut i: usize = 0;
    while i < uniq.len()
        invariant
            i <= uniq@.len(),
            sidei == side,
            side == shl1_i64(tile_bitmap_exp as nat),
            strictly_sorted_pairs(uniq@),
            forall|p: (i64, i64)| uniq@.contains(p) <==> pixels@.contains(p),
            forall|j: int| 0 <= j < i ==> in_bounds(#[trigger] uniq@[j], sidei),
            coord_list_bytes(uniq@.take(i as int), out@),
        decreases uniq.len() - i,
    {
        let (x, y) = uniq[i];
        if x < 0 || y < 0 || x >= side || y >= side {
            proof {
                let m = uniq@[i as int];
                assert(m.0 == x && m.1 == y);
                assert(!in_bounds(m, sidei));
                assert(uniq@.contains(m));
                assert forall|q: (i64, i64)| pixels@.contains(q) && !in_bounds(q, sidei) implies pair_le(
                    m,
                    q,
                ) by {
                    assert(uniq@.contains(q));
                    let j = choose|j: int| 0 <= j < uniq@.len() && uniq@[j] == q;
                    if j < i {
                        assert(in_bounds(uniq@[j], sidei));
                    } else if j > i {
                        assert(pair_lt(uniq@[i as int], uniq@[j]));
                    }
                }
                assert(pixels@.contains(m));
                assert(is_least_out_of_bounds(pixels@, sidei, m));
                lemma_least_out_of_bounds(pixels@, sidei, m);
                assert(!all_in_bounds(pixels@, sidei)) by {
                    let j = choose|j: int| 0 <= j < pixels@.len() && pixels@[j] == m;
                    assert(!in_bounds(pixels@[j], sidei));
                }
            }
            return Err(pixel_bounds_error(x, y, side));
        }
        let xu = #[verifier::truncate] (x as u16);
        let yu = #[verifier::truncate] (y as u16);
        let ghost old_out = out@;
        out.push((xu % 256) as u8);
        out.push((xu / 256) as u8);
        out.push((yu % 256) as u8);
        out.push((yu / 256) as u8);
        proof {
            let t = uniq@.take(i + 1);
            assert forall|k: int| 0 <= k < t.len() implies {
                &&& out@[4 * k] == le16_lo((#[trigger] t[k]).0 as u16)
                &&& out@[4 * k + 1] == le16_hi(t[k].0 as u16)
                &&& out@[4 * k + 2] == le16_lo(t[k].1 as u16)
                &&& out@[4 * k + 3] == le16_hi(t[k].1 as u16)
            } by {
                if k < i {
                    assert(t[k] == uniq@.take(i as int)[k]);
                }
            }
        }
        i += 1;
    }
    proof {
        assert(uniq@.take(uniq@.len() as int) == uniq@);
        assert(coord_list_bytes(uniq@, out@));
        assert forall|j: int| 0 <= j < pixels@.len() implies in_bounds(#[trigger] pixels@[j], sidei) by {
            assert(pixels@.contains(pixels@[j]));
            assert(uniq@.contains(pixels@[j]));
        }
    }
    Ok(out)
}


/// The little-endian `u16` at byte offset `i`.
pub open spec fn le16_at(bytes: Seq<u8>, i: int) -> int {
    bytes[i] + 256 * bytes[i + 1]
}

/// The coordinate pair held by the `k`-th 4-byte chunk.
pub open spec fn coord_chunk(bytes: Seq<u8>, k: int) -> (int, int) {
    (le16_at(bytes, 4 * k), le16_at(bytes, 4 * k + 2))
}

pub open spec fn chunk_in_side(bytes: Seq<u8>, k: int, side: int) -> bool {
    coord_chunk(bytes, k).0 < side && coord_chunk(bytes, k).1 < side
}

pub open spec fn is_first_bad_chunk(bytes: Seq<u8>, side: int, k: int) -> bool {
    &&& 0 <= k < bytes.len() / 4
    &&& !chunk_in_side(bytes, k, side)
    &&& forall|j: int| 0 <= j < k ==> #[trigger] chunk_in_side(bytes, j, side)
}

proof fn lemma_first_bad_chunk_unique(bytes: Seq<u8>, side: int, k: int, c: int)
    requires
        is_first_bad_chunk(bytes, side, k),
        is_first_bad_chunk(bytes, side, c),
    ensures
        k == c,
{
    if c < k {
        assert(chunk_in_side(bytes, c, side));
    } else if k < c {
        assert(chunk_in_side(bytes, k, side));
    }
}

/// What decoding a coordinate list gives: the pairs in stored order, or the error text.
pub open spec fn decode_coord_list_spec(bytes: Seq<u8>, exp: nat) -> Result<
    Seq<(i64, i64)>,
    Seq<char>,
> {
    let side = pow2(exp) as int;
    if bytes.len() % 4 != 0 {
        Err(coord_list_length_text())
    } else if exists|k: int| is_first_bad_chunk(bytes, side, k) {
        let k = choose|k: int| is_first_bad_chunk(bytes, side, k);
        Err(decoded_coord_text(coord_chunk(bytes, k).0, coord_chunk(bytes, k).1, side))
    } else {
        Ok(
            Seq::new(
                (bytes.len() / 4) as nat,
                |k: int| (coord_chunk(bytes, k).0 as i64, coord_chunk(bytes, k).1 as i64),
            ),
        )
    }
}

pub fn decode_tile_coord_list(bytes: &[u8], tile_bitmap_exp: u8) -> (r: Result<Vec<(i64, i64)>, String>)
    requires
        tile_bitmap_exp < 16,
    ensures
        match r {
            Ok(v) => decode_coord_list_spec(bytes@, tile_bitmap_exp as nat) == Ok::<
                Seq<(i64, i64)>,
                Seq<char>,
            >(v@),
            Err(e) => decode_coord_list_spec(bytes@, tile_bitmap_exp as nat) == Err::<
                Seq<(i64, i64)>,
                Seq<char>,
            >(e@),
        },
{
    if !bytes.len().is_multiple_of(4) {
        return Err("coordinate list byte length must be divisible by 4".to_string());
    }
    proof {
        vstd::bits::lemma_u16_pow2_no_overflow(tile_bitmap_exp as nat);
        vstd::bits::lemma_u16_shl_is_mul(1, tile_bitmap_exp as u16);
    }
    let side: u16 = 1u16 << (tile_bitmap_exp as u16);
    let ghost sidei = side as int;
    let n = bytes.len() / 4;
    let mut out: Vec<(i64, i64)> = Vec::new();
    let mut k: usize = 0;
    while k < n
        invariant
            k <= n,
            n == bytes@.len() / 4,
            bytes@.len() % 4 == 0,
            bytes@.len() == 4 * n,
            4 * n <= usize::MAX,
            sidei == side,
            sidei == pow2(tile_bitmap_exp as nat),
            out@.len() == k,
            forall|j: int| 0 <= j < k ==> #[trigger] chunk_in_side(bytes@, j, sidei),
            forall|j: int|
                0 <= j < k ==> #[trigger] out@[j] == (
                    coord_chunk(bytes@, j).0 as i64,
                    coord_chunk(bytes@, j).1 as i64,
                ),
        decreases n - k,
    {
        let x = bytes[4 * k] as u16 + (bytes[4 * k + 1] as u16) * 256;
        let y = bytes[4 * k + 2] as u16 + (bytes[4 * k + 3] as u16) * 256;
        if x >= side || y >= side {
            proof {
                assert(is_first_bad_chunk(bytes@, sidei, k as int));
                let c = choose|c: int| is_first_bad_chunk(bytes@, sidei, c);
                lemma_first_bad_chunk_unique(bytes@, sidei, k as int, c);
            }
            return Err(decoded_coord_error(x, y, side));
        }
        out.push((x as i64, y as i64));
        k += 1;
    }
    proof {
        assert(!exists|c: int| is_first_bad_chunk(bytes@, sidei, c));
        assert(out@ == Seq::new(
            (bytes@.len() / 4) as nat,
            |j: int| (coord_chunk(bytes@, j).0 as i64, coord_chunk(bytes@, j).1 as i64),
        ));
    }
    Ok(out)
}


proof fn lemma_le16_value(v: int)
    requires
        0 <= v < 0x8000,
    ensures
        le16_lo(v as u16) + 256 * le16_hi(v as u16) == v,
{
    assert((v as u16) as int == v);
    vstd::arithmetic::div_mod::lemma_fundamental_div_mod(v, 256);
}

/// Decoding a coordinate list gives back the encoded pixels, each once, in ascending order.
pub proof fn lemma_tile_coord_list_roundtrip(pixels: Seq<(i64, i64)>, exp: nat, bytes: Seq<u8>)
    requires
        exp <= 15,
        all_in_bounds(pixels, pow2(exp) as int),
        encodes_coord_list(pixels, bytes),
    ensures
        decode_coord_list_spec(bytes, exp) matches Ok(out) && strictly_sorted_pairs(out) && (
        forall|p: (i64, i64)| out.contains(p) <==> pixels.contains(p)),
{
    let side = pow2(exp) as int;
    vstd::arithmetic::power2::lemma2_to64();
    if exp < 15 {
        vstd::arithmetic::power2::lemma_pow2_strictly_increases(exp, 15);
    }
    let s = choose|s: Seq<(i64, i64)>|
        {
            &&& strictly_sorted_pairs(s)
            &&& forall|p: (i64, i64)| s.contains(p) <==> pixels.contains(p)
            &&& #[trigger] coord_list_bytes(s, bytes)
        };
    assert forall|k: int| 0 <= k < s.len() implies coord_chunk(bytes, k) == (
        (#[trigger] s[k]).0 as int,
        s[k].1 as int,
    ) && chunk_in_side(bytes, k, side) by {
        assert(s.contains(s[k]));
        let j = choose|j: int| 0 <= j < pixels.len() && pixels[j] == s[k];
        assert(in_bounds(pixels[j], side));
        lemma_le16_value(s[k].0 as int);
        lemma_le16_value(s[k].1 as int);
    }
    assert(bytes.len() / 4 == s.len());
    assert forall|k: int| !is_first_bad_chunk(bytes, side, k) by {
        if 0 <= k < bytes.len() / 4 {
            assert(s[k] == s[k]);
        }
    }
    let out = Seq::new(
        (bytes.len() / 4) as nat,
        |k: int| (coord_chunk(bytes, k).0 as i64, coord_chunk(bytes, k).1 as i64),
    );
    assert(out =~= s);
}


// ---------------------------------------------------------------------------
// Sorted flat index lists.
// ---------------------------------------------------------------------------

pub open spec fn strictly_sorted_u32(s: Seq<u32>) -> bool {
    forall|a: int, b: int| 0 <= a < b < s.len() ==> #[trigger] s[a] < #[trigger] s[b]
}

/// Calls std's `sort_unstable` on a vector of `u32`.
/// Contract: the result is a permutation of the input, in non-decreasing order.
#[verifier::external_body]
fn sort_u32s(v: &mut Vec<u32>)
    ensures
        final(v)@.to_multiset() == old(v)@.to_multiset(),
        forall|a: int, b: int| 0 <= a < b < final(v)@.len() ==> #[trigger] final(v)@[a] <= #[trigger] final(v)@[b],
{
    v.sort_unstable()
}

/// Drops the repeated entries of a sorted vector of `u32`.
fn dedup_sorted_u32s(v: &Vec<u32>) -> (r: Vec<u32>)
    requires
        forall|a: int, b: int| 0 <= a < b < v@.len() ==> #[trigger] v@[a] <= #[trigger] v@[b],
    ensures
        strictly_sorted_u32(r@),
        forall|x: u32| r@.contains(x) <==> v@.contains(x),
{
    let mut r: Vec<u32> = Vec::new();
    let mut i: usize = 0;
    while i < v.len()
        invariant
            i <= v@.len(),
            forall|a: int, b: int| 0 <= a < b < v@.len() ==> #[trigger] v@[a] <= #[trigger] v@[b],
            strictly_sorted_u32(r@),
            i > 0 ==> r@.len() > 0 && r@.last() == v@[i - 1],
            i == 0 ==> r@.len() == 0,
            forall|x: u32| r@.contains(x) <==> v@.subrange(0, i as int).contains(x),
        decreases v.len() - i,
    {
        let x = v[i];
        let ghost old_r = r@;
        if r.len() == 0 || r[r.len() - 1] != x {
            r.push(x);
            proof {
                assert forall|a: int, b: int| 0 <= a < b < r@.len() implies #[trigger] r@[a]
                    < #[trigger] r@[b] by {
                    if b == r@.len() - 1 && a < b {
                        assert(v@[i - 1] <= x);
                        if a < old_r.len() - 1 {
                            assert(old_r[a] < old_r[old_r.len() - 1]);
                        }
                    }
                }
            }
        }
        proof {
            assert forall|q: u32| r@.contains(q) <==> v@.subrange(0, i + 1).contains(q) by {
                if v@.subrange(0, i + 1).contains(q) {
                    let w = choose|w: int| 0 <= w < i + 1 && #[trigger] v@.subrange(0, i + 1)[w] == q;
                    if w < i {
                        assert(v@.subrange(0, i as int)[w] == q);
                        assert(old_r.contains(q));
                        let u = choose|u: int| 0 <= u < old_r.len() && old_r[u] == q;
                        assert(r@[u] == q);
                    } else {
                        assert(r@[r@.len() - 1] == q);
                    }
                }
                if r@.contains(q) {
                    let w = choose|w: int| 0 <= w < r@.len() && r@[w] == q;
                    if w < old_r.len() {
                        assert(old_r[w] == q);
                        assert(old_r.contains(q));
                        assert(v@.subrange(0, i as int).contains(q));
                        let u = choose|u: int| 0 <= u < i && #[trigger] v@.subrange(0, i as int)[u] == q;
                        assert(v@.subrange(0, i + 1)[u] == q);
                    } else {
                        assert(v@.subrange(0, i + 1)[i as int] == q);
                    }
                }
            }
        }
        i += 1;
    }
    proof {
        assert(v@.subrange(0, v@.len() as int) == v@);
    }
    r
}

/// The flat index a pixel is packed to: `x + y * side`, kept to its low 32 bits.
pub open spec fn packed_index(p: (i64, i64), side: int) -> u32 {
    pixel_index(p, side) as u32
}

/// `bytes` holds each value of `s` in turn as a little-endian `u32`.
pub open spec fn index_list_bytes(s: Seq<u32>, bytes: Seq<u8>) -> bool {
    &&& bytes.len() == 4 * s.len()
    &&& forall|k: int|
        0 <= k < s.len() ==> {
            &&& bytes[4 * k] == (#[trigger] s[k] % 256) as u8
            &&& bytes[4 * k + 1] == ((s[k] / 256) % 256) as u8
            &&& bytes[4 * k + 2] == ((s[k] / 65536) % 256) as u8
            &&& bytes[4 * k + 3] == (s[k] / 16777216) as u8
        }
}

/// `bytes` is the flat-index encoding of `pixels`: their distinct packed indices in ascending order.
pub open spec fn encodes_index_list(pixels: Seq<(i64, i64)>, side: int, bytes: Seq<u8>) -> bool {
    exists|s: Seq<u32>|
        {
            &&& strictly_sorted_u32(s)
            &&& forall|v: u32|
                s.contains(v) <==> exists|j: int|
                    0 <= j < pixels.len() && packed_index(#[trigger] pixels[j], side) == v
            &&& #[trigger] index_list_bytes(s, bytes)
        }
}

/// Every in-bounds pixel up to the first out-of-bounds one packs without 64-bit overflow.
pub open spec fn packs_without_overflow(pixels: Seq<(i64, i64)>, side: int) -> bool {
    forall|j: int|
        0 <= j < pixels.len() && (forall|i: int| 0 <= i <= j ==> in_bounds(#[trigger] pixels[i], side))
            ==> pixel_index(#[trigger] pixels[j], side) <= i64::MAX
}

/// Sorted flat `u32` indices: each pixel packed as `x + y * side`.
pub fn encode_tile_coord_u32(pixels: &[(i64, i64)], tile_bitmap_exp: u8) -> (r: Result<Vec<u8>, String>)
    requires
        tile_bitmap_exp < 64,
        packs_without_overflow(pixels@, shl1_i64(tile_bitmap_exp as nat)),
    ensures
        r is Ok <==> all_in_bounds(pixels@, shl1_i64(tile_bitmap_exp as nat)),
        r matches Ok(b) ==> encodes_index_list(pixels@, shl1_i64(tile_bitmap_exp as nat), b@),
        r matches Err(e) ==> {
            let p = first_out_of_bounds(pixels@, shl1_i64(tile_bitmap_exp as nat));
            e@ == pixel_bounds_text(p.0 as int, p.1 as int, shl1_i64(tile_bitmap_exp as nat))
        },
{
    broadcast use vstd::seq_lib::group_to_multiset_ensures;

    let side = shl1_i64_exec(tile_bitmap_exp as u32);
    let ghost sidei = side as int;
    let mut indices: Vec<u32> = Vec::with_capacity(pixels.len());
    let mut i: usize = 0;
    while i < pixels.len()
        invariant
            i <= pixels@.len(),
            sidei == side,
            side == shl1_i64(tile_bitmap_exp as nat),
            packs_without_overflow(pixels@, sidei),
            forall|j: int| 0 <= j < i ==> in_bounds(#[trigger] pixels@[j], sidei),
            indices@.len() == i,
            forall|j: int| 0 <= j < i ==> #[trigger] indices@[j] == packed_index(pixels@[j], sidei),
        decreases pixels.len() - i,
    {
        let (x, y) = pixels[i];
        if x < 0 || y < 0 || x >= side || y >= side {
            proof {
                assert(is_first_out_of_bounds(pixels@, sidei, i as int));
                lemma_first_out_of_bounds(pixels@, sidei, i as int);
                assert(!in_bounds(pixels@[i as int], sidei));
            }
            return Err(pixel_bounds_error(x, y, side));
        }
        proof {
            assert(forall|k: int| 0 <= k <= i ==> in_bounds(#[trigger] pixels@[k], sidei));
            assert(pixel_index(pixels@[i as int], sidei) <= i64::MAX);
            assert(0 <= y * side) by (nonlinear_arith)
                requires
                    0 <= y,
                    0 <= side,
            ;
        }
        indices.push(#[verifier::truncate] ((x + y * side) as u32));
        i += 1;
    }
    let ghost unsorted = indices@;
    sort_u32s(&mut indices);
    let uniq = dedup_sorted_u32s(&indices);
    let ghost packed = Seq::new(pixels@.len(), |j: int| packed_index(pixels@[j], sidei));
    proof {
        assert(indices@.to_multiset() == packed.to_multiset()) by {
            assert(packed =~= unsorted);
        }
    }
    let mut out: Vec<u8> = Vec::new();
    let mut k: usize = 0;
    while k < uniq.len()
        invariant
            k <= uniq@.len(),
            index_list_bytes(uniq@.take(k as int), out@),
        decreases uniq.len() - k,
    {
        let v = uniq[k];
        out.push((v % 256) as u8);
        out.push(((v / 256) % 256) as u8);
        out.push(((v / 65536) % 256) as u8);
        out.push((v / 16777216) as u8);
        proof {
            let t = uniq@.take(k + 1);
            assert forall|j: int| 0 <= j < t.len() implies {
                &&& out@[4 * j] == (#[trigger] t[j] % 256) as u8
                &&& out@[4 * j + 1] == ((t[j] / 256) % 256) as u8
                &&& out@[4 * j + 2] == ((t[j] / 65536) % 256) as u8
                &&& out@[4 * j + 3] == (t[j] / 16777216) as u8
            } by {
                if j < k {
                    assert(t[j] == uniq@.take(k as int)[j]);
                }
            }
        }
        k += 1;
    }
    proof {
        assert(uniq@.take(uniq@.len() as int) == uniq@);
        assert forall|v: u32| uniq@.contains(v) <==> exists|j: int|
            0 <= j < pixels@.len() && packed_index(#[trigger] pixels@[j], sidei) == v by {
            assert(indices@.contains(v) <==> indices@.to_multiset().count(v) > 0);
            assert(packed.contains(v) <==> packed.to_multiset().count(v) > 0);
            if packed.contains(v) {
                let j = choose|j: int| 0 <= j < packed.len() && packed[j] == v;
                assert(packed_index(pixels@[j], sidei) == v);
            }
            if exists|j: int| 0 <= j < pixels@.len() && packed_index(#[trigger] pixels@[j], sidei) == v {
                let j = choose|j: int| 0 <= j < pixels@.len() && packed_index(#[trigger] pixels@[j], sidei) == v;
                assert(packed[j] == v);
            }
        }
        assert(index_list_bytes(uniq@, out@));
    }
    Ok(out)
}


/// The little-endian `u32` at byte offset `i`.
pub open spec fn le32_at(bytes: Seq<u8>, i: int) -> int {
    bytes[i] + 256 * bytes[i + 1] + 65536 * bytes[i + 2] + 16777216 * bytes[i + 3]
}

pub open spec fn is_first_bad_index(bytes: Seq<u8>, max_idx: int, k: int) -> bool {
    &&& 0 <= k < bytes.len() / 4
    &&& le32_at(bytes, 4 * k) >= max_idx
    &&& forall|j: int| 0 <= j < k ==> #[trigger] le32_at(bytes, 4 * j) < max_idx
}

proof fn lemma_first_bad_index_unique(bytes: Seq<u8>, max_idx: int, k: int, c: int)
    requires
        is_first_bad_index(bytes, max_idx, k),
        is_first_bad_index(bytes, max_idx, c),
    ensures
        k == c,
{
    if c < k {
        assert(le32_at(bytes, 4 * c) < max_idx);
    } else if k < c {
        assert(le32_at(bytes, 4 * k) < max_idx);
    }
}

/// What decoding a flat index list gives: each index split into `(x, y)`, or the error text.
pub open spec fn decode_index_list_spec(bytes: Seq<u8>, exp: nat) -> Result<
    Seq<(i64, i64)>,
    Seq<char>,
> {
    let side = pow2(exp) as int;
    let max_idx = side * side;
    if bytes.len() % 4 != 0 {
        Err(index_list_length_text())
    } else if exists|k: int| is_first_bad_index(bytes, max_idx, k) {
        let k = choose|k: int| is_first_bad_index(bytes, max_idx, k);
        Err(decoded_index_text(le32_at(bytes, 4 * k), max_idx))
    } else {
        Ok(
            Seq::new(
                (bytes.len() / 4) as nat,
                |k: int| ((le32_at(bytes, 4 * k) % side) as i64, (le32_at(bytes, 4 * k) / side) as i64),
            ),
        )
    }
}

pub fn decode_tile_coord_u32(bytes: &[u8], tile_bitmap_exp: u8) -> (r: Result<Vec<(i64, i64)>, String>)
    requires
        tile_bitmap_exp < 16,
    ensures
        match r {
            Ok(v) => decode_index_list_spec(bytes@, tile_bitmap_exp as nat) == Ok::<
                Seq<(i64, i64)>,
                Seq<char>,
            >(v@),
            Err(e) => decode_index_list_spec(bytes@, tile_bitmap_exp as nat) == Err::<
                Seq<(i64, i64)>,
                Seq<char>,
            >(e@),
        },
{
    if !bytes.len().is_multiple_of(4) {
        return Err("u32 index list byte length must be divisible by 4".to_string());
    }
    proof {
        vstd::bits::lemma_u32_pow2_no_overflow(tile_bitmap_exp as nat);
        vstd::bits::lemma_u32_shl_is_mul(1, tile_bitmap_exp as u32);
        vstd::arithmetic::power2::lemma_pow2_adds(tile_bitmap_exp as nat, tile_bitmap_exp as nat);
        vstd::bits::lemma_u32_pow2_no_overflow(2 * tile_bitmap_exp as nat);
    }
    let side: u32 = 1u32 << tile_bitmap_exp as u32;
    let max_idx = side * side;
    let n = bytes.len() / 4;
    let mut out: Vec<(i64, i64)> = Vec::new();
    let mut k: usize = 0;
    while k < n
        invariant
            k <= n,
            n == bytes@.len() / 4,
            bytes@.len() % 4 == 0,
            bytes@.len() == 4 * n,
            4 * n <= usize::MAX,
            side == pow2(tile_bitmap_exp as nat),
            max_idx == side * side,
            side > 0,
            out@.len() == k,
            forall|j: int| 0 <= j < k ==> #[trigger] le32_at(bytes@, 4 * j) < max_idx,
            forall|j: int|
                0 <= j < k ==> #[trigger] out@[j] == (
                    (le32_at(bytes@, 4 * j) % side as int) as i64,
                    (le32_at(bytes@, 4 * j) / side as int) as i64,
                ),
        decreases n - k,
    {
        let idx = bytes[4 * k] as u32 + (bytes[4 * k + 1] as u32) * 256 + (bytes[4 * k + 2] as u32)
            * 65536 + (bytes[4 * k + 3] as u32) * 16777216;
        if idx >= max_idx {
            proof {
                assert(is_first_bad_index(bytes@, max_idx as int, k as int));
                let c = choose|c: int| is_first_bad_index(bytes@, max_idx as int, c);
                lemma_first_bad_index_unique(bytes@, max_idx as int, k as int, c);
            }
            return Err(decoded_index_error(idx, max_idx));
        }
        out.push(((idx % side) as i64, (idx / side) as i64));
        k += 1;
    }
    proof {
        assert(!exists|c: int| is_first_bad_index(bytes@, max_idx as int, c));
        assert(out@ == Seq::new(
            (bytes@.len() / 4) as nat,
            |j: int|
                (
                    (le32_at(bytes@, 4 * j) % side as int) as i64,
                    (le32_at(bytes@, 4 * j) / side as int) as i64,
                ),
        ));
    }
    Ok(out)
}


proof fn lemma_le32_value(v: u32)
    ensures
        (v % 256) as u8 + 256 * ((v / 256) % 256) as u8 + 65536 * ((v / 65536) % 256) as u8 + 16777216
            * (v / 16777216) as u8 == v,
{
    assert((v % 256) + 256 * ((v / 256) % 256) + 65536 * ((v / 65536) % 256) + 16777216 * (v
        / 16777216) == v) by (bit_vector);
    assert(v / 16777216 < 256) by (bit_vector);
}

/// Decoding a flat index list gives back the encoded pixels, each once, in row-major order.
pub proof fn lemma_tile_coord_u32_roundtrip(pixels: Seq<(i64, i64)>, exp: nat, bytes: Seq<u8>)
    requires
        exp <= 15,
        all_in_bounds(pixels, pow2(exp) as int),
        encodes_index_list(pixels, pow2(exp) as int, bytes),
    ensures
        decode_index_list_spec(bytes, exp) matches Ok(out) && (forall|p: (i64, i64)|
            out.contains(p) <==> pixels.contains(p)) && (forall|a: int, b: int|
            0 <= a < b < out.len() ==> pixel_index(#[trigger] out[a], pow2(exp) as int)
                < pixel_index(#[trigger] out[b], pow2(exp) as int)),
{
    let side = pow2(exp) as int;
    vstd::arithmetic::power2::lemma2_to64();
    if exp < 15 {
        vstd::arithmetic::power2::lemma_pow2_strictly_increases(exp, 15);
    }
    let max_idx = side * side;
    assert(side * side <= 0x4000_0000) by (nonlinear_arith)
        requires
            0 < side <= 0x8000,
    ;
    let s = choose|s: Seq<u32>|
        {
            &&& strictly_sorted_u32(s)
            &&& forall|v: u32|
                s.contains(v) <==> exists|j: int|
                    0 <= j < pixels.len() && packed_index(#[trigger] pixels[j], side) == v
            &&& #[trigger] index_list_bytes(s, bytes)
        };
    assert forall|k: int| 0 <= k < s.len() implies le32_at(bytes, 4 * k) == #[trigger] s[k] && s[k]
        < max_idx && exists|j: int|
        0 <= j < pixels.len() && pixels[j] == ((s[k] as int % side) as i64, (s[k] as int / side) as i64) by {
        lemma_le32_value(s[k]);
        assert(s.contains(s[k]));
        let j = choose|j: int| 0 <= j < pixels.len() && packed_index(#[trigger] pixels[j], side) == s[k];
        let p = pixels[j];
        assert(in_bounds(p, side));
        lemma_index_in_square(p.0 as int, p.1 as int, side);
        assert(s[k] as int == pixel_index(p, side));
        lemma_split_index(s[k] as int, side);
        lemma_index_injective(p, ((s[k] as int % side) as i64, (s[k] as int / side) as i64), side);
    }
    assert(bytes.len() / 4 == s.len());
    assert forall|k: int| !is_first_bad_index(bytes, max_idx, k) by {
        if 0 <= k < bytes.len() / 4 {
            assert(le32_at(bytes, 4 * k) == s[k] && s[k] < max_idx);
        }
    }
    let out = Seq::new(
        (bytes.len() / 4) as nat,
        |k: int| ((le32_at(bytes, 4 * k) % side) as i64, (le32_at(bytes, 4 * k) / side) as i64),
    );
    assert forall|k: int| 0 <= k < out.len() implies pixel_index(#[trigger] out[k], side) == s[k] by {
        assert(le32_at(bytes, 4 * k) == s[k]);
        lemma_split_index(s[k] as int, side);
    }
    assert forall|p: (i64, i64)| out.contains(p) <==> pixels.contains(p) by {
        if pixels.contains(p) {
            let j = choose|j: int| 0 <= j < pixels.len() && pixels[j] == p;
            assert(in_bounds(pixels[j], side));
            assert(packed_index(pixels[j], side) == packed_index(pixels[j], side));
            assert(s.contains(packed_index(p, side)));
            let k = choose|k: int| 0 <= k < s.len() && s[k] == packed_index(p, side);
            lemma_index_in_square(p.0 as int, p.1 as int, side);
            lemma_split_index(s[k] as int, side);
            assert(le32_at(bytes, 4 * k) == s[k]);
            lemma_index_injective(p, out[k], side);
            assert(out[k] == p);
        }
        if out.contains(p) {
            let k = choose|k: int| 0 <= k < out.len() && out[k] == p;
            assert(le32_at(bytes, 4 * k) == s[k]);
        }
    }
}


/// Law of the packed bitmap: the pixels that a correctly sized bitmap decodes to lie in the
/// tile, and encoding them gives back that bitmap, byte for byte.
pub proof fn lemma_tile_bitmap_decode_encode(bytes: Seq<u8>, exp: nat, out: Seq<(i64, i64)>, again: Seq<u8>)
    requires
        decode_tile_bitmap_spec(bytes, exp) == Ok::<Seq<(i64, i64)>, Seq<char>>(out),
        bitmap_encodes(out, exp, again),
    ensures
        supported_exp(exp),
        all_in_bounds(out, pow2(exp) as int),
        again == bytes,
{
    let side = pow2(exp) as int;
    let n = pow2(2 * exp);
    lemma_bitmap_geometry(exp);
    lemma_bitmap_pixels(bytes, side, n);
    assert forall|j: int| 0 <= j < out.len() implies in_bounds(#[trigger] out[j], side) by {
        let p = out[j];
        assert(p.1 < side) by (nonlinear_arith)
            requires
                0 <= p.0,
                0 <= p.1,
                p.0 + p.1 * side < n,
                n == side * side,
                side > 0,
        ;
    }
    assert forall|i: int| 0 <= i < n implies #[trigger] bit_at(again, i) == bit_at(bytes, i) by {
        if bit_at(bytes, i) {
            lemma_split_index(i, side);
            let p = ((i % side) as i64, (i / side) as i64);
            assert(out.contains(p));
            let j = choose|j: int| 0 <= j < out.len() && out[j] == p;
            assert(pixel_index(out[j], side) == i);
        }
        if bit_at(again, i) {
            let j = choose|j: int| 0 <= j < out.len() && pixel_index(#[trigger] out[j], side) == i;
            assert(bit_at(bytes, pixel_index(out[j], side)));
        }
    }
    assert forall|m: int| 0 <= m < bytes.len() implies #[trigger] again[m] == bytes[m] by {
        assert forall|k: int| 0 <= k < 8 implies #[trigger] byte_bit(again[m], k) == byte_bit(bytes[m], k) by {
            let i = 8 * m + k;
            assert(i / 8 == m && i % 8 == k);
            assert(i < n);
            assert(bit_at(again, i) == bit_at(bytes, i));
        }
        lemma_byte_from_bits(again[m], bytes[m]);
    }
    assert(again =~= bytes);
}

/// Two lists of in-tile pixels, each strictly increasing by row-major index, that hold the
/// same pixels are the same list.
proof fn lemma_sorted_same_pixels(a: Seq<(i64, i64)>, b: Seq<(i64, i64)>, side: int)
    requires
        side > 0,
        all_in_bounds(a, side),
        all_in_bounds(b, side),
        forall|i: int, j: int| 0 <= i < j < a.len() ==> pixel_index(#[trigger] a[i], side) < pixel_index(#[trigger] a[j], side),
        forall|i: int, j: int| 0 <= i < j < b.len() ==> pixel_index(#[trigger] b[i], side) < pixel_index(#[trigger] b[j], side),
        forall|p: (i64, i64)| a.contains(p) <==> b.contains(p),
    ensures
        a == b,
    decreases a.len() + b.len(),
{
    if a.len() == 0 {
        if b.len() > 0 {
            assert(b.contains(b[0]));
        }
        assert(a =~= b);
    } else if b.len() == 0 {
        assert(a.contains(a[0]));
    } else {
        let la = a.last();
        let lb = b.last();
        assert(a.contains(la));
        assert(b.contains(lb));
        let ia = choose|i: int| 0 <= i < a.len() && a[i] == lb;
        let ib = choose|i: int| 0 <= i < b.len() && b[i] == la;
        assert(pixel_index(lb, side) <= pixel_index(la, side)) by {
            if ia < a.len() - 1 {
                assert(pixel_index(a[ia], side) < pixel_index(a[a.len() - 1], side));
            }
        }
        assert(pixel_index(la, side) <= pixel_index(lb, side)) by {
            if ib < b.len() - 1 {
                assert(pixel_index(b[ib], side) < pixel_index(b[b.len() - 1], side));
            }
        }
        assert(in_bounds(a[a.len() - 1], side));
        assert(in_bounds(b[b.len() - 1], side));
        lemma_pixel_index_injective(la, lb, side);
        let a2 = a.drop_last();
        let b2 = b.drop_last();
        assert forall|p: (i64, i64)| a2.contains(p) <==> b2.contains(p) by {
            if a2.contains(p) {
                let i = choose|i: int| 0 <= i < a2.len() && a2[i] == p;
                assert(pixel_index(a[i], side) < pixel_index(a[a.len() - 1], side));
                assert(a.contains(p));
                let j = choose|j: int| 0 <= j < b.len() && b[j] == p;
                assert(j != b.len() - 1);
                assert(b2[j] == p);
            }
            if b2.contains(p) {
                let i = choose|i: int| 0 <= i < b2.len() && b2[i] == p;
                assert(pixel_index(b[i], side) < pixel_index(b[b.len() - 1], side));
                assert(b.contains(p));
                let j = choose|j: int| 0 <= j < a.len() && a[j] == p;
                assert(j != a.len() - 1);
                assert(a2[j] == p);
            }
        }
        assert forall|i: int, j: int| 0 <= i < j < a2.len() implies pixel_index(#[trigger] a2[i], side) < pixel_index(
            #[trigger] a2[j],
            side,
        ) by {
            assert(a2[i] == a[i] && a2[j] == a[j]);
        }
        assert forall|i: int, j: int| 0 <= i < j < b2.len() implies pixel_index(#[trigger] b2[i], side) < pixel_index(
            #[trigger] b2[j],
            side,
        ) by {
            assert(b2[i] == b[i] && b2[j] == b[j]);
        }
        assert forall|j: int| 0 <= j < a2.len() implies in_bounds(#[trigger] a2[j], side) by {
            assert(a2[j] == a[j]);
        }
        assert forall|j: int| 0 <= j < b2.len() implies in_bounds(#[trigger] b2[j], side) by {
            assert(b2[j] == b[j]);
        }
        lemma_sorted_same_pixels(a2, b2, side);
        assert(a =~= a2.push(la));
        assert(b =~= b2.push(lb));
    }
}

/// In-tile pixels with the same row-major index are the same pixel.
proof fn lemma_pixel_index_injective(p: (i64, i64), q: (i64, i64), side: int)
    requires
        in_bounds(p, side),
        in_bounds(q, side),
        pixel_index(p, side) == pixel_index(q, side),
    ensures
        p == q,
{
    vstd::arithmetic::div_mod::lemma_fundamental_div_mod_converse(pixel_index(p, side), side, p.1 as int, p.0 as int);
    vstd::arithmetic::div_mod::lemma_fundamental_div_mod_converse(pixel_index(q, side), side, q.1 as int, q.0 as int);
}

/// Law of the pixel encodings: the packed-index list and the packed bitmap of the same
/// in-tile pixels decode to the same list of pixels.
pub proof fn lemma_index_list_agrees_with_bitmap(
    pixels: Seq<(i64, i64)>,
    exp: nat,
    bitmap: Seq<u8>,
    list: Seq<u8>,
)
    requires
        supported_exp(exp),
        all_in_bounds(pixels, pow2(exp) as int),
        bitmap_encodes(pixels, exp, bitmap),
        encodes_index_list(pixels, pow2(exp) as int, list),
    ensures
        decode_tile_bitmap_spec(bitmap, exp) is Ok,
        decode_index_list_spec(list, exp) == decode_tile_bitmap_spec(bitmap, exp),
{
    let side = pow2(exp) as int;
    lemma_bitmap_geometry(exp);
    lemma_tile_bitmap_roundtrip(pixels, exp, bitmap);
    lemma_tile_coord_u32_roundtrip(pixels, exp, list);
    let a = decode_tile_bitmap_spec(bitmap, exp)->Ok_0;
    let b = decode_index_list_spec(list, exp)->Ok_0;
    assert forall|j: int| 0 <= j < a.len() implies in_bounds(#[trigger] a[j], side) by {
        assert(a.contains(a[j]));
        assert(pixels.contains(a[j]));
        let k = choose|k: int| 0 <= k < pixels.len() && pixels[k] == a[j];
        assert(in_bounds(pixels[k], side));
    }
    assert forall|j: int| 0 <= j < b.len() implies in_bounds(#[trigger] b[j], side) by {
        assert(b.contains(b[j]));
        assert(pixels.contains(b[j]));
        let k = choose|k: int| 0 <= k < pixels.len() && pixels[k] == b[j];
        assert(in_bounds(pixels[k], side));
    }
    lemma_sorted_same_pixels(b, a, side);
}

} // verus!
