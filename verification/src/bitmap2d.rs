use crate::bits::{
    words_of, bits_of, ext_as_raw_slice, ext_from_vec, ext_index, ext_len, ext_not_any, ext_repeat, ext_set,
    ext_truncate, max_bits, word_bit, BitVec,
};
use vstd::arithmetic::power2::pow2;
use crate::pixel_encoding::bit_at;
use vstd::prelude::*;

verus! {

/// Byte `j` (little-endian) of a machine word.
pub open spec fn word_byte(word: usize, j: int) -> u8 {
    ((word >> ((8 * j) as usize)) & 0xffusize) as u8
}

proof fn lemma_word_byte_bit(word: usize, s: usize, k: usize)
    requires
        s + 8 <= usize::BITS,
        k < 8,
    ensures
        ((((word >> s) & 0xffusize) as u8) & (1u8 << (k as u8)) != 0) == ((word >> ((s + k) as usize))
            & 1usize == 1usize),
{
    assert(((((word >> s) & 0xffusize) as u8) & (1u8 << (k as u8)) != 0) == ((word >> ((s + k) as usize))
        & 1usize == 1usize)) by (bit_vector)
        requires
            s + 8 <= usize::BITS,
            k < 8,
    ;
}

/// Splits a bit index into the byte that holds it within its word.
proof fn lemma_bit_position(i: int)
    requires
        0 <= i,
    ensures
        (i / 8) / (usize::BITS as int / 8) == i / (usize::BITS as int),
        8 * ((i / 8) % (usize::BITS as int / 8)) + i % 8 == i % (usize::BITS as int),
{
    let b = usize::BITS as int / 8;
    assert(8 * b == usize::BITS as int);
    vstd::arithmetic::div_mod::lemma_div_denominator(i, 8, b);
    vstd::arithmetic::div_mod::lemma_mod_breakdown(i, 8, b);
}

/// Little-endian bytes of a run of words, cut to `ceil(n / 8)` bytes.
pub open spec fn lsb_bytes(words: Seq<usize>, n: nat) -> Seq<u8> {
    Seq::new(
        ((n + 7) / 8) as nat,
        |m: int| word_byte(words[m / (usize::BITS as int / 8)], m % (usize::BITS as int / 8)),
    )
}

/// Bit `i` of the byte image of some words is bit `i` of the words.
proof fn lemma_lsb_bytes_bit(words: Seq<usize>, n: nat, i: int)
    requires
        0 <= i < n,
        words.len() * (usize::BITS as int) >= n,
    ensures
        bit_at(lsb_bytes(words, n), i) == word_bit(words, i),
{
    let b = usize::BITS as int / 8;
    let m = i / 8;
    lemma_bit_position(i);
    assert(i / (usize::BITS as int) < words.len()) by {
        vstd::arithmetic::div_mod::lemma_div_is_ordered(i, n as int, usize::BITS as int);
        vstd::arithmetic::div_mod::lemma_div_by_multiple(words.len() as int, usize::BITS as int);
        vstd::arithmetic::div_mod::lemma_div_is_ordered(n as int, words.len() * (usize::BITS as int), usize::BITS as int);
    }
    lemma_word_byte_bit(words[m / b], (8 * (m % b)) as usize, (i % 8) as usize);
}

/// The bit-vector's storage words written out as little-endian bytes, cut to `ceil(len / 8)` bytes.
///
/// Bit `i` of the vector is bit `i % 8` of byte `i / 8`. Bits of the last byte past the
/// vector's length are whatever the storage word holds there.
pub fn bitvec_to_bytes_lsb(bits: &BitVec) -> (r: Vec<u8>)
    ensures
        r@ == lsb_bytes(words_of(*bits), bits_of(*bits).len()),
        r@.len() == (bits_of(*bits).len() + 7) / 8,
        forall|i: int| 0 <= i < bits_of(*bits).len() ==> #[trigger] bit_at(r@, i) == bits_of(*bits)[i],
{
    let n = ext_len(bits);
    let byte_count = (n + 7) / 8;
    let raw_words = ext_as_raw_slice(bits);
    let bytes_per_word: usize = (usize::BITS / 8) as usize;
    let ghost wb = usize::BITS as int;
    proof {
        vstd::arithmetic::div_mod::lemma_fundamental_div_mod(n + wb - 1, wb);
        assert(raw_words@.len() * bytes_per_word <= usize::MAX / 8) by (nonlinear_arith)
            requires
                wb * raw_words@.len() <= n + wb - 1,
                wb == 8 * bytes_per_word,
                n <= usize::MAX / 8,
                wb <= 64,
        ;
    }
    let mut out: Vec<u8> = Vec::new();
    let mut w: usize = 0;
    while w < raw_words.len()
        invariant
            w <= raw_words@.len(),
            bytes_per_word == wb / 8,
            wb == usize::BITS,
            raw_words@.len() * bytes_per_word <= usize::MAX / 8,
            out@.len() == w * bytes_per_word,
            forall|m: int|
                0 <= m < out@.len() ==> #[trigger] out@[m] == word_byte(
                    raw_words@[m / bytes_per_word as int],
                    m % bytes_per_word as int,
                ),
        decreases raw_words.len() - w,
    {
        let word = raw_words[w];
        let mut k: usize = 0;
        while k < bytes_per_word
            invariant
                w < raw_words@.len(),
                word == raw_words@[w as int],
                k <= bytes_per_word,
                bytes_per_word == wb / 8,
                wb == usize::BITS,
                raw_words@.len() * bytes_per_word <= usize::MAX / 8,
                out@.len() == w * bytes_per_word + k,
                forall|m: int|
                    0 <= m < out@.len() ==> #[trigger] out@[m] == word_byte(
                        raw_words@[m / bytes_per_word as int],
                        m % bytes_per_word as int,
                    ),
            decreases bytes_per_word - k,
        {
            proof {
                assert(w * bytes_per_word + k <= usize::MAX) by (nonlinear_arith)
                    requires
                        w < raw_words@.len(),
                        k < bytes_per_word,
                        raw_words@.len() * bytes_per_word <= usize::MAX / 8,
                ;
            }
            out.push(((word >> (8 * k)) & 0xff) as u8);
            proof {
                let m = (w * bytes_per_word + k) as int;
                vstd::arithmetic::div_mod::lemma_fundamental_div_mod_converse(
                    m,
                    bytes_per_word as int,
                    w as int,
                    k as int,
                );
            }
            k += 1;
        }
        proof {
            assert(w * bytes_per_word + bytes_per_word == (w + 1) * bytes_per_word) by (nonlinear_arith);
        }
        w += 1;
    }
    proof {
        assert(raw_words@.len() * bytes_per_word >= byte_count) by (nonlinear_arith)
            requires
                raw_words@.len() == (n + wb - 1) / wb,
                wb == 8 * bytes_per_word,
                bytes_per_word >= 4,
                byte_count == (n + 7) / 8,
        ;
    }
    let ghost full = out@;
    out.truncate(byte_count);
    proof {
        assert(out@ =~= lsb_bytes(words_of(*bits), bits_of(*bits).len()));
        assert forall|i: int| 0 <= i < bits_of(*bits).len() implies #[trigger] bit_at(out@, i)
            == bits_of(*bits)[i] by {
            assert(raw_words@.len() * wb >= n) by (nonlinear_arith)
                requires
                    raw_words@.len() == (n + wb - 1) / wb,
                    wb > 0,
            {
                vstd::arithmetic::div_mod::lemma_fundamental_div_mod(n + wb - 1, wb);
            }
            lemma_lsb_bytes_bit(raw_words@, n as nat, i);
        }
    }
    out
}


proof fn lemma_or_byte_bit(old: usize, b: u8, s: usize, t: usize)
    requires
        s + 8 <= usize::BITS,
        t < usize::BITS,
    ensures
        (((old | ((b as usize) << s)) >> t) & 1usize == 1usize) == (((old >> t) & 1usize == 1usize) || (s
            <= t < s + 8 && b & (1u8 << ((t - s) as u8)) != 0)),
{
    assert((((old | ((b as usize) << s)) >> t) & 1usize == 1usize) == (((old >> t) & 1usize == 1usize)
        || (s <= t < s + 8 && b & (1u8 << ((t - s) as u8)) != 0))) by (bit_vector)
        requires
            s + 8 <= usize::BITS,
            t < usize::BITS,
    ;
}

pub(crate) proof fn lemma_ceil_div(x: int, d: int)
    requires
        0 <= x,
        0 < d,
    ensures
        (x + d - 1) / d == x / d + if x % d != 0 {
            1int
        } else {
            0int
        },
{
    vstd::arithmetic::div_mod::lemma_fundamental_div_mod(x, d);
    let q = x / d;
    let r = x % d;
    assert(d * q == q * d) by (nonlinear_arith);
    if r == 0 {
        vstd::arithmetic::div_mod::lemma_fundamental_div_mod_converse(x + d - 1, d, q, d - 1);
    } else {
        assert((q + 1) * d == q * d + d) by (nonlinear_arith);
        vstd::arithmetic::div_mod::lemma_fundamental_div_mod_converse(x + d - 1, d, q + 1, r - 1);
    }
}

proof fn lemma_zero_word_bit(t: usize)
    requires
        t < usize::BITS,
    ensures
        (0usize >> t) & 1usize != 1usize,
{
    assert((0usize >> t) & 1usize != 1usize) by (bit_vector);
}

/// Words of storage for `bit_count` bits packed eight to a byte.
pub open spec fn words_for_bits(bit_count: nat) -> nat {
    let byte_count = (bit_count + 7) / 8;
    let bytes_per_word = usize::BITS as int / 8;
    ((byte_count + bytes_per_word - 1) / bytes_per_word) as nat
}

/// Unpacks `bit_count` bits from bytes (bit `i` is bit `i % 8` of byte `i / 8`).
pub fn bitvec_from_bytes_lsb(bytes: &[u8], bit_count: usize) -> (r: BitVec)
    requires
        bytes@.len() >= (bit_count + 7) / 8,
        words_for_bits(bit_count as nat) * (usize::BITS as nat) <= max_bits(),
    ensures
        bits_of(r) == Seq::new(bit_count as nat, |i: int| bit_at(bytes@, i)),
        lsb_bytes(words_of(r), bit_count as nat) == bytes@.take((bit_count + 7) / 8),
{
    let byte_count = bit_count / 8 + if bit_count % 8 != 0 {
        1usize
    } else {
        0usize
    };
    let bytes_per_word: usize = (usize::BITS / 8) as usize;
    let word_count = byte_count / bytes_per_word + if byte_count % bytes_per_word != 0 {
        1usize
    } else {
        0usize
    };
    let ghost wb = usize::BITS as int;
    proof {
        lemma_ceil_div(bit_count as int, 8);
        lemma_ceil_div(byte_count as int, bytes_per_word as int);
        assert(byte_count == (bit_count + 7) / 8);
        assert(word_count == words_for_bits(bit_count as nat));
        assert(word_count * bytes_per_word >= byte_count) by (nonlinear_arith)
            requires
                word_count == byte_count / bytes_per_word + if byte_count % bytes_per_word != 0 {
                    1int
                } else {
                    0int
                },
                bytes_per_word > 0,
        ;
    }
    let mut words: Vec<usize> = vec![0usize; word_count];
    proof {
        assert forall|j: int| 0 <= j < word_count * wb implies !#[trigger] word_bit(words@, j) by {
            lemma_zero_word_bit((j % wb) as usize);
        }
    }
    let mut i: usize = 0;
    while i < byte_count
        invariant
            i <= byte_count,
            byte_count == (bit_count + 7) / 8,
            byte_count <= bytes@.len(),
            bytes_per_word == wb / 8,
            wb == usize::BITS,
            words@.len() == word_count,
            word_count * bytes_per_word >= byte_count,
            forall|j: int|
                0 <= j < word_count * wb ==> #[trigger] word_bit(words@, j) == (j / 8 < i && bit_at(
                    bytes@,
                    j,
                )),
        decreases byte_count - i,
    {
        let word_idx = i / bytes_per_word;
        let shift = (i % bytes_per_word) * 8;
        proof {
            assert(word_idx < word_count) by (nonlinear_arith)
                requires
                    word_idx == i / bytes_per_word,
                    i < byte_count,
                    word_count * bytes_per_word >= byte_count,
                    bytes_per_word > 0,
            ;
        }
        let ghost old_words = words@;
        let b = bytes[i];
        words[word_idx] = words[word_idx] | ((b as usize) << shift);
        proof {
            assert forall|j: int| 0 <= j < word_count * wb implies #[trigger] word_bit(words@, j) == (j
                / 8 < i + 1 && bit_at(bytes@, j)) by {
                lemma_bit_position(j);
                vstd::arithmetic::div_mod::lemma_fundamental_div_mod(i as int, bytes_per_word as int);
                vstd::arithmetic::div_mod::lemma_fundamental_div_mod(j / 8, bytes_per_word as int);
                let t = j % wb;
                let bw = bytes_per_word as int;
                let ii = i as int;
                if j / wb == word_idx as int {
                    lemma_or_byte_bit(old_words[word_idx as int], b, shift, t as usize);
                    assert(word_bit(old_words, j) == (j / 8 < i && bit_at(bytes@, j)));
                    assert((j / 8) / bw == ii / bw);
                    assert(j / 8 == bw * ((j / 8) / bw) + (j / 8) % bw);
                    assert(ii == bw * (ii / bw) + ii % bw);
                    assert((j / 8 == ii) == ((j / 8) % bw == ii % bw));
                    assert(shift == 8 * (ii % bw));
                    assert(t == 8 * ((j / 8) % bw) + j % 8);
                    assert((shift <= t < shift + 8) == (j / 8 == ii));
                    if j / 8 == ii {
                        assert(t - shift == j % 8);
                        assert(bytes@[j / 8] == b);
                    }
                    assert(words@[j / wb] == old_words[j / wb] | ((b as usize) << shift));
                    assert(word_bit(words@, j) == (((words@[j / wb] >> (t as usize)) & 1usize) == 1usize));
                    assert(word_bit(old_words, j) == (((old_words[j / wb] >> (t as usize)) & 1usize) == 1usize));
                    assert(j / wb == word_idx as int);
                    assert(word_bit(words@, j) == (word_bit(old_words, j) || (shift <= t < shift + 8 && b & (1u8 << ((t - shift) as u8)) != 0)));
                    assert(word_bit(words@, j) == (word_bit(old_words, j) || (j / 8 == ii && bit_at(bytes@, j))));
                } else {
                    assert(j / 8 != ii);
                    assert(words@[j / wb] == old_words[j / wb]);
                    assert(word_bit(old_words, j) == (j / 8 < i && bit_at(bytes@, j)));
                }
            }
        }
        i += 1;
    }
    let mut bitvec = ext_from_vec(words);
    ext_truncate(&mut bitvec, bit_count);
    proof {
        assert(bit_count <= word_count * wb) by (nonlinear_arith)
            requires
                word_count * bytes_per_word >= byte_count,
                byte_count == (bit_count + 7) / 8,
                wb == 8 * bytes_per_word,
        ;
        assert(bits_of(bitvec) =~= Seq::new(bit_count as nat, |k: int| bit_at(bytes@, k)));
        let wv = words_of(bitvec);
        let lb = lsb_bytes(wv, bit_count as nat);
        assert forall|m: int| 0 <= m < byte_count implies #[trigger] lb[m] == bytes@[m] by {
            let bw = bytes_per_word as int;
            lemma_bit_position(8 * m);
            assert((8 * m) / 8 == m && (8 * m) % 8 == 0);
            let qi = m / bw;
            assert(8 * m < bit_count) by (nonlinear_arith)
                requires
                    m < byte_count,
                    byte_count == (bit_count + 7) / 8,
            ;
            assert(qi < word_count) by (nonlinear_arith)
                requires
                    qi == m / bw,
                    m < byte_count,
                    word_count * bw >= byte_count,
                    bw > 0,
            ;
            let keep = (bit_count + wb - 1) / wb;
            if bit_count < word_count * wb {
                assert(qi < keep) by {
                    assert(qi == (8 * m) / wb);
                    vstd::arithmetic::div_mod::lemma_fundamental_div_mod(8 * m, wb);
                    vstd::arithmetic::div_mod::lemma_fundamental_div_mod(bit_count + wb - 1, wb);
                    assert(qi < keep) by (nonlinear_arith)
                        requires
                            8 * m == wb * qi + (8 * m) % wb,
                            0 <= (8 * m) % wb,
                            8 * m < bit_count,
                            bit_count + wb - 1 == wb * keep + (bit_count + wb - 1) % wb,
                            (bit_count + wb - 1) % wb < wb,
                            wb > 0,
                    ;
                }
                assert(wv[qi] == words@[qi]);
            } else {
                assert(wv[qi] == words@[qi]);
            }
            let word = words@[qi];
            let s = (8 * (m % bw)) as usize;
            assert(lb[m] == word_byte(word, m % bw));
            assert forall|k: int| 0 <= k < 8 implies #[trigger] byte_bit(lb[m], k) == byte_bit(bytes@[m], k) by {
                let j = 8 * m + k;
                lemma_bit_position(j);
                assert(j / 8 == m && j % 8 == k);
                assert(j < word_count * wb) by (nonlinear_arith)
                    requires
                        j == 8 * m + k,
                        k < 8,
                        m < byte_count,
                        word_count * bw >= byte_count,
                        wb == 8 * bw,
                ;
                assert(word_bit(words@, j) == (j / 8 < byte_count && bit_at(bytes@, j)));
                lemma_word_byte_bit(word, s, k as usize);
                assert(s + k == j % wb);
            }
            lemma_byte_from_bits(lb[m], bytes@[m]);
        }
        assert(lb =~= bytes@.take(byte_count as int));
    }
    bitvec
}

/// Bit `k` of a byte.
pub open spec fn byte_bit(a: u8, k: int) -> bool {
    (a & (1u8 << (k as u8))) != 0
}

/// Two bytes with the same eight bits are equal.
pub(crate) proof fn lemma_byte_from_bits(a: u8, b: u8)
    requires
        forall|k: int| 0 <= k < 8 ==> #[trigger] byte_bit(a, k) == byte_bit(b, k),
    ensures
        a == b,
{
    assert(byte_bit(a, 0) == byte_bit(b, 0));
    assert(byte_bit(a, 1) == byte_bit(b, 1));
    assert(byte_bit(a, 2) == byte_bit(b, 2));
    assert(byte_bit(a, 3) == byte_bit(b, 3));
    assert(byte_bit(a, 4) == byte_bit(b, 4));
    assert(byte_bit(a, 5) == byte_bit(b, 5));
    assert(byte_bit(a, 6) == byte_bit(b, 6));
    assert(byte_bit(a, 7) == byte_bit(b, 7));
    assert(((a & (1u8 << 0u8)) != 0) == ((b & (1u8 << 0u8)) != 0));
    assert(((a & (1u8 << 1u8)) != 0) == ((b & (1u8 << 1u8)) != 0));
    assert(((a & (1u8 << 2u8)) != 0) == ((b & (1u8 << 2u8)) != 0));
    assert(((a & (1u8 << 3u8)) != 0) == ((b & (1u8 << 3u8)) != 0));
    assert(((a & (1u8 << 4u8)) != 0) == ((b & (1u8 << 4u8)) != 0));
    assert(((a & (1u8 << 5u8)) != 0) == ((b & (1u8 << 5u8)) != 0));
    assert(((a & (1u8 << 6u8)) != 0) == ((b & (1u8 << 6u8)) != 0));
    assert(((a & (1u8 << 7u8)) != 0) == ((b & (1u8 << 7u8)) != 0));
    assert(a == b) by (bit_vector)
        requires
            ((a & (1u8 << 0u8)) != 0) == ((b & (1u8 << 0u8)) != 0),
            ((a & (1u8 << 1u8)) != 0) == ((b & (1u8 << 1u8)) != 0),
            ((a & (1u8 << 2u8)) != 0) == ((b & (1u8 << 2u8)) != 0),
            ((a & (1u8 << 3u8)) != 0) == ((b & (1u8 << 3u8)) != 0),
            ((a & (1u8 << 4u8)) != 0) == ((b & (1u8 << 4u8)) != 0),
            ((a & (1u8 << 5u8)) != 0) == ((b & (1u8 << 5u8)) != 0),
            ((a & (1u8 << 6u8)) != 0) == ((b & (1u8 << 6u8)) != 0),
            ((a & (1u8 << 7u8)) != 0) == ((b & (1u8 << 7u8)) != 0),
    ;
}


// ---------------------------------------------------------------------------
// 2x2 OR reduction.
// ---------------------------------------------------------------------------

/// Half-resolution image of a `side x side` row-major grid: each output pixel is the OR of
/// the 2x2 block it covers.
pub open spec fn or_reduce(bits: Seq<bool>, side: nat) -> Seq<bool> {
    let half = side / 2;
    Seq::new(
        half * half,
        |i: int|
            {
                let x = i % (half as int);
                let y = i / (half as int);
                bits[(2 * y) * side + 2 * x] || bits[(2 * y) * side + 2 * x + 1] || bits[(2 * y + 1)
                    * side + 2 * x] || bits[(2 * y + 1) * side + 2 * x + 1]
            },
    )
}

/// Level `k` of the pyramid of a `2^exp x 2^exp` grid: level 0 is the grid itself, and each
/// further level is the 2x2 OR reduction of the one before.
pub open spec fn pyramid_level(bits: Seq<bool>, exp: nat, k: nat) -> Seq<bool>
    decreases k,
{
    if k == 0 {
        bits
    } else {
        or_reduce(pyramid_level(bits, exp, (k - 1) as nat), pow2((exp - (k - 1)) as nat))
    }
}

proof fn lemma_square_block(x: int, y: int, n: int)
    requires
        0 <= x < n,
        0 <= y < n,
    ensures
        0 <= (2 * y) * (2 * n) + 2 * x,
        (2 * y + 1) * (2 * n) + 2 * x + 1 < (2 * n) * (2 * n),
        (2 * y) * (2 * n) + 2 * x + 1 < (2 * y + 1) * (2 * n) + 2 * x,
        0 <= y * n + x < n * n,
{
    assert(0 <= (2 * y) * (2 * n) + 2 * x) by (nonlinear_arith)
        requires
            0 <= x,
            0 <= y,
            0 <= n,
    ;
    assert((2 * y + 1) * (2 * n) + 2 * x + 1 < (2 * n) * (2 * n)) by (nonlinear_arith)
        requires
            0 <= x < n,
            0 <= y < n,
    ;
    assert((2 * y) * (2 * n) + 2 * x + 1 < (2 * y + 1) * (2 * n) + 2 * x) by (nonlinear_arith)
        requires
            0 <= x < n,
    ;
    assert(0 <= y * n + x < n * n) by (nonlinear_arith)
        requires
            0 <= x < n,
            0 <= y < n,
    ;
}

/// The 2x2 OR reduction of a `side x side` grid held in a bit-vector.
fn or_reduce_bits(prev: &BitVec, side: usize) -> (out: BitVec)
    requires
        side >= 2,
        side % 2 == 0,
        bits_of(*prev).len() == side * side,
        side * side <= max_bits(),
    ensures
        bits_of(out) == or_reduce(bits_of(*prev), side as nat),
{
    let new_side = side / 2;
    proof {
        assert(new_side * new_side <= side * side) by (nonlinear_arith)
            requires
                new_side <= side,
        ;
    }
    let mut out = ext_repeat(false, new_side * new_side);
    let ghost target = or_reduce(bits_of(*prev), side as nat);
    let mut y: usize = 0;
    proof {
        assert(0 * new_side == 0);
    }
    while y < new_side
        invariant
            y <= new_side,
            new_side == side / 2,
            side == 2 * new_side,
            bits_of(*prev).len() == side * side,
            side * side <= max_bits(),
            target == or_reduce(bits_of(*prev), side as nat),
            bits_of(out).len() == new_side * new_side,
            new_side * new_side <= side * side,
            y * new_side <= new_side * new_side,
            forall|i: int| 0 <= i < y * new_side ==> #[trigger] bits_of(out)[i] == target[i],
            forall|i: int| y * new_side <= i < new_side * new_side ==> !#[trigger] bits_of(out)[i],
        decreases new_side - y,
    {
        let mut x: usize = 0;
        while x < new_side
            invariant
                y < new_side,
                x <= new_side,
                new_side == side / 2,
                side == 2 * new_side,
                bits_of(*prev).len() == side * side,
                side * side <= max_bits(),
                target == or_reduce(bits_of(*prev), side as nat),
                bits_of(out).len() == new_side * new_side,
                new_side * new_side <= side * side,
                y * new_side + x <= new_side * new_side,
                forall|i: int| 0 <= i < y * new_side + x ==> #[trigger] bits_of(out)[i] == target[i],
                forall|i: int|
                    y * new_side + x <= i < new_side * new_side ==> !#[trigger] bits_of(out)[i],
            decreases new_side - x,
        {
            proof {
                lemma_square_block(x as int, y as int, new_side as int);
            }
            let ox = x * 2;
            let oy = y * 2;
            let val = ext_index(prev, oy * side + ox) || ext_index(prev, oy * side + ox + 1)
                || ext_index(prev, (oy + 1) * side + ox) || ext_index(prev, (oy + 1) * side + ox + 1);
            let ghost before = bits_of(out);
            ext_set(&mut out, y * new_side + x, val);
            proof {
                let i = y * new_side + x;
                vstd::arithmetic::div_mod::lemma_fundamental_div_mod_converse(
                    i as int,
                    new_side as int,
                    y as int,
                    x as int,
                );
                assert(bits_of(out)[i as int] == target[i as int]);
            }
            x += 1;
        }
        proof {
            assert(y * new_side + new_side == (y + 1) * new_side) by (nonlinear_arith);
            assert((y + 1) * new_side <= new_side * new_side) by (nonlinear_arith)
                requires
                    y < new_side,
            ;
        }
        y += 1;
    }
    proof {
        assert(bits_of(out) =~= target);
    }
    out
}


/// Sizes of a grid whose pixel count `2^(2 exp)` fits the machine word.
pub(crate) proof fn lemma_grid_size(e: nat)
    requires
        2 * e < usize::BITS,
    ensures
        pow2(2 * e) == pow2(e) * pow2(e),
        1 <= pow2(e) <= pow2(2 * e) <= usize::MAX,
{
    vstd::arithmetic::power2::lemma_pow2_adds(e, e);
    vstd::arithmetic::power2::lemma_pow2_pos(e);
    vstd::bits::lemma_usize_pow2_no_overflow(2 * e);
    assert(pow2(e) <= pow2(e) * pow2(e)) by (nonlinear_arith)
        requires
            1 <= pow2(e),
    ;
}

/// A pixel count that a bit-vector can hold has an exponent well inside the machine word.
pub(crate) proof fn lemma_fits_bits(k: nat)
    requires
        pow2(k) <= max_bits(),
    ensures
        k + 3 < usize::BITS,
{
    vstd::arithmetic::power2::lemma2_to64();
    vstd::arithmetic::power2::lemma2_to64_rest();
    if k + 3 >= usize::BITS {
        vstd::arithmetic::power2::lemma_pow2_adds(k, 3);
        if k + 3 > usize::BITS {
            vstd::arithmetic::power2::lemma_pow2_strictly_increases(usize::BITS as nat, k + 3);
        }
    }
}

/// Level `k` of a pyramid has side `2^(exp - k)`.
pub(crate) proof fn lemma_pyramid_len(bits: Seq<bool>, exp: nat, k: nat)
    requires
        k <= exp,
        bits.len() == pow2(2 * exp),
    ensures
        pyramid_level(bits, exp, k).len() == pow2(2 * (exp - k) as nat),
    decreases k,
{
    if k > 0 {
        lemma_pyramid_len(bits, exp, (k - 1) as nat);
        let e = (exp - k) as nat;
        vstd::arithmetic::power2::lemma_pow2_unfold(e + 1);
        vstd::arithmetic::power2::lemma_pow2_adds(e, e);
        assert(pow2(e + 1) / 2 == pow2(e));
    }
}

/// A power-of-two square binary grid with optional LOD acceleration levels.
///
/// The grid is always `2^width_exp x 2^width_exp` pixels. LOD levels can be
/// generated via `build_lods`, which produces progressively half-resolution
/// bitmaps down to 1x1 using 2x2 OR reduction.
#[derive(Debug)]
pub struct BitMap2D {
    bits: BitVec,
    width_exp: u8,
    lods: Vec<BitVec>,
}

impl BitMap2D {
    /// The full-resolution pixels, row-major.
    pub closed spec fn base(self) -> Seq<bool> {
        bits_of(self.bits)
    }

    pub closed spec fn exp(self) -> nat {
        self.width_exp as nat
    }

    /// The LOD levels below the base, finest first.
    pub closed spec fn lods_view(self) -> Seq<Seq<bool>> {
        self.lods@.map_values(|b: BitVec| bits_of(b))
    }

    /// The bit-vectors of all levels, base first.
    pub closed spec fn levels_raw(self) -> Seq<BitVec> {
        seq![self.bits] + self.lods@
    }

    pub proof fn lemma_levels_raw(self)
        ensures
            self.levels_raw().map_values(|b: BitVec| bits_of(b)) == self.levels_view(),
            self.levels_raw().len() == self.levels_view().len(),
    {
        assert(self.levels_raw().map_values(|b: BitVec| bits_of(b)) =~= self.levels_view());
    }

    /// All levels, base first.
    pub open spec fn levels_view(self) -> Seq<Seq<bool>> {
        seq![self.base()] + self.lods_view()
    }

    /// The base holds exactly `2^(2 exp)` pixels, a count a bit-vector can hold.
    #[verifier::type_invariant]
    pub closed spec fn wf(self) -> bool {
        &&& 2 * self.width_exp < usize::BITS
        &&& bits_of(self.bits).len() == pow2(2 * self.width_exp as nat)
        &&& pow2(2 * self.width_exp as nat) <= max_bits()
        &&& self.lods@.len() < usize::MAX
    }

    /// For callers: a bitmap whose LOD levels are those `build_lods` makes holds the full
    /// pyramid of its base.
    pub proof fn lemma_levels_pyramid(self)
        requires
            self.lods_view().len() == self.exp(),
            forall|k: int|
                0 <= k < self.exp() ==> #[trigger] self.lods_view()[k] == pyramid_level(
                    self.base(),
                    self.exp(),
                    (k + 1) as nat,
                ),
        ensures
            self.levels_view() == crate::tile::pyramid(self.base(), self.exp()),
    {
        let v = self.levels_view();
        let p = crate::tile::pyramid(self.base(), self.exp());
        assert forall|k: int| 0 <= k < v.len() implies v[k] == p[k] by {
            if k > 0 {
                assert(v[k] == self.lods_view()[k - 1]);
            }
        }
        assert(v =~= p);
    }

    /// What the invariant says, for callers outside this module.
    pub proof fn lemma_wf(self)
        requires
            self.wf(),
        ensures
            2 * self.exp() < usize::BITS,
            self.base().len() == pow2(2 * self.exp()),
            pow2(2 * self.exp()) <= max_bits(),
            self.lods_view().len() < usize::MAX,
    {
    }

    pub fn new(width_exp: u8) -> (r: Self)
        requires
            pow2(2 * width_exp as nat) <= max_bits(),
        ensures
            r.exp() == width_exp,
            r.base() == Seq::new(pow2(2 * width_exp as nat), |_i: int| false),
            r.lods_view().len() == 0,
    {
        proof {
            lemma_fits_bits(2 * width_exp as nat);
            vstd::bits::lemma_usize_pow2_no_overflow(2 * width_exp as nat);
            vstd::bits::lemma_usize_shl_is_mul(1, (2 * width_exp) as usize);
        }
        let total = 1usize << (width_exp as u32 * 2);
        let r = Self { bits: ext_repeat(false, total), width_exp, lods: Vec::new() };
        proof {
            assert(r.lods_view() =~= Seq::<Seq<bool>>::empty());
        }
        r
    }

    pub fn from_bitvec(width_exp: u8, bits: BitVec) -> (r: Self)
        requires
            2 * width_exp < usize::BITS,
            bits_of(bits).len() == pow2(2 * width_exp as nat),
        ensures
            r.exp() == width_exp,
            r.base() == bits_of(bits),
            r.lods_view().len() == 0,
    {
        // A bit-vector holds at most `max_bits()` bits; asking its length brings that bound in.
        let _len = ext_len(&bits);
        let r = Self { bits, width_exp, lods: Vec::new() };
        proof {
            assert(r.lods_view() =~= Seq::<Seq<bool>>::empty());
        }
        r
    }

    pub fn width_exp(&self) -> (r: u8)
        ensures
            r == self.exp(),
    {
        self.width_exp
    }

    /// Pixels per side, `2^width_exp`.
    pub fn side(&self) -> (r: usize)
        ensures
            r == pow2(self.exp()),
    {
        proof {
            use_type_invariant(self);
            lemma_grid_size(self.width_exp as nat);
            vstd::bits::lemma_usize_shl_is_mul(1, self.width_exp as usize);
        }
        1usize << self.width_exp
    }

    pub fn get(&self, x: usize, y: usize) -> (r: bool)
        requires
            y * pow2(self.exp()) + x < pow2(2 * self.exp()),
        ensures
            r == self.base()[y * pow2(self.exp()) + x],
    {
        proof {
            use_type_invariant(self);
        }
        ext_index(&self.bits, y * self.side() + x)
    }

    pub fn set(&mut self, x: usize, y: usize, val: bool)
        requires
            y * pow2(old(self).exp()) + x < pow2(2 * old(self).exp()),
        ensures
            final(self).exp() == old(self).exp(),
            final(self).base() == old(self).base().update(y * pow2(old(self).exp()) + x, val),
            final(self).lods_view() == old(self).lods_view(),
    {
        proof {
            use_type_invariant(&*self);
        }
        let side = self.side();
        ext_set(&mut self.bits, y * side + x, val)
    }

    /// No pixel of the base is set.
    pub fn is_empty(&self) -> (r: bool)
        ensures
            r == forall|i: int| 0 <= i < self.base().len() ==> !#[trigger] self.base()[i],
    {
        let r = ext_not_any(&self.bits);
        proof {
            assert(self.base() == bits_of(self.bits));
            if !r {
                let i = choose|i: int| 0 <= i < bits_of(self.bits).len() && bits_of(self.bits)[i];
                assert(self.base()[i]);
            }
        }
        r
    }

    pub fn as_bitvec(&self) -> (r: &BitVec)
        ensures
            bits_of(*r) == self.base(),
    {
        &self.bits
    }

    /// Produce a half-resolution bitmap via 2x2 OR reduction.
    ///
    /// A 1x1 bitmap (`width_exp == 0`) cannot be downscaled.
    pub fn downscale(&self) -> (r: BitMap2D)
        requires
            self.exp() > 0,
        ensures
            r.exp() == self.exp() - 1,
            r.base() == or_reduce(self.base(), pow2(self.exp())),
            r.lods_view().len() == 0,
    {
        let new_exp = self.width_exp - 1;
        proof {
            use_type_invariant(self);
            lemma_grid_size(self.width_exp as nat);
            vstd::arithmetic::power2::lemma_pow2_unfold(self.width_exp as nat);
            vstd::arithmetic::power2::lemma_pow2_strictly_increases(2 * new_exp as nat, 2 * self.width_exp as nat);
        }
        let old_side = self.side();
        let out = or_reduce_bits(&self.bits, old_side);
        proof {
            lemma_pyramid_len(self.base(), self.exp(), 1);
        }
        let r = BitMap2D { bits: out, width_exp: new_exp, lods: Vec::new() };
        proof {
            assert(r.lods_view() =~= Seq::<Seq<bool>>::empty());
        }
        r
    }

    /// Build all LOD levels down to 1x1 via repeated 2x2 OR reduction.
    ///
    /// `lods[0]` is half-resolution, `lods[1]` is quarter-resolution, etc.
    pub fn build_lods(&mut self)
        ensures
            final(self).exp() == old(self).exp(),
            final(self).base() == old(self).base(),
            final(self).lods_view().len() == old(self).exp(),
            forall|k: int|
                0 <= k < old(self).exp() ==> #[trigger] final(self).lods_view()[k] == pyramid_level(
                    old(self).base(),
                    old(self).exp(),
                    (k + 1) as nat,
                ),
    {
        proof {
            use_type_invariant(&*self);
        }
        self.lods = Vec::new();
        if self.width_exp == 0 {
            proof {
                assert(self.lods_view() =~= Seq::<Seq<bool>>::empty());
            }
            return;
        }
        let ghost base = self.base();
        let ghost exp = self.exp();
        proof {
            lemma_grid_size(exp);
        }
        let mut current_side = self.side();
        let mut levels: Vec<BitVec> = Vec::with_capacity(self.width_exp as usize);
        while current_side >= 2
            invariant
                2 * self.width_exp < usize::BITS,
                bits_of(self.bits).len() == pow2(2 * self.width_exp as nat),
                pow2(2 * self.width_exp as nat) <= max_bits(),
                self.base() == base,
                self.exp() == exp,
                exp > 0,
                levels@.len() <= exp,
                current_side == pow2((exp - levels@.len()) as nat),
                forall|j: int|
                    0 <= j < levels@.len() ==> #[trigger] bits_of(levels@[j]) == pyramid_level(
                        base,
                        exp,
                        (j + 1) as nat,
                    ),
            decreases current_side,
        {
            let ghost k = levels@.len();
            proof {
                if k == exp {
                    vstd::arithmetic::power2::lemma2_to64();
                    assert(current_side == 1);
                }
                let e = (exp - k) as nat;
                assert(e > 0);
                vstd::arithmetic::power2::lemma_pow2_unfold(e);
                lemma_pyramid_len(base, exp, k as nat);
                lemma_grid_size(e);
                vstd::arithmetic::power2::lemma_pow2_adds((e - 1) as nat, 1);
                if 2 * e < 2 * exp {
                    vstd::arithmetic::power2::lemma_pow2_strictly_increases(2 * e, 2 * exp);
                }
                vstd::arithmetic::power2::lemma2_to64();
            }
            let new_side = current_side / 2;
            let out = if levels.len() == 0 {
                or_reduce_bits(&self.bits, current_side)
            } else {
                or_reduce_bits(&levels[levels.len() - 1], current_side)
            };
            levels.push(out);
            current_side = new_side;
        }
        proof {
            if levels@.len() < exp {
                vstd::arithmetic::power2::lemma_pow2_strictly_increases(0, (exp - levels@.len()) as nat);
                vstd::arithmetic::power2::lemma2_to64();
            }
        }
        self.lods = levels;
        proof {
            assert forall|k: int| 0 <= k < exp implies #[trigger] self.lods_view()[k] == pyramid_level(
                base,
                exp,
                (k + 1) as nat,
            ) by {
                assert(bits_of(self.lods@[k]) == pyramid_level(base, exp, (k + 1) as nat));
            }
        }
    }

    /// Access LOD level k (0 = half-res, 1 = quarter-res, ...).
    /// Returns `None` if LODs are not built or k is out of range.
    pub fn lod_level(&self, k: usize) -> (r: Option<&BitVec>)
        ensures
            match r {
                Some(b) => k < self.lods_view().len() && bits_of(*b) == self.lods_view()[k as int],
                None => k >= self.lods_view().len(),
            },
    {
        if k < self.lods.len() {
            Some(&self.lods[k])
        } else {
            None
        }
    }

    /// Borrow the full LOD stack.
    pub fn lod_levels(&self) -> (r: &[BitVec])
        ensures
            r@.map_values(|b: BitVec| bits_of(b)) == self.lods_view(),
    {
        self.lods.as_slice()
    }

    /// Wrap pre-built base + LOD levels (for deserialization paths).
    pub fn from_precomputed(width_exp: u8, base: BitVec, lods: Vec<BitVec>) -> (r: Self)
        requires
            2 * width_exp < usize::BITS,
            bits_of(base).len() == pow2(2 * width_exp as nat),
            lods@.len() < usize::MAX,
        ensures
            r.exp() == width_exp,
            r.base() == bits_of(base),
            r.lods_view() == lods@.map_values(|b: BitVec| bits_of(b)),
            r.levels_raw() == seq![base] + lods@,
    {
        // A bit-vector holds at most `max_bits()` bits; asking its length brings that bound in.
        let _len = ext_len(&base);
        Self { bits: base, width_exp, lods }
    }

    /// Access level by unified offset: 0 = base (full-res), k >= 1 = lods[k-1].
    pub fn level_at_offset(&self, offset: usize) -> (r: Option<&BitVec>)
        ensures
            match r {
                Some(b) => offset < self.levels_view().len() && bits_of(*b)
                    == self.levels_view()[offset as int] && *b == self.levels_raw()[offset as int],
                None => offset >= self.levels_view().len(),
            },
    {
        if offset == 0 {
            Some(&self.bits)
        } else if offset - 1 < self.lods.len() {
            Some(&self.lods[offset - 1])
        } else {
            None
        }
    }

    /// Total number of levels (base + LODs).
    pub fn num_levels(&self) -> (r: usize)
        ensures
            r == self.levels_view().len(),
    {
        proof {
            use_type_invariant(self);
        }
        1 + self.lods.len()
    }

    /// Consume self and return all levels as a single Vec (base first, then LODs).
    pub fn into_all_levels(self) -> (r: Vec<BitVec>)
        ensures
            r@.map_values(|b: BitVec| bits_of(b)) == self.levels_view(),
    {
        let mut all: Vec<BitVec> = Vec::new();
        all.push(self.bits);
        let mut lods = self.lods;
        all.append(&mut lods);
        proof {
            assert(all@.map_values(|b: BitVec| bits_of(b)) =~= self.levels_view());
        }
        all
    }
}


impl Clone for BitMap2D {
    fn clone(&self) -> (r: Self)
        ensures
            r.exp() == self.exp(),
            r.base() == self.base(),
            r.lods_view() == self.lods_view(),
    {
        proof {
            use_type_invariant(self);
        }
        let mut lods: Vec<BitVec> = Vec::new();
        let mut k: usize = 0;
        while k < self.lods.len()
            invariant
                k <= self.lods@.len(),
                lods@.len() == k,
                forall|j: int| 0 <= j < k ==> #[trigger] bits_of(lods@[j]) == bits_of(self.lods@[j]),
            decreases self.lods.len() - k,
        {
            lods.push(self.lods[k].clone());
            k += 1;
        }
        let r = BitMap2D { bits: self.bits.clone(), width_exp: self.width_exp, lods };
        proof {
            assert(r.lods_view() =~= self.lods_view());
        }
        r
    }
}

// ---------------------------------------------------------------------------
// Laws.
// ---------------------------------------------------------------------------

/// For callers of the packing round trip: `n` bits whose storage stays a word short of the
/// bit-vector limit can be unpacked, as `bitvec_from_bytes_lsb` asks.
pub proof fn lemma_unpack_fits(n: nat)
    requires
        n + usize::BITS <= max_bits(),
    ensures
        words_for_bits(n) * (usize::BITS as nat) <= max_bits(),
{
    let bc = (n + 7) / 8;
    let bw = usize::BITS as int / 8;
    assert(bw == 4 || bw == 8);
    vstd::arithmetic::div_mod::lemma_fundamental_div_mod(n + 7int, 8);
    vstd::arithmetic::div_mod::lemma_fundamental_div_mod(bc + bw - 1, bw);
    assert(words_for_bits(n) * (usize::BITS as nat) <= n + usize::BITS) by (nonlinear_arith)
        requires
            n + 7 == 8 * bc + (n + 7) % 8,
            0 <= (n + 7) % 8,
            bc + bw - 1 == bw * ((bc + bw - 1) / bw) + (bc + bw - 1) % bw,
            0 <= (bc + bw - 1) % bw,
            words_for_bits(n) == (bc + bw - 1) / bw,
            usize::BITS as int == 8 * bw,
            bw > 0,
    ;
}

/// Unpacking the bytes that a bit-vector packs to gives back the same bits.
pub proof fn lemma_lsb_bytes_roundtrip(bits: Seq<bool>, bytes: Seq<u8>)
    requires
        bytes.len() == (bits.len() + 7) / 8,
        forall|i: int| 0 <= i < bits.len() ==> #[trigger] bit_at(bytes, i) == bits[i],
    ensures
        Seq::new(bits.len(), |i: int| bit_at(bytes, i)) == bits,
{
    assert(Seq::new(bits.len(), |i: int| bit_at(bytes, i)) =~= bits);
}

/// The pyramid of a downscaled grid is the pyramid of the grid, one level further on:
/// LOD level `k` of `bm.downscale()` is LOD level `k + 1` of `bm`.
pub proof fn lemma_pyramid_of_downscale(bits: Seq<bool>, exp: nat, k: nat)
    requires
        exp > 0,
    ensures
        pyramid_level(or_reduce(bits, pow2(exp)), (exp - 1) as nat, k) == pyramid_level(
            bits,
            exp,
            k + 1,
        ),
    decreases k,
{
    let ds = or_reduce(bits, pow2(exp));
    if k > 0 {
        lemma_pyramid_of_downscale(bits, exp, (k - 1) as nat);
        assert(((exp - 1) as nat - (k - 1)) as nat == (exp - k) as nat);
        assert(pyramid_level(ds, (exp - 1) as nat, k) == or_reduce(
            pyramid_level(ds, (exp - 1) as nat, (k - 1) as nat),
            pow2((exp - k) as nat),
        ));
        assert(pyramid_level(bits, exp, k + 1) == or_reduce(
            pyramid_level(bits, exp, k),
            pow2((exp - k) as nat),
        ));
    } else {
        assert(pyramid_level(bits, exp, 1) == or_reduce(pyramid_level(bits, exp, 0), pow2(exp)));
    }
}

/// A 2x2 OR reduction has a set pixel exactly when the grid it reduces has one.
pub proof fn lemma_or_reduce_any(bits: Seq<bool>, side: nat)
    requires
        side % 2 == 0,
        bits.len() == side * side,
    ensures
        (exists|i: int| 0 <= i < or_reduce(bits, side).len() && #[trigger] or_reduce(bits, side)[i])
            <==> (exists|j: int| 0 <= j < bits.len() && #[trigger] bits[j]),
{
    let half = (side / 2) as int;
    let r = or_reduce(bits, side);
    if exists|i: int| 0 <= i < r.len() && #[trigger] r[i] {
        let i = choose|i: int| 0 <= i < r.len() && #[trigger] r[i];
        let x = i % half;
        let y = i / half;
        vstd::arithmetic::div_mod::lemma_fundamental_div_mod(i, half);
        vstd::arithmetic::div_mod::lemma_div_pos_is_pos(i, half);
        vstd::arithmetic::div_mod::lemma_mod_pos_bound(i, half);
        assert(y < half) by (nonlinear_arith)
            requires
                i == half * y + x,
                0 <= x,
                i < half * half,
                half > 0,
        ;
        lemma_square_block(x, y, half);
        if bits[(2 * y) * side + 2 * x] {
        } else if bits[(2 * y) * side + 2 * x + 1] {
        } else if bits[(2 * y + 1) * side + 2 * x] {
        } else {
            assert(bits[(2 * y + 1) * side + 2 * x + 1]);
        }
    }
    if exists|j: int| 0 <= j < bits.len() && #[trigger] bits[j] {
        let j = choose|j: int| 0 <= j < bits.len() && #[trigger] bits[j];
        let xx = j % (side as int);
        let yy = j / (side as int);
        vstd::arithmetic::div_mod::lemma_fundamental_div_mod(j, side as int);
        vstd::arithmetic::div_mod::lemma_div_pos_is_pos(j, side as int);
        vstd::arithmetic::div_mod::lemma_mod_pos_bound(j, side as int);
        assert(yy < side) by (nonlinear_arith)
            requires
                j == side * yy + xx,
                0 <= xx,
                j < side * side,
                side > 0,
        ;
        let x = xx / 2;
        let y = yy / 2;
        let i = y * half + x;
        lemma_square_block(x, y, half);
        vstd::arithmetic::div_mod::lemma_fundamental_div_mod_converse(i, half, y, x);
        assert(j == (2 * y + yy % 2) * side + 2 * x + xx % 2) by (nonlinear_arith)
            requires
                j == side * yy + xx,
                yy == 2 * y + yy % 2,
                xx == 2 * x + xx % 2,
        ;
        assert(r[i]);
    }
}

/// The last pyramid level of a `2^exp x 2^exp` grid is a single pixel, set exactly when
/// some pixel of the grid is set.
pub proof fn lemma_pyramid_apex(bits: Seq<bool>, exp: nat, k: nat)
    requires
        k <= exp,
        bits.len() == pow2(2 * exp),
    ensures
        (exists|i: int| 0 <= i < pyramid_level(bits, exp, k).len() && #[trigger] pyramid_level(
            bits,
            exp,
            k,
        )[i]) <==> (exists|j: int| 0 <= j < bits.len() && #[trigger] bits[j]),
        k == exp ==> pyramid_level(bits, exp, k).len() == 1,
    decreases k,
{
    lemma_pyramid_len(bits, exp, k);
    vstd::arithmetic::power2::lemma2_to64();
    if k > 0 {
        lemma_pyramid_apex(bits, exp, (k - 1) as nat);
        let e = (exp - (k - 1)) as nat;
        lemma_pyramid_len(bits, exp, (k - 1) as nat);
        vstd::arithmetic::power2::lemma_pow2_adds(e, e);
        vstd::arithmetic::power2::lemma_pow2_unfold(e);
        assert(pow2(e) % 2 == 0);
        lemma_or_reduce_any(pyramid_level(bits, exp, (k - 1) as nat), pow2(e));
    }
}

/// Reading a pixel right after writing it gives the written value; other pixels keep theirs.
pub proof fn lemma_set_then_get(bm: BitMap2D, after: BitMap2D, x: int, y: int, val: bool, qx: int, qy: int)
    requires
        bm.wf(),
        0 <= y * pow2(bm.exp()) + x < pow2(2 * bm.exp()),
        0 <= qy * pow2(bm.exp()) + qx < pow2(2 * bm.exp()),
        after.base() == bm.base().update(y * pow2(bm.exp()) + x, val),
    ensures
        after.base()[qy * pow2(bm.exp()) + qx] == if qy * pow2(bm.exp()) + qx == y * pow2(bm.exp()) + x {
            val
        } else {
            bm.base()[qy * pow2(bm.exp()) + qx]
        },
{
}

} // verus!
