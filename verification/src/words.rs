use crate::bits::word_bit;
use vstd::prelude::*;

verus! {

/// `n` zero words.
pub(crate) fn zero_words(n: usize) -> (r: Vec<usize>)
    ensures
        r@.len() == n,
        forall|i: int| 0 <= i < n ==> #[trigger] r@[i] == 0,
{
    let mut r: Vec<usize> = Vec::new();
    let mut k: usize = 0;
    while k < n
        invariant
            k <= n,
            r@.len() == k,
            forall|i: int| 0 <= i < k ==> #[trigger] r@[i] == 0,
        decreases n - k,
    {
        r.push(0);
        k += 1;
    }
    r
}

proof fn lemma_bit_of_or_one(w: usize, a: usize, b: usize)
    requires
        a < usize::BITS,
        b < usize::BITS,
    ensures
        (((w | (1usize << a)) >> b) & 1usize == 1usize) == (a == b || (w >> b) & 1usize == 1usize),
{
    assert((((w | (1usize << a)) >> b) & 1usize == 1usize) == (a == b || (w >> b) & 1usize == 1usize))
        by (bit_vector)
        requires
            a < usize::BITS,
            b < usize::BITS,
    ;
}

proof fn lemma_bit_of_or(w: usize, v: usize, b: usize)
    requires
        b < usize::BITS,
    ensures
        (((w | v) >> b) & 1usize == 1usize) == ((w >> b) & 1usize == 1usize || (v >> b) & 1usize == 1usize),
{
    assert((((w | v) >> b) & 1usize == 1usize) == ((w >> b) & 1usize == 1usize || (v >> b) & 1usize == 1usize))
        by (bit_vector)
        requires
            b < usize::BITS,
    ;
}

/// No bit of a zero word is set.
pub(crate) proof fn lemma_zero_word_bit(words: Seq<usize>, i: int)
    requires
        0 <= i,
        words[i / (usize::BITS as int)] == 0,
    ensures
        !word_bit(words, i),
{
    let b = (i % (usize::BITS as int)) as usize;
    assert((0usize >> b) & 1usize == 0usize) by (bit_vector);
}

/// Sets bit `i` of a run of words; every other bit stays.
pub(crate) fn set_word_bit(words: &mut Vec<usize>, i: usize)
    requires
        (i as int) / (usize::BITS as int) < old(words)@.len(),
    ensures
        final(words)@.len() == old(words)@.len(),
        forall|j: int|
            0 <= j < old(words)@.len() * (usize::BITS as int) ==> #[trigger] word_bit(final(words)@, j) == (j == i
                || word_bit(old(words)@, j)),
{
    let bits_per_word = usize::BITS as usize;
    let wi = i / bits_per_word;
    let a = i % bits_per_word;
    words.set(wi, words[wi] | (1usize << a));
    proof {
        let bw = usize::BITS as int;
        assert forall|j: int| 0 <= j < old(words)@.len() * bw implies #[trigger] word_bit(words@, j) == (j == i
            || word_bit(old(words)@, j)) by {
            vstd::arithmetic::div_mod::lemma_fundamental_div_mod(j, bw);
            vstd::arithmetic::div_mod::lemma_mod_pos_bound(j, bw);
            vstd::arithmetic::div_mod::lemma_div_pos_is_pos(j, bw);
            vstd::arithmetic::div_mod::lemma_fundamental_div_mod(i as int, bw);
            if j / bw == wi as int {
                lemma_bit_of_or_one(old(words)@[wi as int], a, (j % bw) as usize);
                if j % bw == a as int {
                    assert(j == i);
                }
            } else {
                assert(words@[j / bw] == old(words)@[j / bw]);
            }
        }
    }
}

/// Ors `v` into word `wi`: each bit becomes set where it was, or where `v` has it.
pub(crate) fn or_word(words: &mut Vec<usize>, wi: usize, v: usize)
    requires
        wi < old(words)@.len(),
    ensures
        final(words)@.len() == old(words)@.len(),
        forall|j: int|
            0 <= j < old(words)@.len() * (usize::BITS as int) ==> #[trigger] word_bit(final(words)@, j) == (word_bit(
                old(words)@,
                j,
            ) || (j / (usize::BITS as int) == wi && (v >> ((j % (usize::BITS as int)) as usize)) & 1usize
                == 1usize)),
{
    words.set(wi, words[wi] | v);
    proof {
        let bw = usize::BITS as int;
        assert forall|j: int| 0 <= j < old(words)@.len() * bw implies #[trigger] word_bit(words@, j) == (word_bit(
            old(words)@,
            j,
        ) || (j / bw == wi && (v >> ((j % bw) as usize)) & 1usize == 1usize)) by {
            vstd::arithmetic::div_mod::lemma_mod_pos_bound(j, bw);
            vstd::arithmetic::div_mod::lemma_div_pos_is_pos(j, bw);
            if j / bw == wi as int {
                lemma_bit_of_or(old(words)@[wi as int], v, (j % bw) as usize);
            } else {
                assert(words@[j / bw] == old(words)@[j / bw]);
            }
        }
    }
}


/// Bit `i` of a row-major grid `side` bits wide lies in the `rep x rep` block at `(bx, by)`.
pub open spec fn in_block(i: int, side: int, bx: int, by: int, rep: int) -> bool {
    &&& bx <= i % side < bx + rep
    &&& by <= i / side < by + rep
}

/// The first `rows` rows of the block, then `cols` cells of the next.
pub open spec fn block_part(i: int, side: int, bx: int, by: int, rep: int, rows: int, cols: int) -> bool {
    let ox = i % side;
    let oy = i / side;
    &&& bx <= ox < bx + rep
    &&& (by <= oy < by + rows || (oy == by + rows && ox < bx + cols))
}

/// Sets every bit of the `rep x rep` block whose corner is `(src_x * rep, src_y * rep)` in a
/// row-major grid of bits `side` wide held in words; every other bit stays.
pub(crate) fn fill_block(words: &mut Vec<usize>, side: usize, src_x: usize, src_y: usize, rep: usize)
    requires
        rep > 0,
        (src_x + 1) * rep <= side,
        (src_y + 1) * rep <= side,
        side * side <= old(words)@.len() * (usize::BITS as int),
        side * side <= usize::MAX,
    ensures
        final(words)@.len() == old(words)@.len(),
        forall|j: int|
            0 <= j < old(words)@.len() * (usize::BITS as int) ==> #[trigger] word_bit(final(words)@, j) == (word_bit(
                old(words)@,
                j,
            ) || (j < side * side && in_block(j, side as int, src_x * rep, src_y * rep, rep as int))),
{
    let ghost bw = usize::BITS as int;
    let ghost n = old(words)@.len() * bw;
    let ghost bx = src_x * rep;
    let ghost by = src_y * rep;
    proof {
        assert(src_x * rep + rep == (src_x + 1) * rep && src_y * rep + rep == (src_y + 1) * rep)
            by (nonlinear_arith);
        assert(0 <= src_x * rep && 0 <= src_y * rep) by (nonlinear_arith)
            requires
                rep > 0,
        ;
    }
    let mut dy: usize = 0;
    while dy < rep
        invariant
            words@.len() == old(words)@.len(),
            n == old(words)@.len() * bw,
            bw == usize::BITS as int,
            bx == src_x * rep,
            by == src_y * rep,
            bx + rep <= side,
            by + rep <= side,
            0 <= bx,
            0 <= by,
            rep > 0,
            side * side <= n,
            side * side <= usize::MAX,
            dy <= rep,
            forall|j: int|
                0 <= j < n ==> #[trigger] word_bit(words@, j) == (word_bit(old(words)@, j) || (j < side * side
                    && block_part(j, side as int, bx, by, rep as int, dy as int, 0))),
        decreases rep - dy,
    {
        let out_y = src_y * rep + dy;
        let mut dx: usize = 0;
        while dx < rep
            invariant
                words@.len() == old(words)@.len(),
                n == old(words)@.len() * bw,
                bw == usize::BITS as int,
                bx == src_x * rep,
                by == src_y * rep,
                bx + rep <= side,
                by + rep <= side,
                0 <= bx,
                0 <= by,
                rep > 0,
                side * side <= n,
                side * side <= usize::MAX,
                dy < rep,
                out_y == by + dy,
                dx <= rep,
                forall|j: int|
                    0 <= j < n ==> #[trigger] word_bit(words@, j) == (word_bit(old(words)@, j) || (j < side
                        * side && block_part(j, side as int, bx, by, rep as int, dy as int, dx as int))),
            decreases rep - dx,
        {
            let out_x = src_x * rep + dx;
            proof {
                assert(out_y * side + out_x < side * side) by (nonlinear_arith)
                    requires
                        out_y < side,
                        out_x < side,
                ;
                assert(0 <= out_y * side) by (nonlinear_arith)
                    requires
                        0 <= out_y,
                        0 <= side,
                ;
            }
            let bit_pos = out_y * side + out_x;
            proof {
                vstd::arithmetic::div_mod::lemma_div_is_ordered(bit_pos as int, n - 1, bw);
                vstd::arithmetic::div_mod::lemma_fundamental_div_mod_converse(
                    n - 1,
                    bw,
                    old(words)@.len() - 1,
                    bw - 1,
                );
            }
            let ghost before = words@;
            set_word_bit(words, bit_pos);
            proof {
                vstd::arithmetic::div_mod::lemma_fundamental_div_mod_converse(
                    bit_pos as int,
                    side as int,
                    out_y as int,
                    out_x as int,
                );
                assert forall|j: int| 0 <= j < n implies #[trigger] word_bit(words@, j) == (word_bit(
                    old(words)@,
                    j,
                ) || (j < side * side && block_part(j, side as int, bx, by, rep as int, dy as int, dx + 1))) by {
                    vstd::arithmetic::div_mod::lemma_fundamental_div_mod(j, side as int);
                    vstd::arithmetic::div_mod::lemma_mod_pos_bound(j, side as int);
                    assert(word_bit(words@, j) == (j == bit_pos || word_bit(before, j)));
                    if j % (side as int) == out_x && j / (side as int) == out_y {
                        assert(side * out_y == out_y * side) by (nonlinear_arith);
                        assert(j == bit_pos);
                    }
                }
            }
            dx += 1;
        }
        proof {
            assert forall|j: int| 0 <= j < n implies #[trigger] word_bit(words@, j) == (word_bit(
                old(words)@,
                j,
            ) || (j < side * side && block_part(j, side as int, bx, by, rep as int, dy + 1, 0))) by {
                assert(block_part(j, side as int, bx, by, rep as int, dy as int, rep as int) == block_part(
                    j,
                    side as int,
                    bx,
                    by,
                    rep as int,
                    dy + 1,
                    0,
                ));
            }
        }
        dy += 1;
    }
}

} // verus!
