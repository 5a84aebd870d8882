//! Single-bit views of 64-bit words, bit ranks (population counts of
//! prefixes), and the bit-vector lemmas the board encoding is proved against.

use vstd::prelude::*;

verus! {

/// Mask of the 40 low-word bit lanes that carry cells (cells 0..40).
pub const LOW_MASK: u64 = 0xff_ffff_ffff;

/// Mask of the 60 high-word bit lanes that carry cells (cells 40..100).
pub const HIGH_MASK: u64 = 0xfff_ffff_ffff_ffff;

/// Bit `i` of `w`.
pub open spec fn bit64(w: u64, i: u64) -> bool {
    i < 64 && (w >> i) & 1u64 == 1u64
}

/// Number of set bits of `w` at positions below `i`.
pub open spec fn rank64(w: u64, i: int) -> nat
    decreases i,
{
    if i <= 0 {
        0
    } else {
        rank64(w, i - 1) + if bit64(w, (i - 1) as u64) {
            1nat
        } else {
            0nat
        }
    }
}

/// Number of set bits of `w`.
pub open spec fn pop64(w: u64) -> nat {
    rank64(w, 64)
}

pub proof fn lemma_bit_or()
    by (bit_vector)
    ensures
        forall|a: u64, b: u64, i: u64|
            i < 64 ==> #[trigger] bit64(a | b, i) == (bit64(a, i) || bit64(b, i)),
{
}

pub proof fn lemma_bit_and()
    by (bit_vector)
    ensures
        forall|a: u64, b: u64, i: u64|
            i < 64 ==> #[trigger] bit64(a & b, i) == (bit64(a, i) && bit64(b, i)),
{
}

pub proof fn lemma_bit_not()
    by (bit_vector)
    ensures
        forall|a: u64, i: u64| i < 64 ==> #[trigger] bit64(!a, i) == !bit64(a, i),
{
}

pub proof fn lemma_bit_shr()
    by (bit_vector)
    ensures
        forall|a: u64, s: u64, i: u64|
            s < 64 && i < 64 ==> #[trigger] bit64(a >> s, i) == (i + s < 64 && bit64(
                a,
                (i + s) as u64,
            )),
{
}

pub proof fn lemma_bit_shl()
    by (bit_vector)
    ensures
        forall|a: u64, s: u64, i: u64|
            s < 64 && i < 64 ==> #[trigger] bit64(a << s, i) == (i >= s && bit64(
                a,
                (i - s) as u64,
            )),
{
}

/// A single shifted-in bit: `1 << c` has exactly bit `c` set.
pub proof fn lemma_bit_one()
    by (bit_vector)
    ensures
        forall|c: u64, i: u64| c < 64 && i < 64 ==> #[trigger] bit64(1u64 << c, i) == (i == c),
{
}

/// The two lane masks, bit by bit, and the single bits they cover.
pub proof fn lemma_lane_masks()
    by (bit_vector)
    ensures
        forall|i: u64| i < 64 ==> #[trigger] bit64(LOW_MASK, i) == (i < 40),
        forall|i: u64| i < 64 ==> #[trigger] bit64(HIGH_MASK, i) == (i < 60),
        forall|c: u64| c < 40 ==> #[trigger] ((1u64 << c) & LOW_MASK) == 1u64 << c,
        forall|c: u64| c < 60 ==> #[trigger] ((1u64 << c) & HIGH_MASK) == 1u64 << c,
        LOW_MASK & LOW_MASK == LOW_MASK,
        HIGH_MASK & HIGH_MASK == HIGH_MASK,
{
}

/// A word equal to itself masked has no bits outside the mask, and the other
/// way round.
pub proof fn lemma_masked_word()
    by (bit_vector)
    ensures
        forall|a: u64, m: u64, i: u64| #![trigger bit64(m, i), bit64(a, i)]
            a & m == a && i < 64 && !bit64(m, i) ==> !bit64(a, i),
        forall|a: u64, b: u64, m: u64| a & m == a && b & m == b ==> (a | b) & m == (a | b),
        forall|a: u64, b: u64, m: u64| b & m == b ==> (a & b) & m == (a & b),
{
}


/// One more masked bit extends the low-mask view of a word.
proof fn lemma_lowmask_step()
    by (bit_vector)
    ensures
        forall|w: u64, n: u64|
            n < 63 ==> (w & (((1u64 << (n + 1) as u64) - 1) as u64)) == #[trigger] (w & (((1u64
                << n) - 1) as u64)) | (if bit64(w, n) {
                1u64 << n
            } else {
                0u64
            }),
        forall|w: u64| #[trigger] (w & (((1u64 << 0u64) - 1) as u64)) == 0u64,
        forall|w: u64|
            w == #[trigger] (w & (((1u64 << 63u64) - 1) as u64)) | (if bit64(w, 63u64) {
                1u64 << 63u64
            } else {
                0u64
            }),
{
}

proof fn lemma_word_ext_rec(a: u64, b: u64, n: u64)
    requires
        n <= 63,
        forall|i: u64| i < 64 ==> bit64(a, i) == bit64(b, i),
    ensures
        (a & (((1u64 << n) - 1) as u64)) == (b & (((1u64 << n) - 1) as u64)),
    decreases n,
{
    lemma_lowmask_step();
    if n == 0 {
    } else {
        lemma_word_ext_rec(a, b, (n - 1) as u64);
        assert(bit64(a, (n - 1) as u64) == bit64(b, (n - 1) as u64));
    }
}

/// Two words with the same bits are the same word.
pub proof fn lemma_word_ext(a: u64, b: u64)
    requires
        forall|i: u64| i < 64 ==> bit64(a, i) == bit64(b, i),
    ensures
        a == b,
{
    lemma_lowmask_step();
    lemma_word_ext_rec(a, b, 63);
    assert(bit64(a, 63u64) == bit64(b, 63u64));
}

/// Ranks do not change across a span of clear bits.
pub proof fn lemma_rank_stable(w: u64, i: int, j: int)
    requires
        0 <= i <= j <= 64,
        forall|k: u64| i <= k < j ==> !bit64(w, k),
    ensures
        rank64(w, j) == rank64(w, i),
    decreases j - i,
{
    if j > i {
        assert(!bit64(w, (j - 1) as u64));
        lemma_rank_stable(w, i, j - 1);
    }
}

/// A set bit pushes the rank beyond it strictly above the rank at it.
pub proof fn lemma_rank_step(w: u64, i: int, j: int)
    requires
        0 <= i < j <= 64,
        bit64(w, i as u64),
    ensures
        rank64(w, j) > rank64(w, i),
    decreases j - i,
{
    if j - 1 > i {
        lemma_rank_step(w, i, j - 1);
    }
}

/// Ranks are monotone in the position.
pub proof fn lemma_rank_mono(w: u64, i: int, j: int)
    requires
        0 <= i <= j <= 64,
    ensures
        rank64(w, i) <= rank64(w, j),
    decreases j - i,
{
    if j > i {
        lemma_rank_mono(w, i, j - 1);
    }
}

} // verus!
