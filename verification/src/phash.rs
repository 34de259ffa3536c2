//! Perceptual image hashes: the Hamming distance between 64-bit hashes, the
//! hash of a small grayscale image, and a BK-tree that answers "which stored
//! hashes lie within a distance of this one".
use vstd::prelude::*;
use vstd::set_lib::{set_int_range, lemma_int_range};

verus! {

/// Bit `i` of `x`.
pub open spec fn bit(x: u64, i: nat) -> bool {
    (x >> (i as u64)) & 1 == 1
}

/// The number of bit positions below `n` in which `a` and `b` differ.
pub open spec fn diff_count(a: u64, b: u64, n: nat) -> nat
    decreases n,
{
    if n == 0 {
        0
    } else {
        diff_count(a, b, (n - 1) as nat) + if bit(a, (n - 1) as nat) != bit(b, (n - 1) as nat) { 1nat } else { 0nat }
    }
}

/// The Hamming distance of two 64-bit hashes.
pub open spec fn hamming(a: u64, b: u64) -> nat {
    diff_count(a, b, 64)
}

proof fn lemma_diff_count_bound(a: u64, b: u64, n: nat)
    ensures
        diff_count(a, b, n) <= n,
    decreases n,
{
    if n > 0 {
        lemma_diff_count_bound(a, b, (n - 1) as nat);
    }
}

proof fn lemma_diff_count_symmetric(a: u64, b: u64, n: nat)
    ensures
        diff_count(a, b, n) == diff_count(b, a, n),
    decreases n,
{
    if n > 0 {
        lemma_diff_count_symmetric(a, b, (n - 1) as nat);
    }
}

proof fn lemma_diff_count_triangle(a: u64, b: u64, c: u64, n: nat)
    ensures
        diff_count(a, c, n) <= diff_count(a, b, n) + diff_count(b, c, n),
    decreases n,
{
    if n > 0 {
        lemma_diff_count_triangle(a, b, c, (n - 1) as nat);
    }
}

proof fn lemma_diff_count_self(a: u64, n: nat)
    ensures
        diff_count(a, a, n) == 0,
    decreases n,
{
    if n > 0 {
        lemma_diff_count_self(a, (n - 1) as nat);
    }
}

proof fn lemma_diff_count_zero(a: u64, b: u64, n: nat)
    requires
        diff_count(a, b, n) == 0,
    ensures
        forall|i: nat| i < n ==> bit(a, i) == bit(b, i),
    decreases n,
{
    if n > 0 {
        lemma_diff_count_zero(a, b, (n - 1) as nat);
    }
}

proof fn lemma_bits_equal(a: u64, b: u64)
    requires
        ((a >> 0u64) & 1 == 1) == ((b >> 0u64) & 1 == 1),
        ((a >> 1u64) & 1 == 1) == ((b >> 1u64) & 1 == 1),
        ((a >> 2u64) & 1 == 1) == ((b >> 2u64) & 1 == 1),
        ((a >> 3u64) & 1 == 1) == ((b >> 3u64) & 1 == 1),
        ((a >> 4u64) & 1 == 1) == ((b >> 4u64) & 1 == 1),
        ((a >> 5u64) & 1 == 1) == ((b >> 5u64) & 1 == 1),
        ((a >> 6u64) & 1 == 1) == ((b >> 6u64) & 1 == 1),
        ((a >> 7u64) & 1 == 1) == ((b >> 7u64) & 1 == 1),
        ((a >> 8u64) & 1 == 1) == ((b >> 8u64) & 1 == 1),
        ((a >> 9u64) & 1 == 1) == ((b >> 9u64) & 1 == 1),
        ((a >> 10u64) & 1 == 1) == ((b >> 10u64) & 1 == 1),
        ((a >> 11u64) & 1 == 1) == ((b >> 11u64) & 1 == 1),
        ((a >> 12u64) & 1 == 1) == ((b >> 12u64) & 1 == 1),
        ((a >> 13u64) & 1 == 1) == ((b >> 13u64) & 1 == 1),
        ((a >> 14u64) & 1 == 1) == ((b >> 14u64) & 1 == 1),
        ((a >> 15u64) & 1 == 1) == ((b >> 15u64) & 1 == 1),
        ((a >> 16u64) & 1 == 1) == ((b >> 16u64) & 1 == 1),
        ((a >> 17u64) & 1 == 1) == ((b >> 17u64) & 1 == 1),
        ((a >> 18u64) & 1 == 1) == ((b >> 18u64) & 1 == 1),
        ((a >> 19u64) & 1 == 1) == ((b >> 19u64) & 1 == 1),
        ((a >> 20u64) & 1 == 1) == ((b >> 20u64) & 1 == 1),
        ((a >> 21u64) & 1 == 1) == ((b >> 21u64) & 1 == 1),
        ((a >> 22u64) & 1 == 1) == ((b >> 22u64) & 1 == 1),
        ((a >> 23u64) & 1 == 1) == ((b >> 23u64) & 1 == 1),
        ((a >> 24u64) & 1 == 1) == ((b >> 24u64) & 1 == 1),
        ((a >> 25u64) & 1 == 1) == ((b >> 25u64) & 1 == 1),
        ((a >> 26u64) & 1 == 1) == ((b >> 26u64) & 1 == 1),
        ((a >> 27u64) & 1 == 1) == ((b >> 27u64) & 1 == 1),
        ((a >> 28u64) & 1 == 1) == ((b >> 28u64) & 1 == 1),
        ((a >> 29u64) & 1 == 1) == ((b >> 29u64) & 1 == 1),
        ((a >> 30u64) & 1 == 1) == ((b >> 30u64) & 1 == 1),
        ((a >> 31u64) & 1 == 1) == ((b >> 31u64) & 1 == 1),
        ((a >> 32u64) & 1 == 1) == ((b >> 32u64) & 1 == 1),
        ((a >> 33u64) & 1 == 1) == ((b >> 33u64) & 1 == 1),
        ((a >> 34u64) & 1 == 1) == ((b >> 34u64) & 1 == 1),
        ((a >> 35u64) & 1 == 1) == ((b >> 35u64) & 1 == 1),
        ((a >> 36u64) & 1 == 1) == ((b >> 36u64) & 1 == 1),
        ((a >> 37u64) & 1 == 1) == ((b >> 37u64) & 1 == 1),
        ((a >> 38u64) & 1 == 1) == ((b >> 38u64) & 1 == 1),
        ((a >> 39u64) & 1 == 1) == ((b >> 39u64) & 1 == 1),
        ((a >> 40u64) & 1 == 1) == ((b >> 40u64) & 1 == 1),
        ((a >> 41u64) & 1 == 1) == ((b >> 41u64) & 1 == 1),
        ((a >> 42u64) & 1 == 1) == ((b >> 42u64) & 1 == 1),
        ((a >> 43u64) & 1 == 1) == ((b >> 43u64) & 1 == 1),
        ((a >> 44u64) & 1 == 1) == ((b >> 44u64) & 1 == 1),
        ((a >> 45u64) & 1 == 1) == ((b >> 45u64) & 1 == 1),
        ((a >> 46u64) & 1 == 1) == ((b >> 46u64) & 1 == 1),
        ((a >> 47u64) & 1 == 1) == ((b >> 47u64) & 1 == 1),
        ((a >> 48u64) & 1 == 1) == ((b >> 48u64) & 1 == 1),
        ((a >> 49u64) & 1 == 1) == ((b >> 49u64) & 1 == 1),
        ((a >> 50u64) & 1 == 1) == ((b >> 50u64) & 1 == 1),
        ((a >> 51u64) & 1 == 1) == ((b >> 51u64) & 1 == 1),
        ((a >> 52u64) & 1 == 1) == ((b >> 52u64) & 1 == 1),
        ((a >> 53u64) & 1 == 1) == ((b >> 53u64) & 1 == 1),
        ((a >> 54u64) & 1 == 1) == ((b >> 54u64) & 1 == 1),
        ((a >> 55u64) & 1 == 1) == ((b >> 55u64) & 1 == 1),
        ((a >> 56u64) & 1 == 1) == ((b >> 56u64) & 1 == 1),
        ((a >> 57u64) & 1 == 1) == ((b >> 57u64) & 1 == 1),
        ((a >> 58u64) & 1 == 1) == ((b >> 58u64) & 1 == 1),
        ((a >> 59u64) & 1 == 1) == ((b >> 59u64) & 1 == 1),
        ((a >> 60u64) & 1 == 1) == ((b >> 60u64) & 1 == 1),
        ((a >> 61u64) & 1 == 1) == ((b >> 61u64) & 1 == 1),
        ((a >> 62u64) & 1 == 1) == ((b >> 62u64) & 1 == 1),
        ((a >> 63u64) & 1 == 1) == ((b >> 63u64) & 1 == 1),
    ensures
        a == b,
{
    assert(a == b) by (bit_vector)
        requires
            ((a >> 0u64) & 1 == 1) == ((b >> 0u64) & 1 == 1),
        ((a >> 1u64) & 1 == 1) == ((b >> 1u64) & 1 == 1),
        ((a >> 2u64) & 1 == 1) == ((b >> 2u64) & 1 == 1),
        ((a >> 3u64) & 1 == 1) == ((b >> 3u64) & 1 == 1),
        ((a >> 4u64) & 1 == 1) == ((b >> 4u64) & 1 == 1),
        ((a >> 5u64) & 1 == 1) == ((b >> 5u64) & 1 == 1),
        ((a >> 6u64) & 1 == 1) == ((b >> 6u64) & 1 == 1),
        ((a >> 7u64) & 1 == 1) == ((b >> 7u64) & 1 == 1),
        ((a >> 8u64) & 1 == 1) == ((b >> 8u64) & 1 == 1),
        ((a >> 9u64) & 1 == 1) == ((b >> 9u64) & 1 == 1),
        ((a >> 10u64) & 1 == 1) == ((b >> 10u64) & 1 == 1),
        ((a >> 11u64) & 1 == 1) == ((b >> 11u64) & 1 == 1),
        ((a >> 12u64) & 1 == 1) == ((b >> 12u64) & 1 == 1),
        ((a >> 13u64) & 1 == 1) == ((b >> 13u64) & 1 == 1),
        ((a >> 14u64) & 1 == 1) == ((b >> 14u64) & 1 == 1),
        ((a >> 15u64) & 1 == 1) == ((b >> 15u64) & 1 == 1),
        ((a >> 16u64) & 1 == 1) == ((b >> 16u64) & 1 == 1),
        ((a >> 17u64) & 1 == 1) == ((b >> 17u64) & 1 == 1),
        ((a >> 18u64) & 1 == 1) == ((b >> 18u64) & 1 == 1),
        ((a >> 19u64) & 1 == 1) == ((b >> 19u64) & 1 == 1),
        ((a >> 20u64) & 1 == 1) == ((b >> 20u64) & 1 == 1),
        ((a >> 21u64) & 1 == 1) == ((b >> 21u64) & 1 == 1),
        ((a >> 22u64) & 1 == 1) == ((b >> 22u64) & 1 == 1),
        ((a >> 23u64) & 1 == 1) == ((b >> 23u64) & 1 == 1),
        ((a >> 24u64) & 1 == 1) == ((b >> 24u64) & 1 == 1),
        ((a >> 25u64) & 1 == 1) == ((b >> 25u64) & 1 == 1),
        ((a >> 26u64) & 1 == 1) == ((b >> 26u64) & 1 == 1),
        ((a >> 27u64) & 1 == 1) == ((b >> 27u64) & 1 == 1),
        ((a >> 28u64) & 1 == 1) == ((b >> 28u64) & 1 == 1),
        ((a >> 29u64) & 1 == 1) == ((b >> 29u64) & 1 == 1),
        ((a >> 30u64) & 1 == 1) == ((b >> 30u64) & 1 == 1),
        ((a >> 31u64) & 1 == 1) == ((b >> 31u64) & 1 == 1),
        ((a >> 32u64) & 1 == 1) == ((b >> 32u64) & 1 == 1),
        ((a >> 33u64) & 1 == 1) == ((b >> 33u64) & 1 == 1),
        ((a >> 34u64) & 1 == 1) == ((b >> 34u64) & 1 == 1),
        ((a >> 35u64) & 1 == 1) == ((b >> 35u64) & 1 == 1),
        ((a >> 36u64) & 1 == 1) == ((b >> 36u64) & 1 == 1),
        ((a >> 37u64) & 1 == 1) == ((b >> 37u64) & 1 == 1),
        ((a >> 38u64) & 1 == 1) == ((b >> 38u64) & 1 == 1),
        ((a >> 39u64) & 1 == 1) == ((b >> 39u64) & 1 == 1),
        ((a >> 40u64) & 1 == 1) == ((b >> 40u64) & 1 == 1),
        ((a >> 41u64) & 1 == 1) == ((b >> 41u64) & 1 == 1),
        ((a >> 42u64) & 1 == 1) == ((b >> 42u64) & 1 == 1),
        ((a >> 43u64) & 1 == 1) == ((b >> 43u64) & 1 == 1),
        ((a >> 44u64) & 1 == 1) == ((b >> 44u64) & 1 == 1),
        ((a >> 45u64) & 1 == 1) == ((b >> 45u64) & 1 == 1),
        ((a >> 46u64) & 1 == 1) == ((b >> 46u64) & 1 == 1),
        ((a >> 47u64) & 1 == 1) == ((b >> 47u64) & 1 == 1),
        ((a >> 48u64) & 1 == 1) == ((b >> 48u64) & 1 == 1),
        ((a >> 49u64) & 1 == 1) == ((b >> 49u64) & 1 == 1),
        ((a >> 50u64) & 1 == 1) == ((b >> 50u64) & 1 == 1),
        ((a >> 51u64) & 1 == 1) == ((b >> 51u64) & 1 == 1),
        ((a >> 52u64) & 1 == 1) == ((b >> 52u64) & 1 == 1),
        ((a >> 53u64) & 1 == 1) == ((b >> 53u64) & 1 == 1),
        ((a >> 54u64) & 1 == 1) == ((b >> 54u64) & 1 == 1),
        ((a >> 55u64) & 1 == 1) == ((b >> 55u64) & 1 == 1),
        ((a >> 56u64) & 1 == 1) == ((b >> 56u64) & 1 == 1),
        ((a >> 57u64) & 1 == 1) == ((b >> 57u64) & 1 == 1),
        ((a >> 58u64) & 1 == 1) == ((b >> 58u64) & 1 == 1),
        ((a >> 59u64) & 1 == 1) == ((b >> 59u64) & 1 == 1),
        ((a >> 60u64) & 1 == 1) == ((b >> 60u64) & 1 == 1),
        ((a >> 61u64) & 1 == 1) == ((b >> 61u64) & 1 == 1),
        ((a >> 62u64) & 1 == 1) == ((b >> 62u64) & 1 == 1),
        ((a >> 63u64) & 1 == 1) == ((b >> 63u64) & 1 == 1);
}

/// The Hamming distance of two hashes is at most 64.
pub proof fn lemma_hamming_bound(a: u64, b: u64)
    ensures
        hamming(a, b) <= 64,
{
    lemma_diff_count_bound(a, b, 64);
}

/// The Hamming distance is symmetric.
pub proof fn lemma_hamming_symmetric(a: u64, b: u64)
    ensures
        hamming(a, b) == hamming(b, a),
{
    lemma_diff_count_symmetric(a, b, 64);
}

/// The Hamming distance obeys the triangle inequality.
pub proof fn lemma_hamming_triangle(a: u64, b: u64, c: u64)
    ensures
        hamming(a, c) <= hamming(a, b) + hamming(b, c),
{
    lemma_diff_count_triangle(a, b, c, 64);
}

/// Two hashes are at distance 0 exactly when they are equal.
pub proof fn lemma_hamming_zero(a: u64, b: u64)
    ensures
        hamming(a, b) == 0 <==> a == b,
{
    lemma_diff_count_self(a, 64);
    if hamming(a, b) == 0 {
        lemma_diff_count_zero(a, b, 64);
        assert(bit(a, 0nat) == bit(b, 0nat));
        assert(bit(a, 1nat) == bit(b, 1nat));
        assert(bit(a, 2nat) == bit(b, 2nat));
        assert(bit(a, 3nat) == bit(b, 3nat));
        assert(bit(a, 4nat) == bit(b, 4nat));
        assert(bit(a, 5nat) == bit(b, 5nat));
        assert(bit(a, 6nat) == bit(b, 6nat));
        assert(bit(a, 7nat) == bit(b, 7nat));
        assert(bit(a, 8nat) == bit(b, 8nat));
        assert(bit(a, 9nat) == bit(b, 9nat));
        assert(bit(a, 10nat) == bit(b, 10nat));
        assert(bit(a, 11nat) == bit(b, 11nat));
        assert(bit(a, 12nat) == bit(b, 12nat));
        assert(bit(a, 13nat) == bit(b, 13nat));
        assert(bit(a, 14nat) == bit(b, 14nat));
        assert(bit(a, 15nat) == bit(b, 15nat));
        assert(bit(a, 16nat) == bit(b, 16nat));
        assert(bit(a, 17nat) == bit(b, 17nat));
        assert(bit(a, 18nat) == bit(b, 18nat));
        assert(bit(a, 19nat) == bit(b, 19nat));
        assert(bit(a, 20nat) == bit(b, 20nat));
        assert(bit(a, 21nat) == bit(b, 21nat));
        assert(bit(a, 22nat) == bit(b, 22nat));
        assert(bit(a, 23nat) == bit(b, 23nat));
        assert(bit(a, 24nat) == bit(b, 24nat));
        assert(bit(a, 25nat) == bit(b, 25nat));
        assert(bit(a, 26nat) == bit(b, 26nat));
        assert(bit(a, 27nat) == bit(b, 27nat));
        assert(bit(a, 28nat) == bit(b, 28nat));
        assert(bit(a, 29nat) == bit(b, 29nat));
        assert(bit(a, 30nat) == bit(b, 30nat));
        assert(bit(a, 31nat) == bit(b, 31nat));
        assert(bit(a, 32nat) == bit(b, 32nat));
        assert(bit(a, 33nat) == bit(b, 33nat));
        assert(bit(a, 34nat) == bit(b, 34nat));
        assert(bit(a, 35nat) == bit(b, 35nat));
        assert(bit(a, 36nat) == bit(b, 36nat));
        assert(bit(a, 37nat) == bit(b, 37nat));
        assert(bit(a, 38nat) == bit(b, 38nat));
        assert(bit(a, 39nat) == bit(b, 39nat));
        assert(bit(a, 40nat) == bit(b, 40nat));
        assert(bit(a, 41nat) == bit(b, 41nat));
        assert(bit(a, 42nat) == bit(b, 42nat));
        assert(bit(a, 43nat) == bit(b, 43nat));
        assert(bit(a, 44nat) == bit(b, 44nat));
        assert(bit(a, 45nat) == bit(b, 45nat));
        assert(bit(a, 46nat) == bit(b, 46nat));
        assert(bit(a, 47nat) == bit(b, 47nat));
        assert(bit(a, 48nat) == bit(b, 48nat));
        assert(bit(a, 49nat) == bit(b, 49nat));
        assert(bit(a, 50nat) == bit(b, 50nat));
        assert(bit(a, 51nat) == bit(b, 51nat));
        assert(bit(a, 52nat) == bit(b, 52nat));
        assert(bit(a, 53nat) == bit(b, 53nat));
        assert(bit(a, 54nat) == bit(b, 54nat));
        assert(bit(a, 55nat) == bit(b, 55nat));
        assert(bit(a, 56nat) == bit(b, 56nat));
        assert(bit(a, 57nat) == bit(b, 57nat));
        assert(bit(a, 58nat) == bit(b, 58nat));
        assert(bit(a, 59nat) == bit(b, 59nat));
        assert(bit(a, 60nat) == bit(b, 60nat));
        assert(bit(a, 61nat) == bit(b, 61nat));
        assert(bit(a, 62nat) == bit(b, 62nat));
        assert(bit(a, 63nat) == bit(b, 63nat));
        lemma_bits_equal(a, b);
    }
}

proof fn lemma_xor_bit(a: u64, b: u64, i: u64)
    requires
        i < 64,
    ensures
        (((a ^ b) >> i) & 1 == 1) == (((a >> i) & 1 == 1) != ((b >> i) & 1 == 1)),
{
    assert((((a ^ b) >> i) & 1 == 1) == (((a >> i) & 1 == 1) != ((b >> i) & 1 == 1))) by (bit_vector)
        requires
            i < 64;
}

/// The number of bits in which `a` and `b` differ.
pub fn hamming_distance(a: u64, b: u64) -> (r: u32)
    ensures
        r == hamming(a, b),
        r <= 64,
{
    let x = a ^ b;
    let mut n: u32 = 0;
    let mut i: u64 = 0;
    while i < 64
        invariant
            i <= 64,
            x == a ^ b,
            n == diff_count(a, b, i as nat),
            n <= i,
        decreases 64 - i,
    {
        proof {
            lemma_xor_bit(a, b, i);
        }
        if (x >> i) & 1 == 1 {
            n = n + 1;
        }
        i = i + 1;
    }
    n
}

/// The horizontal difference that bit `i` of a hash looks at, on a 9x9 image
/// stored row by row: the pixel right of cell `i` of the inner 8x8 grid minus the cell.
pub open spec fn cell_diff(p: Seq<u8>, i: int) -> int {
    let y = i / 8;
    let x = i % 8;
    p[y * 9 + x + 1] - p[y * 9 + x]
}

/// The sum of the first `n` cell differences.
pub open spec fn diff_sum(p: Seq<u8>, n: int) -> int
    decreases n,
{
    if n <= 0 {
        0
    } else {
        diff_sum(p, n - 1) + cell_diff(p, n - 1)
    }
}

/// The hash of a 9x9 grayscale image: bit `i` is set exactly when difference `i`
/// is above the mean of the 64 differences.
pub open spec fn is_luma_hash(p: Seq<u8>, h: u64) -> bool {
    forall|i: nat| i < 64 ==> (bit(h, i) <==> 64 * cell_diff(p, i as int) > diff_sum(p, 64))
}

proof fn lemma_diff_sum_bound(p: Seq<u8>, n: int)
    requires
        p.len() == 81,
        0 <= n <= 64,
    ensures
        -255 * n <= diff_sum(p, n) <= 255 * n,
    decreases n,
{
    if n > 0 {
        lemma_diff_sum_bound(p, n - 1);
        let i = n - 1;
        assert(0 <= (i / 8) * 9 + i % 8 + 1 < 81) by (nonlinear_arith)
            requires 0 <= i < 64;
    }
}

proof fn lemma_set_bit(h: u64, i: u64, j: u64)
    requires
        i < 64,
        j < 64,
    ensures
        ((h | (1u64 << i)) >> j) & 1 == 1 <==> (j == i || (h >> j) & 1 == 1),
{
    assert(((h | (1u64 << i)) >> j) & 1 == 1 <==> (j == i || (h >> j) & 1 == 1)) by (bit_vector)
        requires
            i < 64,
            j < 64;
}

/// The hash of a 9x9 grayscale image, given row by row.
pub fn phash_from_luma9(pixels: &Vec<u8>) -> (r: u64)
    requires
        pixels.len() == 81,
    ensures
        is_luma_hash(pixels@, r),
{
    let mut sum: i32 = 0;
    let mut i: usize = 0;
    while i < 64
        invariant
            pixels.len() == 81,
            i <= 64,
            sum == diff_sum(pixels@, i as int),
        decreases 64 - i,
    {
        proof {
            lemma_diff_sum_bound(pixels@, i as int);
            assert(0 <= (i / 8) * 9 + i % 8 + 1 < 81) by (nonlinear_arith)
                requires 0 <= i < 64;
        }
        let y = i / 8;
        let x = i % 8;
        let d = pixels[y * 9 + x + 1] as i32 - pixels[y * 9 + x] as i32;
        sum = sum + d;
        i = i + 1;
    }
    proof {
        lemma_diff_sum_bound(pixels@, 64);
    }
    let mut h: u64 = 0;
    let mut k: u64 = 0;
    proof {
        assert forall|j: nat| j < 64 implies !bit(0u64, j) by {
            let jj = j as u64;
            assert((0u64 >> jj) & 1 == 0) by (bit_vector);
        }
    }
    while k < 64
        invariant
            pixels.len() == 81,
            k <= 64,
            sum == diff_sum(pixels@, 64),
            forall|j: nat| j < 64 ==> (bit(h, j) <==> (j < k && 64 * cell_diff(pixels@, j as int) > sum)),
        decreases 64 - k,
    {
        let y = (k / 8) as usize;
        let x = (k % 8) as usize;
        proof {
            assert(0 <= y * 9 + x + 1 < 81) by (nonlinear_arith)
                requires y == k / 8, x == k % 8, 0 <= k < 64;
        }
        let d = pixels[y * 9 + x + 1] as i32 - pixels[y * 9 + x] as i32;
        assert(d == cell_diff(pixels@, k as int));
        if 64 * d > sum {
            let h0 = h;
            h = h | (1u64 << k);
            proof {
                assert forall|j: nat| j < 64 implies (bit(h, j) <==> (j < k + 1 && 64 * cell_diff(pixels@, j as int) > sum)) by {
                    lemma_set_bit(h0, k, j as u64);
                    assert(bit(h0, j) <==> (j < k && 64 * cell_diff(pixels@, j as int) > sum));
                }
            }
        }
        k = k + 1;
    }
    h
}

/// The row (or column) of a `w`-wide image that cell `d` of a 9-cell downsample reads.
pub open spec fn sample_at(w: int, d: int) -> int {
    if d * w / 9 < w - 1 { d * w / 9 } else { w - 1 }
}

/// The 9x9 downsample of a `w`x`w` image: cell `(dy, dx)` is the pixel at
/// `(sample_at(w, dy), sample_at(w, dx))`.
pub open spec fn downsample9(p: Seq<u8>, w: int) -> Seq<u8> {
    Seq::new(81, |c: int| p[sample_at(w, c / 9) * w + sample_at(w, c % 9)])
}

/// The 9x9 grayscale thumbnail, row by row, that the `image` crate makes of an
/// encoded image: decoded in the format its file extension names, resized to
/// 9x9 with a Lanczos filter, turned gray; `None` where the extension names no
/// format or the bytes do not decode. A function of the bytes and the extension.
pub uninterp spec fn luma9_thumbnail(bytes: Seq<u8>, ext: Seq<char>) -> Option<Seq<u8>>;

pub open spec fn opt_bytes(r: Option<Vec<u8>>) -> Option<Seq<u8>> {
    match r {
        Some(v) => Some(v@),
        None => None,
    }
}

/// Calls `ImageFormat::from_extension`, `load_from_memory_with_format`, then
/// `resize_exact(9, 9, Lanczos3)`, `grayscale` and `to_luma8` of the `image`
/// crate: the thumbnail's 81 gray levels, named by `luma9_thumbnail`.
#[verifier::external_body]
fn decode_luma9(bytes: &[u8], ext: &str) -> (r: Option<Vec<u8>>)
    ensures
        opt_bytes(r) == luma9_thumbnail(bytes@, ext@),
        r matches Some(v) ==> v@.len() == 81,
{
    let format = image::ImageFormat::from_extension(ext)?;
    let img = image::load_from_memory_with_format(bytes, format).ok()?;
    Some(img.resize_exact(9, 9, image::imageops::FilterType::Lanczos3).grayscale().to_luma8().into_raw())
}

/// The perceptual hash of an encoded image whose file has extension `ext`: the
/// hash of its 9x9 grayscale thumbnail; `None` where it does not decode.
pub fn compute_phash_of_bytes(bytes: &[u8], ext: &str) -> (r: Option<u64>)
    ensures
        match luma9_thumbnail(bytes@, ext@) {
            Some(p) => r matches Some(h) && is_luma_hash(p, h),
            None => r is None,
        },
{
    match decode_luma9(bytes, ext) {
        Some(p) => Some(phash_from_luma9(&p)),
        None => None,
    }
}

/// The hash of a square grayscale image of side `size` given row by row, after
/// downsampling it to 9x9 by picking pixels; `None` when there are too few pixels.
pub fn compute_phash_from_pixels(pixels: &[u8], size: u32) -> (r: Option<u64>)
    requires
        0 < size <= 65535,
    ensures
        pixels@.len() < size * size ==> r is None,
        pixels@.len() >= size * size ==> (r matches Some(h) && is_luma_hash(downsample9(pixels@, size as int), h)),
{
    let w = size as usize;
    assert(size * size <= 65535 * 65535) by (nonlinear_arith) requires 0 < size <= 65535;
    let total = w * w;
    if pixels.len() < total {
        return None;
    }
    let mut resized: Vec<u8> = Vec::new();
    let mut c: usize = 0;
    while c < 81
        invariant
            0 < w <= 65535,
            total == w * w,
            pixels.len() >= total,
            c <= 81,
            resized.len() == c,
            forall|j: int| 0 <= j < c ==> resized@[j] == downsample9(pixels@, w as int)[j],
        decreases 81 - c,
    {
        let dy = c / 9;
        let dx = c % 9;
        assert(dy < 9 && dx < 9);
        assert(dy * w <= 8 * 65535 && dx * w <= 8 * 65535) by (nonlinear_arith)
            requires dy < 9, dx < 9, w <= 65535;
        let mut sy = dy * w / 9;
        if sy > w - 1 {
            sy = w - 1;
        }
        let mut sx = dx * w / 9;
        if sx > w - 1 {
            sx = w - 1;
        }
        proof {
            assert(sy * w + sx < w * w) by (nonlinear_arith)
                requires sy <= w - 1, sx <= w - 1, 0 < w;
            assert(sy == sample_at(w as int, (c / 9) as int));
            assert(sx == sample_at(w as int, (c % 9) as int));
        }
        resized.push(pixels[sy * w + sx]);
        c = c + 1;
    }
    assert(resized@ =~= downsample9(pixels@, w as int));
    Some(phash_from_luma9(&resized))
}

/// `a` is a proper ancestor of `x` in the tree given by `parent`.
pub open spec fn anc(parent: Seq<int>, a: int, x: int) -> bool
    decreases x,
{
    if x <= 0 || x >= parent.len() {
        false
    } else if parent[x] == a {
        true
    } else if 0 <= parent[x] < x {
        anc(parent, a, parent[x])
    } else {
        false
    }
}

/// The child of `a` on the path from `a` down to `x`.
pub open spec fn path_child(parent: Seq<int>, a: int, x: int) -> int
    decreases x,
{
    if x <= 0 || x >= parent.len() {
        x
    } else if parent[x] == a {
        x
    } else if 0 <= parent[x] < x {
        path_child(parent, a, parent[x])
    } else {
        x
    }
}

/// Parent links that point to smaller indices.
pub open spec fn parents_ok(parent: Seq<int>) -> bool {
    forall|x: int| 0 < x < parent.len() ==> 0 <= #[trigger] parent[x] < x
}

proof fn lemma_path_child(parent: Seq<int>, a: int, x: int)
    requires
        parents_ok(parent),
        anc(parent, a, x),
    ensures
        0 < path_child(parent, a, x) <= x,
        parent[path_child(parent, a, x)] == a,
        path_child(parent, a, x) == x || anc(parent, path_child(parent, a, x), x),
    decreases x,
{
    if parent[x] != a {
        lemma_path_child(parent, a, parent[x]);
        let c = path_child(parent, a, parent[x]);
        if c != parent[x] {
            lemma_anc_trans(parent, c, parent[x], x);
        }
    }
}

proof fn lemma_anc_trans(parent: Seq<int>, a: int, b: int, x: int)
    requires
        parents_ok(parent),
        anc(parent, a, b),
        0 < x < parent.len(),
        parent[x] == b,
    ensures
        anc(parent, a, x),
{
}

proof fn lemma_anc_root(parent: Seq<int>, x: int)
    requires
        parents_ok(parent),
        0 < x < parent.len(),
    ensures
        anc(parent, 0, x),
    decreases x,
{
    if parent[x] != 0 {
        lemma_anc_root(parent, parent[x]);
    }
}

proof fn lemma_anc_bounds(parent: Seq<int>, a: int, x: int)
    requires
        parents_ok(parent),
        anc(parent, a, x),
    ensures
        0 <= a < x < parent.len(),
    decreases x,
{
    if parent[x] != a {
        lemma_anc_bounds(parent, a, parent[x]);
    }
}

proof fn lemma_anc_push(parent: Seq<int>, p: int, a: int, x: int)
    requires
        parents_ok(parent),
        0 <= p < parent.len(),
    ensures
        0 <= x < parent.len() ==> anc(parent.push(p), a, x) == anc(parent, a, x),
        0 <= x < parent.len() ==> path_child(parent.push(p), a, x) == path_child(parent, a, x),
        x == parent.len() ==> (anc(parent.push(p), a, x) <==> (a == p || anc(parent, a, p))),
        x == parent.len() && a != p ==> path_child(parent.push(p), a, x) == path_child(parent, a, p),
        x == parent.len() && a == p ==> path_child(parent.push(p), a, x) == x,
    decreases x,
{
    let q = parent.push(p);
    if 0 < x < parent.len() {
        assert(q[x] == parent[x]);
        if parent[x] != a {
            lemma_anc_push(parent, p, a, parent[x]);
        }
    } else if x == parent.len() {
        assert(q[x] == p);
        if p != a {
            lemma_anc_push(parent, p, a, p);
        }
    }
}

/// One node of a BK-tree: a hash, the caller's id for it, and its children,
/// each with the distance of the child's hash from this node's hash.
pub struct BkNode {
    hash: u64,
    id: usize,
    children: Vec<(u32, usize)>,
}

/// A BK-tree over 64-bit hashes under the Hamming distance.
pub struct BkTree {
    nodes: Vec<BkNode>,
    parent: Ghost<Seq<int>>,
    slot: Ghost<Seq<int>>,
}

/// What a BK-tree holds: its hashes with their ids, in the order they were stored.
impl View for BkTree {
    type V = Seq<(u64, usize)>;

    closed spec fn view(&self) -> Seq<(u64, usize)> {
        self.nodes@.map_values(|n: BkNode| (n.hash, n.id))
    }
}

/// Whether some stored entry has hash `h`.
pub open spec fn holds_hash(entries: Seq<(u64, usize)>, h: u64) -> bool {
    exists|i: int| 0 <= i < entries.len() && (#[trigger] entries[i]).0 == h
}

/// `r` is what a query for `q` within `max_dist` answers on `entries`: the entries
/// visited in the order `vis`, each once, exactly those within the distance, each
/// with its id and its distance from `q`.
pub open spec fn find_answer(entries: Seq<(u64, usize)>, q: u64, max_dist: u32, vis: Seq<int>, r: Seq<(usize, u32)>) -> bool {
    &&& vis.no_duplicates()
    &&& vis.len() == r.len()
    &&& forall|k: int| 0 <= k < vis.len() ==> 0 <= #[trigger] vis[k] < entries.len()
            && r[k] == (entries[vis[k]].1, hamming(q, entries[vis[k]].0) as u32)
    &&& forall|i: int| 0 <= i < entries.len() ==> (vis.contains(i) <==> hamming(q, (#[trigger] entries[i]).0) <= max_dist)
}

/// What a tree holds after `new` and then `insert` of each pair in turn (as
/// `insert`'s contract says): a pair is kept unless its hash is already held.
pub open spec fn stored_after(pairs: Seq<(u64, usize)>) -> Seq<(u64, usize)>
    decreases pairs.len(),
{
    if pairs.len() == 0 {
        Seq::empty()
    } else {
        let p = stored_after(pairs.drop_last());
        if holds_hash(p, pairs.last().0) { p } else { p.push(pairs.last()) }
    }
}

/// No earlier pair has the hash of pair `k`.
pub open spec fn first_of_hash(pairs: Seq<(u64, usize)>, k: int) -> bool {
    forall|j: int| 0 <= j < k ==> (#[trigger] pairs[j]).0 != pairs[k].0
}

/// The pairs whose hash no earlier pair has, in order.
pub open spec fn first_pairs(pairs: Seq<(u64, usize)>) -> Seq<(u64, usize)>
    decreases pairs.len(),
{
    if pairs.len() == 0 {
        Seq::empty()
    } else {
        let f = first_pairs(pairs.drop_last());
        if first_of_hash(pairs, pairs.len() - 1) { f.push(pairs.last()) } else { f }
    }
}

/// A tree built by inserting pairs in turn holds exactly the pairs whose hash
/// no earlier pair has, in insertion order; so `find` on it reports each of
/// those within the distance once, with its true distance, and nothing else.
pub proof fn law_tree_holds_first_pairs(pairs: Seq<(u64, usize)>)
    ensures
        stored_after(pairs) == first_pairs(pairs),
        forall|h: u64| holds_hash(stored_after(pairs), h) <==> exists|j: int| 0 <= j < pairs.len() && (#[trigger] pairs[j]).0 == h,
    decreases pairs.len(),
{
    if pairs.len() > 0 {
        let d = pairs.drop_last();
        law_tree_holds_first_pairs(d);
        let n = pairs.len() - 1;
        assert(pairs[n] == pairs.last());
        assert forall|j: int| 0 <= j < n implies #[trigger] pairs[j] == d[j] by {}
        let h0 = pairs.last().0;
        assert(holds_hash(stored_after(d), h0) <==> !first_of_hash(pairs, n)) by {
            if holds_hash(stored_after(d), h0) {
                let j = choose|j: int| 0 <= j < d.len() && (#[trigger] d[j]).0 == h0;
                assert(pairs[j].0 == h0);
            }
            if !first_of_hash(pairs, n) {
                let j = choose|j: int| 0 <= j < n && (#[trigger] pairs[j]).0 != pairs[n].0 == false;
                assert(d[j].0 == h0);
            }
        }
        let st = stored_after(pairs);
        assert forall|h: u64| holds_hash(st, h) <==> exists|j: int| 0 <= j < pairs.len() && (#[trigger] pairs[j]).0 == h by {
            let p = stored_after(d);
            if holds_hash(st, h) {
                let i = choose|i: int| 0 <= i < st.len() && (#[trigger] st[i]).0 == h;
                if i < p.len() {
                    assert(st[i] == p[i]);
                    assert(holds_hash(p, h));
                    let j = choose|j: int| 0 <= j < d.len() && (#[trigger] d[j]).0 == h;
                    assert(pairs[j].0 == h);
                } else {
                    assert(pairs[n].0 == h);
                }
            }
            if exists|j: int| 0 <= j < pairs.len() && (#[trigger] pairs[j]).0 == h {
                let j = choose|j: int| 0 <= j < pairs.len() && (#[trigger] pairs[j]).0 == h;
                if j < n {
                    assert(d[j].0 == h);
                    assert(exists|j2: int| 0 <= j2 < d.len() && (#[trigger] d[j2]).0 == h);
                    assert(holds_hash(p, h));
                    let i = choose|i: int| 0 <= i < p.len() && (#[trigger] p[i]).0 == h;
                    assert(st[i] == p[i]);
                } else if holds_hash(p, h) {
                    let i = choose|i: int| 0 <= i < p.len() && (#[trigger] p[i]).0 == h;
                    assert(st[i] == p[i]);
                } else {
                    assert(st[st.len() - 1].0 == h);
                }
            }
        }
    }
}

impl BkTree {
    spec fn h(&self, x: int) -> u64 {
        self.nodes@[x].hash
    }

    spec fn ch(&self, i: int) -> Seq<(u32, usize)> {
        self.nodes@[i].children@
    }

    spec fn edge(&self, x: int) -> int {
        hamming(self.h(self.parent@[x]), self.h(x)) as int
    }

    /// The tree's invariant: parent links, child lists that agree with them, child
    /// edges that are the distance between the two hashes and distinct among siblings,
    /// every descendant's distance from a node equal to the edge it lies below, and
    /// hashes that are all different.
    pub closed spec fn wf(&self) -> bool {
        let n = self.nodes.len() as int;
        let parent = self.parent@;
        &&& parent.len() == n
        &&& self.slot@.len() == n
        &&& parents_ok(parent)
        &&& forall|i: int, k: int| #![trigger self.nodes@[i].children@[k]]
            0 <= i < n && 0 <= k < self.nodes@[i].children@.len() ==> {
                let (d, c) = self.nodes@[i].children@[k];
                &&& 0 < c < n
                &&& parent[c as int] == i
                &&& d as int == self.edge(c as int)
                &&& self.slot@[c as int] == k
            }
        &&& forall|c: int| #![trigger self.slot@[c]]
            0 < c < n ==> 0 <= self.slot@[c] < self.ch(parent[c]).len()
                && self.ch(parent[c])[self.slot@[c]].1 as int == c
        &&& forall|c1: int, c2: int| #![trigger parent[c1], parent[c2]]
            0 < c1 < n && 0 < c2 < n && c1 != c2 && parent[c1] == parent[c2] ==> self.edge(c1) != self.edge(c2)
        &&& forall|a: int, x: int| #![trigger anc(parent, a, x)]
            anc(parent, a, x) ==> self.edge(path_child(parent, a, x)) == hamming(self.h(a), self.h(x))
        &&& forall|i: int, j: int| #![trigger self.nodes@[i], self.nodes@[j]]
            0 <= i < n && 0 <= j < n && i != j ==> self.nodes@[i].hash != self.nodes@[j].hash
    }

    /// An empty tree.
    pub fn new() -> (t: Self)
        ensures
            t.wf(),
            t@ == Seq::<(u64, usize)>::empty(),
    {
        let t = BkTree { nodes: Vec::new(), parent: Ghost(Seq::empty()), slot: Ghost(Seq::empty()) };
        assert(t@ =~= Seq::<(u64, usize)>::empty());
        t
    }

    /// The child of node `i` whose edge is `d`, if it has one.
    fn child_with_edge(&self, i: usize, d: u32) -> (r: Option<usize>)
        requires
            self.wf(),
            i < self.nodes.len(),
        ensures
            match r {
                Some(c) => 0 < c < self.nodes.len() && self.parent@[c as int] == i && self.edge(c as int) == d,
                None => forall|c: int| 0 < c < self.nodes.len() && self.parent@[c] == i ==> self.edge(c) != d,
            },
    {
        let len = self.nodes[i].children.len();
        let mut k: usize = 0;
        while k < len
            invariant
                self.wf(),
                i < self.nodes.len(),
                len == self.ch(i as int).len(),
                k <= len,
                forall|j: int| 0 <= j < k ==> (#[trigger] self.ch(i as int)[j]).0 != d,
            decreases len - k,
        {
            let (e, c) = self.nodes[i].children[k];
            assert(self.nodes@[i as int].children@[k as int] == (e, c));
            if e == d {
                return Some(c);
            }
            k = k + 1;
        }
        proof {
            assert forall|c: int| 0 < c < self.nodes.len() && self.parent@[c] == i implies self.edge(c) != d by {
                let s = self.slot@[c];
                assert(self.ch(self.parent@[c])[s].1 as int == c);
                assert(self.nodes@[i as int].children@[s] == self.ch(i as int)[s]);
            }
        }
        None
    }

    fn copy_children(v: &Vec<(u32, usize)>) -> (r: Vec<(u32, usize)>)
        ensures
            r@ == v@,
    {
        let mut r: Vec<(u32, usize)> = Vec::new();
        let mut k: usize = 0;
        while k < v.len()
            invariant
                k <= v.len(),
                r@ == v@.take(k as int),
            decreases v.len() - k,
        {
            r.push(v[k]);
            assert(v@.take(k as int).push(v@[k as int]) =~= v@.take(k + 1));
            k = k + 1;
        }
        assert(v@.take(v.len() as int) =~= v@);
        r
    }

    /// Stores `hash` under `id`, unless the tree already holds that hash.
    pub fn insert(&mut self, hash: u64, id: usize)
        requires
            old(self).wf(),
        ensures
            final(self).wf(),
            holds_hash(old(self)@, hash) ==> final(self)@ == old(self)@,
            !holds_hash(old(self)@, hash) ==> final(self)@ == old(self)@.push((hash, id)),
    {
        if self.nodes.len() == 0 {
            self.nodes.push(BkNode { hash, id, children: Vec::new() });
            proof {
                self.parent@ = seq![-1int];
                self.slot@ = seq![0int];
                assert(self@ =~= old(self)@.push((hash, id)));
                assert(!holds_hash(old(self)@, hash));
                assert forall|a: int, x: int| #![trigger anc(self.parent@, a, x)] anc(self.parent@, a, x) implies
                    self.edge(path_child(self.parent@, a, x)) == hamming(self.h(a), self.h(x)) by {
                    lemma_anc_bounds(self.parent@, a, x);
                }
            }
            return;
        }
        let n = self.nodes.len();
        let ghost parent = self.parent@;
        let mut cur: usize = 0;
        proof {
            assert forall|x: int| 0 <= x < n && self.h(x) == hash implies x == 0 || anc(parent, 0, x) by {
                if x != 0 {
                    lemma_anc_root(parent, x);
                }
            }
            assert forall|a: int| anc(parent, a, 0) implies self.edge(path_child(parent, a, 0)) == hamming(self.h(a), hash) by {
            }
        }
        loop
            invariant
                self.wf(),
                self.nodes@ == old(self).nodes@,
                self.parent@ == old(self).parent@,
                self.slot@ == old(self).slot@,
                parent == self.parent@,
                n == self.nodes.len(),
                cur < n,
                forall|a: int| anc(parent, a, cur as int) ==> self.edge(path_child(parent, a, cur as int)) == hamming(self.h(a), hash),
                forall|x: int| 0 <= x < n && self.h(x) == hash ==> x == cur || anc(parent, cur as int, x),
            decreases n - cur,
        {
            let d = hamming_distance(hash, self.nodes[cur].hash);
            proof {
                lemma_hamming_zero(hash, self.h(cur as int));
                lemma_hamming_symmetric(hash, self.h(cur as int));
            }
            if d == 0 {
                proof {
                    assert(old(self)@[cur as int].0 == hash);
                }
                return;
            }
            match self.child_with_edge(cur, d) {
                Some(c) => {
                    proof {
                        assert forall|x: int| 0 <= x < n && self.h(x) == hash implies x == c || anc(parent, c as int, x) by {
                            assert(x != cur);
                            assert(anc(parent, cur as int, x));
                            lemma_path_child(parent, cur as int, x);
                            let c2 = path_child(parent, cur as int, x);
                            assert(self.edge(c2) == hamming(self.h(cur as int), self.h(x)));
                            if c2 != c {
                                assert(parent[c2] == parent[c as int]);
                            }
                        }
                        assert forall|a: int| anc(parent, a, c as int) implies self.edge(path_child(parent, a, c as int)) == hamming(self.h(a), hash) by {
                            if a != cur {
                                assert(anc(parent, a, cur as int));
                            }
                        }
                    }
                    cur = c;
                },
                None => {
                    proof {
                        assert forall|x: int| 0 <= x < n implies self.h(x) != hash by {
                            if self.h(x) == hash {
                                assert(anc(parent, cur as int, x));
                                lemma_path_child(parent, cur as int, x);
                                let c2 = path_child(parent, cur as int, x);
                                assert(self.edge(c2) == hamming(self.h(cur as int), self.h(x)));
                            }
                        }
                        assert(!holds_hash(old(self)@, hash)) by {
                            if holds_hash(old(self)@, hash) {
                                let i = choose|i: int| 0 <= i < old(self)@.len() && (#[trigger] old(self)@[i]).0 == hash;
                                assert(self.h(i) == hash);
                            }
                        }
                    }
                    self.attach(cur, d, hash, id);
                    return;
                },
            }
        }
    }

    /// Adds a new node for `hash` as a child of `cur` at edge `d`.
    fn attach(&mut self, cur: usize, d: u32, hash: u64, id: usize)
        requires
            old(self).wf(),
            cur < old(self).nodes.len(),
            d as int == hamming(old(self).h(cur as int), hash),
            forall|c: int| 0 < c < old(self).nodes.len() && old(self).parent@[c] == cur ==> old(self).edge(c) != d,
            forall|x: int| 0 <= x < old(self).nodes.len() ==> old(self).h(x) != hash,
            forall|a: int| anc(old(self).parent@, a, cur as int) ==>
                old(self).edge(path_child(old(self).parent@, a, cur as int)) == hamming(old(self).h(a), hash),
        ensures
            final(self).wf(),
            final(self)@ == old(self)@.push((hash, id)),
    {
        let n = self.nodes.len();
        let ghost parent = self.parent@;
        let ghost old_nodes = self.nodes@;
        let mut kids = Self::copy_children(&self.nodes[cur].children);
        let k = kids.len();
        kids.push((d, n));
        let node = BkNode { hash: self.nodes[cur].hash, id: self.nodes[cur].id, children: kids };
        self.nodes.set(cur, node);
        self.nodes.push(BkNode { hash, id, children: Vec::new() });
        proof {
            self.parent@ = parent.push(cur as int);
            self.slot@ = self.slot@.push(k as int);
            let np = self.parent@;
            assert forall|x: int| 0 <= x < n implies self.h(x) == old(self).h(x) by {}
            assert(self.h(n as int) == hash);
            assert(parents_ok(np));
            assert forall|x: int| 0 < x < n implies self.edge(x) == old(self).edge(x) by {
                assert(np[x] == parent[x]);
            }
            assert(self.edge(n as int) == d) by {
                lemma_hamming_symmetric(hash, old(self).h(cur as int));
            }
            assert forall|i: int, k2: int| #![trigger self.nodes@[i].children@[k2]]
                0 <= i < n + 1 && 0 <= k2 < self.nodes@[i].children@.len() implies {
                    let (e, c) = self.nodes@[i].children@[k2];
                    &&& 0 < c < n + 1
                    &&& np[c as int] == i
                    &&& e as int == self.edge(c as int)
                    &&& self.slot@[c as int] == k2
                } by {
                if i != cur && i < n {
                    assert(self.nodes@[i].children@[k2] == old_nodes[i].children@[k2]);
                } else if i == cur && k2 < k {
                    assert(self.nodes@[i].children@[k2] == old_nodes[i].children@[k2]);
                }
            }
            assert forall|c: int| #![trigger self.slot@[c]] 0 < c < n + 1 implies
                0 <= self.slot@[c] < self.ch(np[c]).len() && self.ch(np[c])[self.slot@[c]].1 as int == c by {
                if c < n {
                    let s = self.slot@[c];
                    assert(old(self).ch(parent[c])[s].1 as int == c);
                    if parent[c] == cur {
                        assert(self.ch(np[c])[s] == old(self).ch(parent[c])[s]);
                    } else {
                        assert(self.ch(np[c]) == old(self).ch(parent[c]));
                    }
                }
            }
            assert forall|c1: int, c2: int| #![trigger np[c1], np[c2]]
                0 < c1 < n + 1 && 0 < c2 < n + 1 && c1 != c2 && np[c1] == np[c2] implies self.edge(c1) != self.edge(c2) by {
                if c1 < n && c2 < n {
                    assert(np[c1] == parent[c1] && np[c2] == parent[c2]);
                }
            }
            assert forall|a: int, x: int| #![trigger anc(np, a, x)]
                anc(np, a, x) implies self.edge(path_child(np, a, x)) == hamming(self.h(a), self.h(x)) by {
                lemma_anc_push(parent, cur as int, a, x);
                lemma_anc_bounds(np, a, x);
                if x < n {
                    assert(anc(parent, a, x));
                    lemma_path_child(parent, a, x);
                } else if a != cur {
                    lemma_path_child(parent, a, cur as int);
                }
            }
            assert forall|i: int, j: int| #![trigger self.nodes@[i], self.nodes@[j]]
                0 <= i < n + 1 && 0 <= j < n + 1 && i != j implies self.nodes@[i].hash != self.nodes@[j].hash by {
                if i < n {
                    assert(self.h(i) == old(self).h(i));
                }
                if j < n {
                    assert(self.h(j) == old(self).h(j));
                }
                if i < n && j < n {
                    assert(old(self).nodes@[i].hash != old(self).nodes@[j].hash);
                }
            }
            assert(self@ =~= old(self)@.push((hash, id)));
        }
    }

    /// The ids of the stored hashes within `max_dist` of `query`, each with its
    /// distance. (Each stored hash's distance plus `max_dist` must fit in a `u32`,
    /// which holds whenever `max_dist <= u32::MAX - 64`.)
    #[verifier::rlimit(50)]
    pub fn find(&self, query: u64, max_dist: u32) -> (r: Vec<(usize, u32)>)
        requires
            self.wf(),
            forall|i: int| 0 <= i < self@.len() ==> hamming(query, (#[trigger] self@[i]).0) + max_dist <= u32::MAX,
        ensures
            exists|vis: Seq<int>| find_answer(self@, query, max_dist, vis, r@),
    {
        let ghost entries = self@;
        if self.nodes.len() == 0 {
            proof {
                let vis = Seq::<int>::empty();
                assert(find_answer(entries, query, max_dist, vis, Seq::<(usize, u32)>::empty()));
            }
            return Vec::new();
        }
        let n = self.nodes.len();
        let ghost parent = self.parent@;
        let mut result: Vec<(usize, u32)> = Vec::new();
        let mut stack: Vec<usize> = Vec::new();
        stack.push(0);
        let ghost mut pending: Set<int> = set_int_range(0, n as int);
        let ghost mut vis: Seq<int> = Seq::empty();
        proof {
            lemma_int_range(0, n as int);
            assert forall|x: int| 0 <= x < n && pending.contains(x) && hamming(query, self.h(x)) <= max_dist implies
                exists|k: int| 0 <= k < stack.len() && (stack@[k] == x || anc(parent, stack@[k] as int, x)) by {
                assert(stack@[0] == 0);
                if x != 0 {
                    lemma_anc_root(parent, x);
                }
            }
        }
        while stack.len() > 0
            invariant
                self.wf(),
                parent == self.parent@,
                entries == self@,
                n == self.nodes.len(),
                n > 0,
                forall|i: int| 0 <= i < self@.len() ==> hamming(query, (#[trigger] self@[i]).0) + max_dist <= u32::MAX,
                pending.finite(),
                forall|i: int| pending.contains(i) ==> 0 <= i < n,
                forall|k: int| 0 <= k < stack.len() ==> pending.contains(#[trigger] stack@[k] as int),
                stack@.no_duplicates(),
                forall|k: int| 0 <= k < stack.len() && #[trigger] stack@[k] > 0 ==> !pending.contains(parent[stack@[k] as int]),
                forall|y: int| 0 < y < n && !pending.contains(y) ==> !pending.contains(#[trigger] parent[y]),
                vis.no_duplicates(),
                vis.len() == result.len(),
                forall|k: int| 0 <= k < vis.len() ==> 0 <= #[trigger] vis[k] < n
                    && result@[k] == (self.nodes@[vis[k]].id, hamming(query, self.h(vis[k])) as u32),
                forall|i: int| 0 <= i < n ==> (vis.contains(i) <==> (!pending.contains(i) && hamming(query, #[trigger] self.h(i)) <= max_dist)),
                forall|x: int| 0 <= x < n && pending.contains(x) && hamming(query, #[trigger] self.h(x)) <= max_dist ==>
                    exists|k: int| 0 <= k < stack.len() && (stack@[k] == x || anc(parent, stack@[k] as int, x)),
            decreases pending.len(),
        {
            let ghost stack0 = stack@;
            let ghost todo0 = pending;
            let cur = stack.pop().unwrap();
            let ghost base = stack@;
            assert(stack0 == base.push(cur));
            assert(pending.contains(cur as int)) by {
                assert(stack0[stack0.len() - 1] == cur);
            }
            proof {
                pending = pending.remove(cur as int);
            }
            let d = hamming_distance(query, self.nodes[cur].hash);
            let ghost vis0 = vis;
            if d <= max_dist {
                result.push((self.nodes[cur].id, d));
                proof {
                    vis = vis.push(cur as int);
                }
            }
            proof {
                assert forall|i: int| 0 <= i < n implies (vis.contains(i) <==> (!pending.contains(i) && hamming(query, #[trigger] self.h(i)) <= max_dist)) by {
                    if i == cur {
                        if d <= max_dist {
                            assert(vis[vis.len() - 1] == i);
                        } else {
                            assert(vis == vis0);
                        }
                    } else {
                        assert(pending.contains(i) == todo0.contains(i));
                        if vis0.contains(i) {
                            let j = choose|j: int| 0 <= j < vis0.len() && vis0[j] == i;
                            assert(vis[j] == i);
                        }
                        if vis.contains(i) {
                            let j = choose|j: int| 0 <= j < vis.len() && vis[j] == i;
                            assert(j < vis0.len());
                            assert(vis0[j] == i);
                        }
                    }
                }
                assert forall|k: int| 0 <= k < base.len() implies pending.contains(#[trigger] base[k] as int) by {
                    assert(stack0[k] == base[k]);
                    assert(base[k] != cur) by {
                        assert(stack0[stack0.len() - 1] == cur);
                    }
                }
            }
            let lo: u32 = if d > max_dist { d - max_dist } else { 0 };
            assert(self@[cur as int].0 == self.h(cur as int));
            let hi: u32 = d + max_dist;
            let len = self.nodes[cur].children.len();
            let mut k: usize = 0;
            while k < len
                invariant
                    self.wf(),
                    parent == self.parent@,
                    n == self.nodes.len(),
                    cur < n,
                    len == self.ch(cur as int).len(),
                    k <= len,
                    pending.finite(),
                    !pending.contains(cur as int),
                    forall|i: int| pending.contains(i) ==> 0 <= i < n,
                    stack@.len() >= base.len(),
                    forall|m: int| 0 <= m < base.len() ==> stack@[m] == base[m],
                    forall|m: int| 0 <= m < base.len() ==> pending.contains(#[trigger] base[m] as int),
                    forall|m: int| base.len() <= m < stack.len() ==> parent[#[trigger] stack@[m] as int] == cur
                        && 0 < stack@[m] < n && self.slot@[stack@[m] as int] < k && pending.contains(stack@[m] as int),
                    stack@.no_duplicates(),
                    forall|j: int| 0 <= j < k && lo <= (#[trigger] self.ch(cur as int)[j]).0 <= hi ==>
                        stack@.contains(self.ch(cur as int)[j].1),
                    pending == todo0.remove(cur as int),
                    todo0.contains(cur as int),
                    forall|y: int| 0 < y < n && !todo0.contains(y) ==> !todo0.contains(#[trigger] parent[y]),
                    forall|m: int| 0 <= m < base.len() && #[trigger] base[m] > 0 ==> !todo0.contains(parent[base[m] as int]),
                decreases len - k,
            {
                let (e, c) = self.nodes[cur].children[k];
                assert(self.nodes@[cur as int].children@[k as int] == (e, c));
                assert(self.ch(cur as int)[k as int] == (e, c));
                if lo <= e && e <= hi {
                    proof {
                        assert(!stack@.contains(c)) by {
                            if stack@.contains(c) {
                                let m = choose|m: int| 0 <= m < stack@.len() && stack@[m] == c;
                                if m < base.len() {
                                    assert(base[m] == c);
                                    assert(!todo0.contains(parent[base[m] as int]));
                                } else {
                                    assert(self.slot@[stack@[m] as int] < k);
                                }
                            }
                        }
                        assert(pending.contains(c as int)) by {
                            if !todo0.contains(c as int) {
                                assert(!todo0.contains(parent[c as int]));
                            }
                        }
                    }
                    let ghost sb = stack@;
                    stack.push(c);
                    proof {
                        assert forall|j: int| 0 <= j < k + 1 && lo <= (#[trigger] self.ch(cur as int)[j]).0 <= hi implies
                            stack@.contains(self.ch(cur as int)[j].1) by {
                            if j < k {
                                let w = self.ch(cur as int)[j].1;
                                assert(sb.contains(w));
                                let m = choose|m: int| 0 <= m < sb.len() && sb[m] == w;
                                assert(stack@[m] == w);
                            } else {
                                assert(stack@[stack@.len() - 1] == c);
                            }
                        }
                    }
                }
                k = k + 1;
            }
            proof {
                assert forall|k2: int| 0 <= k2 < stack.len() implies pending.contains(#[trigger] stack@[k2] as int) by {
                    if k2 < base.len() {
                        assert(stack@[k2] == base[k2]);
                    }
                }
                assert forall|k2: int| 0 <= k2 < stack.len() && #[trigger] stack@[k2] > 0 implies !pending.contains(parent[stack@[k2] as int]) by {
                    if k2 < base.len() {
                        assert(stack@[k2] == base[k2]);
                        assert(!todo0.contains(parent[base[k2] as int]));
                    }
                }
                assert forall|x: int| 0 <= x < n && pending.contains(x) && hamming(query, #[trigger] self.h(x)) <= max_dist implies
                    exists|k2: int| 0 <= k2 < stack.len() && (stack@[k2] == x || anc(parent, stack@[k2] as int, x)) by {
                    assert(todo0.contains(x));
                    let k0 = choose|k0: int| 0 <= k0 < stack0.len() && (stack0[k0] == x || anc(parent, stack0[k0] as int, x));
                    if k0 < base.len() {
                        assert(stack@[k0] == stack0[k0]);
                    } else {
                        assert(stack0[k0] == cur);
                        assert(x != cur);
                        assert(anc(parent, cur as int, x));
                        lemma_path_child(parent, cur as int, x);
                        let c = path_child(parent, cur as int, x);
                        let e = self.edge(c);
                        assert(e == hamming(self.h(cur as int), self.h(x)));
                        lemma_hamming_triangle(query, self.h(x), self.h(cur as int));
                        lemma_hamming_triangle(self.h(cur as int), query, self.h(x));
                        lemma_hamming_symmetric(query, self.h(cur as int));
                        lemma_hamming_symmetric(self.h(x), self.h(cur as int));
                        let s = self.slot@[c];
                        assert(self.ch(parent[c])[s].1 as int == c);
                        assert(self.nodes@[cur as int].children@[s] == self.ch(cur as int)[s]);
                        assert(self.ch(cur as int)[s].0 as int == e);
                        assert(stack@.contains(c as usize));
                        let m = choose|m: int| 0 <= m < stack@.len() && stack@[m] == c as usize;
                        assert(stack@[m] == c);
                    }
                }
            }
        }
        proof {
            assert forall|i: int| 0 <= i < entries.len() implies (vis.contains(i) <==> hamming(query, (#[trigger] entries[i]).0) <= max_dist) by {
                assert(entries[i].0 == self.h(i));
                if pending.contains(i) && hamming(query, self.h(i)) <= max_dist {
                    let k0 = choose|k0: int| 0 <= k0 < stack.len() && (stack@[k0] == i || anc(parent, stack@[k0] as int, i));
                }
            }
            assert forall|k: int| 0 <= k < vis.len() implies 0 <= #[trigger] vis[k] < entries.len()
                && result@[k] == (entries[vis[k]].1, hamming(query, entries[vis[k]].0) as u32) by {
                assert(entries[vis[k]] == (self.nodes@[vis[k]].hash, self.nodes@[vis[k]].id));
            }
            assert(find_answer(entries, query, max_dist, vis, result@));
        }
        result
    }

    /// The number of stored hashes.
    pub fn len(&self) -> (r: usize)
        ensures
            r == self@.len(),
    {
        self.nodes.len()
    }
}

} // verus!
