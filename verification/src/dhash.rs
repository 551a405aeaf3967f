//! Perceptual hashing: the difference hash of a picture, and the distance between two hashes.

use vstd::arithmetic::power2::{
    lemma2_to64, lemma2_to64_rest, lemma_pow2_pos, lemma_pow2_strictly_increases,
    lemma_pow2_unfold, pow2,
};
use vstd::prelude::*;

verus! {

/// Width of the picture that a difference hash is taken of.
pub const HASH_WIDTH: u32 = 9;

/// Height of the picture that a difference hash is taken of.
pub const HASH_HEIGHT: u32 = 8;

/// The grey levels, row by row, of the picture that `bytes` encode, shrunk or stretched to `width`
/// by `height` pixels by nearest-neighbour sampling; nothing where they encode no picture.
pub uninterp spec fn resized_luma(bytes: Seq<u8>, width: u32, height: u32) -> Option<Seq<u8>>;

/// `load_from_memory` of the crate `image`, then `resize_exact` with the filter `Nearest` and
/// `to_luma8` on the picture that it decoded. What comes out is a function of the bytes and the
/// two dimensions, and it holds one grey level for each pixel. Which bytes decode, and to which
/// levels, is left to the crate. The bounds on the dimensions keep the resized picture small
/// enough to be held.
#[verifier::external_body]
fn load_resized_luma(bytes: &[u8], width: u32, height: u32) -> (r: Option<Vec<u8>>)
    requires
        0 < width <= 1024,
        0 < height <= 1024,
    ensures
        match r {
            Some(levels) => resized_luma(bytes@, width, height) == Some(levels@),
            None => resized_luma(bytes@, width, height) is None,
        },
        r matches Some(levels) ==> levels@.len() == width * height,
{
    match image::load_from_memory(bytes) {
        Ok(picture) => {
            let small = picture.resize_exact(width, height, image::imageops::FilterType::Nearest);
            Some(small.to_luma8().into_raw())
        },
        Err(_) => None,
    }
}

/// Whether, in position `k` of the 64 neighbouring pairs read row by row, the left pixel is
/// brighter than the right one.
pub open spec fn darkens(levels: Seq<u8>, k: int) -> bool {
    levels[(k / 8) * 9 + k % 8] > levels[(k / 8) * 9 + k % 8 + 1]
}

/// The first `n` pairs as a binary number, the first pair in the highest place.
pub open spec fn pairs_value(levels: Seq<u8>, n: nat) -> nat
    decreases n,
{
    if n == 0 {
        0
    } else {
        2 * pairs_value(levels, (n - 1) as nat) + if darkens(levels, n - 1) {
            1nat
        } else {
            0nat
        }
    }
}

/// The difference hash of a picture of nine by eight grey levels.
pub open spec fn dhash(levels: Seq<u8>) -> u64 {
    pairs_value(levels, 64) as u64
}

proof fn lemma_pairs_bound(levels: Seq<u8>, n: nat)
    ensures
        pairs_value(levels, n) < pow2(n),
    decreases n,
{
    lemma2_to64();
    if n > 0 {
        lemma_pairs_bound(levels, (n - 1) as nat);
        lemma_pow2_unfold(n);
    }
}

proof fn lemma_pairs_below_half(levels: Seq<u8>, n: nat)
    requires
        n < 64,
    ensures
        pairs_value(levels, n) < 0x8000_0000_0000_0000,
{
    lemma_pairs_bound(levels, n);
    lemma2_to64();
    lemma2_to64_rest();
    if n < 63 {
        lemma_pow2_strictly_increases(n, 63);
    }
}

/// The difference hash of a picture of nine by eight grey levels, given row by row.
pub fn dhash_of_luma(levels: &[u8]) -> (hash: u64)
    requires
        levels@.len() == HASH_WIDTH * HASH_HEIGHT,
    ensures
        hash == dhash(levels@),
{
    let mut hash: u64 = 0;
    let mut y: usize = 0;
    while y < 8
        invariant
            levels@.len() == 72,
            y <= 8,
            hash == pairs_value(levels@, (8 * y) as nat),
        decreases 8 - y,
    {
        let mut x: usize = 0;
        while x < 8
            invariant
                levels@.len() == 72,
                y < 8,
                x <= 8,
                hash == pairs_value(levels@, (8 * y + x) as nat),
            decreases 8 - x,
        {
            let left = levels[y * 9 + x];
            let right = levels[y * 9 + x + 1];
            let ghost before = hash;
            proof {
                lemma_pairs_below_half(levels@, (8 * y + x) as nat);
                assert((8 * y + x) / 8 == y && (8 * y + x) % 8 == x);
                assert(before < 0x8000_0000_0000_0000 ==> (before << 1) == 2 * before && ((before
                    << 1) | 1) == 2 * before + 1) by (bit_vector);
            }
            hash = hash << 1;
            if left > right {
                hash = hash | 1;
            }
            x += 1;
        }
        y += 1;
    }
    hash
}

/// The difference hash of the picture that `bytes` encode; nothing where they encode no picture.
pub fn compute_dhash_from_bytes(bytes: &[u8]) -> (r: Option<u64>)
    ensures
        r == match resized_luma(bytes@, HASH_WIDTH, HASH_HEIGHT) {
            Some(levels) => Some(dhash(levels)),
            None => None,
        },
{
    match load_resized_luma(bytes, HASH_WIDTH, HASH_HEIGHT) {
        Some(levels) => Some(dhash_of_luma(levels.as_slice())),
        None => None,
    }
}

proof fn lemma_pairs_bit(levels: Seq<u8>, n: nat, k: int)
    requires
        0 <= k < n,
    ensures
        (pairs_value(levels, n) / pow2((n - 1 - k) as nat)) % 2 == if darkens(levels, k) {
            1nat
        } else {
            0nat
        },
    decreases n,
{
    lemma2_to64();
    if k < n - 1 {
        let v = pairs_value(levels, (n - 1) as nat);
        let b: nat = if darkens(levels, n - 1) {
            1
        } else {
            0
        };
        let p = pow2((n - 2 - k) as nat);
        lemma_pairs_bit(levels, (n - 1) as nat, k);
        lemma_pow2_unfold((n - 1 - k) as nat);
        lemma_pow2_pos((n - 2 - k) as nat);
        assert((2 * v + b) / (2 * p) == v / p) by {
            vstd::arithmetic::div_mod::lemma_div_denominator((2 * v + b) as int, 2, p as int);
            assert((2 * v + b) / 2 == v);
        }
    } else {
        assert(pairs_value(levels, n) / 1 == pairs_value(levels, n));
    }
}

/// Every bit of a difference hash answers for one pair of neighbours in a picture of nine by eight
/// grey levels: the bit is set just where the left pixel is brighter than the right one. Bit 63
/// answers for the first pair of the first row, bit 0 for the last pair of the last row.
pub proof fn law_dhash_bit_is_one_comparison(levels: Seq<u8>, x: int, y: int)
    requires
        0 <= x < 8,
        0 <= y < 8,
    ensures
        (dhash(levels) / pow2((63 - (8 * y + x)) as nat) as u64) % 2 == 1 <==> levels[9 * y + x]
            > levels[9 * y + x + 1],
{
    let k = 8 * y + x;
    assert(k / 8 == y && k % 8 == x);
    lemma_dhash_bit(levels, k);
}

proof fn lemma_dhash_bit(levels: Seq<u8>, k: int)
    requires
        0 <= k < 64,
    ensures
        (dhash(levels) / pow2((63 - k) as nat) as u64) % 2 == 1 <==> darkens(levels, k),
{
    lemma_pairs_bound(levels, 64);
    lemma2_to64();
    lemma2_to64_rest();
    lemma_pairs_bit(levels, 64, k);
    lemma_pow2_pos((63 - k) as nat);
    if k > 0 {
        lemma_pow2_strictly_increases((63 - k) as nat, 63);
    }
}

/// Two pictures that get darker and brighter in the same places have the same hash, whatever
/// their grey levels are.
pub proof fn law_dhash_depends_on_comparisons_only(a: Seq<u8>, b: Seq<u8>)
    requires
        forall|p: int|
            0 <= p < 71 && p % 9 != 8 ==> ((#[trigger] a[p]) > a[p + 1] <==> b[p] > b[p + 1]),
    ensures
        dhash(a) == dhash(b),
{
    assert forall|k: int| 0 <= k < 64 implies #[trigger] darkens(a, k) == darkens(b, k) by {
        let p = (k / 8) * 9 + k % 8;
        assert(p % 9 == k % 8);
        assert(a[p] > a[p + 1] <==> b[p] > b[p + 1]);
    }
    lemma_same_pairs(a, b, 64);
}

proof fn lemma_same_pairs(a: Seq<u8>, b: Seq<u8>, n: nat)
    requires
        n <= 64,
        forall|k: int| 0 <= k < 64 ==> #[trigger] darkens(a, k) == darkens(b, k),
    ensures
        pairs_value(a, n) == pairs_value(b, n),
    decreases n,
{
    if n > 0 {
        lemma_same_pairs(a, b, (n - 1) as nat);
        assert(darkens(a, n - 1) == darkens(b, n - 1));
    }
}

/// The number of ones in the binary form of a number.
pub open spec fn ones(x: u64) -> nat
    decreases x,
{
    if x == 0 {
        0
    } else {
        (x % 2) as nat + ones(x / 2)
    }
}

/// `u64::count_ones` of std: the number of ones in the binary form.
pub assume_specification[ u64::count_ones ](x: u64) -> (r: u32)
    ensures
        r == ones(x),
;

/// The number of binary places in which two numbers differ.
pub open spec fn hamming(a: u64, b: u64) -> nat
    decreases a, b,
{
    if a == 0 && b == 0 {
        0
    } else {
        (if a % 2 != b % 2 {
            1nat
        } else {
            0nat
        }) + hamming(a / 2, b / 2)
    }
}

proof fn lemma_ones_of_xor(a: u64, b: u64)
    ensures
        ones(a ^ b) == hamming(a, b),
    decreases a, b,
{
    assert((a ^ b) / 2 == (a / 2) ^ (b / 2)) by (bit_vector);
    assert((a ^ b) % 2 == if a % 2 != b % 2 {
        1u64
    } else {
        0u64
    }) by (bit_vector);
    assert(0u64 ^ 0u64 == 0) by (bit_vector);
    if a != 0 || b != 0 {
        lemma_ones_of_xor(a / 2, b / 2);
        if a ^ b == 0 {
            assert((a ^ b) / 2 == 0);
            assert(ones((a / 2) ^ (b / 2)) == 0);
        }
    }
}

/// The number of bits in which two hashes differ.
pub fn hamming_distance(a: u64, b: u64) -> (d: u32)
    ensures
        d == hamming(a, b),
{
    proof {
        lemma_ones_of_xor(a, b);
    }
    (a ^ b).count_ones()
}

/// The distance is the same in both directions.
pub proof fn law_hamming_symmetric(a: u64, b: u64)
    ensures
        hamming(a, b) == hamming(b, a),
    decreases a, b,
{
    if a != 0 || b != 0 {
        law_hamming_symmetric(a / 2, b / 2);
    }
}

/// Only equal hashes are at distance zero.
pub proof fn law_hamming_zero_iff_equal(a: u64, b: u64)
    ensures
        hamming(a, b) == 0 <==> a == b,
    decreases a, b,
{
    if a != 0 || b != 0 {
        law_hamming_zero_iff_equal(a / 2, b / 2);
    }
}

/// A detour over a third hash is never shorter.
pub proof fn law_hamming_triangle(a: u64, b: u64, c: u64)
    ensures
        hamming(a, c) <= hamming(a, b) + hamming(b, c),
    decreases a, b, c,
{
    if a != 0 || b != 0 || c != 0 {
        law_hamming_triangle(a / 2, b / 2, c / 2);
        lemma_hamming_step(a, b);
        lemma_hamming_step(b, c);
        lemma_hamming_step(a, c);
    }
}

proof fn lemma_hamming_step(a: u64, b: u64)
    ensures
        hamming(a, b) == (if a % 2 != b % 2 {
            1nat
        } else {
            0nat
        }) + hamming(a / 2, b / 2),
{
}

proof fn lemma_hamming_bound(a: u64, b: u64, n: nat)
    requires
        a < pow2(n),
        b < pow2(n),
    ensures
        hamming(a, b) <= n,
    decreases n,
{
    lemma2_to64();
    if a != 0 || b != 0 {
        lemma_pow2_unfold(n);
        lemma_hamming_bound(a / 2, b / 2, (n - 1) as nat);
    }
}

/// Two hashes differ in at most 64 bits, so a threshold of 64 or more takes every pair of pictures
/// for similar.
pub proof fn law_hamming_at_most_64(a: u64, b: u64)
    ensures
        hamming(a, b) <= 64,
{
    lemma2_to64();
    lemma2_to64_rest();
    lemma_pow2_unfold(64);
    lemma_hamming_bound(a, b, 64);
}

/// The distance counts bits one by one: flipping one bit of a hash takes it one further from a hash
/// that has the same bit there, and one nearer to a hash that has the other. Since equal hashes are
/// at distance zero, the distance is the number of bits in which two hashes differ.
pub proof fn law_hamming_counts_every_bit(a: u64, b: u64, k: u64)
    requires
        k < 64,
    ensures
        (a >> k) & 1 == (b >> k) & 1 ==> hamming(a ^ (1u64 << k), b) == hamming(a, b) + 1,
        (a >> k) & 1 != (b >> k) & 1 ==> hamming(a ^ (1u64 << k), b) == hamming(a, b) - 1,
    decreases k,
{
    lemma_hamming_step(a, b);
    lemma_hamming_step(a ^ (1u64 << k), b);
    if k == 0 {
        assert((a ^ (1u64 << 0)) / 2 == a / 2) by (bit_vector);
        assert((a ^ (1u64 << 0)) % 2 != a % 2) by (bit_vector);
        assert((a >> 0) & 1 == a % 2) by (bit_vector);
        assert((b >> 0) & 1 == b % 2) by (bit_vector);
        assert(a % 2 < 2 && b % 2 < 2 && (a ^ (1u64 << 0)) % 2 < 2);
    } else {
        let j: u64 = (k - 1) as u64;
        assert((a ^ (1u64 << k)) / 2 == (a / 2) ^ (1u64 << j)) by (bit_vector)
            requires
                0 < k < 64,
                j == k - 1,
        ;
        assert((a ^ (1u64 << k)) % 2 == a % 2) by (bit_vector)
            requires
                0 < k < 64,
        ;
        assert((a >> k) & 1 == ((a / 2) >> j) & 1 && (b >> k) & 1 == ((b / 2) >> j) & 1) by (bit_vector)
            requires
                0 < k < 64,
                j == k - 1,
        ;
        law_hamming_counts_every_bit(a / 2, b / 2, j);
    }
}

} // verus!
