//! Single-bit access into a 64-bit word, and the facts about it that the
//! bit-packed grids rely on.

use vstd::prelude::*;

verus! {

/// Whether bit `i` of `word` is set. Bits at position 64 and above are unset.
pub open spec fn bit_at(word: u64, i: int) -> bool {
    0 <= i < 64 && (word >> (i as u64)) & 1 == 1
}

/// `word` with bit `i` replaced by `value`.
pub open spec fn with_bit(word: u64, i: int, value: bool) -> u64 {
    let v: u64 = if value { 1 } else { 0 };
    (word & !(1u64 << (i as u64))) | (v << (i as u64))
}

/// Reads bit `i` of `word`.
pub fn get_bit(word: u64, i: u32) -> (r: bool)
    requires
        i < 64,
    ensures
        r == bit_at(word, i as int),
{
    (word >> (i as u64)) & 1 == 1
}

/// Returns `word` with bit `i` replaced by `value`; every other bit is kept.
pub fn set_bit(word: u64, i: u32, value: bool) -> (r: u64)
    requires
        i < 64,
    ensures
        r == with_bit(word, i as int, value),
        forall|j: int| bit_at(r, j) == (if j == i { value } else { bit_at(word, j) }),
{
    let v: u64 = if value { 1 } else { 0 };
    let r = (word & !(1u64 << (i as u64))) | (v << (i as u64));
    proof {
        assert forall|j: int| bit_at(r, j) == (if j == i { value } else { bit_at(word, j) }) by {
            lemma_with_bit(word, i as int, value, j);
        }
    }
    r
}

/// Changing bit `i` changes that bit and no other.
pub proof fn lemma_with_bit(word: u64, i: int, value: bool, j: int)
    requires
        0 <= i < 64,
    ensures
        bit_at(with_bit(word, i, value), j) == (if j == i { value } else { bit_at(word, j) }),
{
    if 0 <= j < 64 {
        let iu = i as u64;
        let ju = j as u64;
        let v: u64 = if value { 1 } else { 0 };
        assert(iu < 64 && ju < 64 && v <= 1 ==> ((((word & !(1u64 << iu)) | (v << iu)) >> ju) & 1 == 1)
            == (if ju == iu { v == 1 } else { (word >> ju) & 1 == 1 })) by (bit_vector);
    }
}

/// No bit of zero is set.
pub proof fn lemma_zero_bits(j: int)
    ensures
        !bit_at(0, j),
{
    if 0 <= j < 64 {
        let ju = j as u64;
        assert(ju < 64 ==> (0u64 >> ju) & 1 == 0) by (bit_vector);
    }
}

/// Every bit of the all-ones word is set.
pub proof fn lemma_max_bits(j: int)
    requires
        0 <= j < 64,
    ensures
        bit_at(u64::MAX, j),
{
    let ju = j as u64;
    assert(ju < 64 ==> (0xffff_ffff_ffff_ffffu64 >> ju) & 1 == 1) by (bit_vector);
}

/// Two words with the same bits are the same word.
pub proof fn lemma_bits_determine_word(a: u64, b: u64)
    requires
        forall|j: int| 0 <= j < 64 ==> bit_at(a, j) == bit_at(b, j),
    ensures
        a == b,
{
    lemma_low_bits_agree(a, b, 64);
    assert((a & !(0xffff_ffff_ffff_ffffu64 << 63)) == (b & !(0xffff_ffff_ffff_ffffu64 << 63)) && ((a >> 63) & 1 == 1) == ((b >> 63) & 1 == 1)
        ==> a == b) by (bit_vector);
    assert(bit_at(a, 63) == bit_at(b, 63));
}

/// The bits of `word` below position `k`, for `k` up to 63.
pub open spec fn low_bits(word: u64, k: int) -> u64 {
    word & !(0xffff_ffff_ffff_ffffu64 << (k as u64))
}

proof fn lemma_low_bits_agree(a: u64, b: u64, k: int)
    requires
        0 <= k <= 64,
        forall|j: int| 0 <= j < 64 ==> bit_at(a, j) == bit_at(b, j),
    ensures
        k <= 63 ==> low_bits(a, k) == low_bits(b, k),
        k == 64 ==> low_bits(a, 63) == low_bits(b, 63),
    decreases k,
{
    if k == 0 {
        assert(a & !(0xffff_ffff_ffff_ffffu64 << 0) == 0) by (bit_vector);
        assert(b & !(0xffff_ffff_ffff_ffffu64 << 0) == 0) by (bit_vector);
    } else if k == 64 {
        lemma_low_bits_agree(a, b, 63);
    } else {
        lemma_low_bits_agree(a, b, k - 1);
        let p = (k - 1) as u64;
        let q = k as u64;
        assert(bit_at(a, k - 1) == bit_at(b, k - 1));
        assert(p < 63 && q == p + 1 && (a & !(0xffff_ffff_ffff_ffffu64 << p)) == (b & !(0xffff_ffff_ffff_ffffu64 << p)) && ((a >> p) & 1 == 1) == ((b
            >> p) & 1 == 1) ==> (a & !(0xffff_ffff_ffff_ffffu64 << q)) == (b & !(0xffff_ffff_ffff_ffffu64 << q))) by (bit_vector);
    }
}

} // verus!
