use vstd::prelude::*;

verus! {

/// Whether bit `i` of the word `x` is set. Positions outside the word hold no bit.
pub open spec fn bit(x: u64, i: int) -> bool {
    0 <= i < 64 && (x >> (i as u64)) & 1 == 1
}

/// The word whose lowest `n` bits are set and no others.
pub open spec fn low_mask(n: int) -> u64 {
    if n >= 64 {
        0xffff_ffff_ffff_ffffu64
    } else if n <= 0 {
        0u64
    } else {
        (((1u64 << (n as u64)) - 1) as u64)
    }
}

/// The word `x` with bit `i` forced to `value`.
pub open spec fn with_bit(x: u64, i: int, value: bool) -> u64 {
    let b: u64 = if value { 1 } else { 0 };
    (x & !(1u64 << (i as u64))) | (b << (i as u64))
}

/// The empty word has no bit set.
pub proof fn lemma_bit_zero(i: int)
    ensures
        !bit(0, i),
{
    if 0 <= i < 64 {
        let s = i as u64;
        assert((0u64 >> s) & 1 == 0) by (bit_vector);
    }
}

/// Forcing one bit changes that bit and no other.
pub proof fn lemma_with_bit(x: u64, i: int, value: bool, j: int)
    requires
        0 <= i < 64,
    ensures
        bit(with_bit(x, i, value), j) == (if j == i { value } else { bit(x, j) }),
{
    if 0 <= j < 64 {
        let s = i as u64;
        let t = j as u64;
        let b: u64 = if value { 1 } else { 0 };
        assert((((x & !(1u64 << s)) | (b << s)) >> t) & 1 == (if t == s { b } else { (x >> t) & 1 })) by (bit_vector)
            requires
                s < 64,
                t < 64,
                b <= 1,
        ;
    }
}

/// The low mask of width `n` holds exactly the positions below `n`.
pub proof fn lemma_low_mask(n: int, j: int)
    requires
        0 <= n <= 64,
    ensures
        bit(low_mask(n), j) == (0 <= j < n),
{
    if 0 <= j < 64 {
        let t = j as u64;
        if n == 64 {
            assert((0xffff_ffff_ffff_ffffu64 >> t) & 1 == 1) by (bit_vector)
                requires
                    t < 64,
            ;
        } else if n == 0 {
            assert((0u64 >> t) & 1 == 0) by (bit_vector);
        } else {
            let m = n as u64;
            assert(((((1u64 << m) - 1) as u64) >> t) & 1 == (if t < m { 1u64 } else { 0u64 })) by (bit_vector)
                requires
                    0 < m < 64,
                    t < 64,
            ;
        }
    }
}

/// Two words that agree on their lowest `n` bits agree below the mask of width `n`.
proof fn lemma_same_low_bits(x: u64, y: u64, n: int)
    requires
        0 <= n <= 64,
        forall|j: int| 0 <= j < n ==> bit(x, j) == bit(y, j),
    ensures
        x & low_mask(n) == y & low_mask(n),
    decreases n,
{
    if n == 0 {
        assert(x & 0 == y & 0) by (bit_vector);
    } else {
        lemma_same_low_bits(x, y, n - 1);
        let m = (n - 1) as u64;
        let lower = low_mask(n - 1);
        let upper = low_mask(n);
        assert(bit(x, n - 1) == bit(y, n - 1));
        let bx = (x >> m) & 1;
        let by = (y >> m) & 1;
        assert(bx == 0 || bx == 1) by (bit_vector)
            requires
                bx == (x >> m) & 1,
        ;
        assert(by == 0 || by == 1) by (bit_vector)
            requires
                by == (y >> m) & 1,
        ;
        assert(bx == by);
        assert(upper == lower | (1u64 << m)) by (bit_vector)
            requires
                m < 64,
                lower == (if m == 0 { 0u64 } else { (((1u64 << m) - 1) as u64) }),
                upper == (if m == 63 { 0xffff_ffff_ffff_ffffu64 } else { (((1u64 << ((m + 1) as u64)) - 1) as u64) }),
        ;
        assert(x & (lower | (1u64 << m)) == (x & lower) | (((x >> m) & 1) << m)) by (bit_vector)
            requires
                m < 64,
        ;
        assert(y & (lower | (1u64 << m)) == (y & lower) | (((y >> m) & 1) << m)) by (bit_vector)
            requires
                m < 64,
        ;
    }
}

/// Two words with the same bits are the same word.
pub proof fn lemma_same_bits(x: u64, y: u64)
    requires
        forall|j: int| 0 <= j < 64 ==> bit(x, j) == bit(y, j),
    ensures
        x == y,
{
    lemma_same_low_bits(x, y, 64);
    assert(x & 0xffff_ffff_ffff_ffffu64 == x) by (bit_vector);
    assert(y & 0xffff_ffff_ffff_ffffu64 == y) by (bit_vector);
}

} // verus!
