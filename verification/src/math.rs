//! Powers of two on machine words: the facts that alignment masks, block
//! sizes and order classes rest on.
use vstd::prelude::*;
use vstd::arithmetic::power2::{pow2, lemma_pow2_pos, lemma_pow2_unfold, lemma_pow2_strictly_increases, lemma_pow2_adds, lemma2_to64, lemma2_to64_rest};

verus! {

/// `n` is a power of two that fits in a machine word.
pub open spec fn is_pow2(n: int) -> bool {
    exists|k: nat| k < usize::BITS && n == pow2(k)
}

/// A power of two no larger than `usize::MAX` has an exponent below the word width.
pub proof fn lemma_pow2_fits(k: nat)
    requires
        pow2(k) <= usize::MAX,
    ensures
        k < usize::BITS,
{
    lemma2_to64();
    if k >= usize::BITS {
        if k > usize::BITS {
            lemma_pow2_strictly_increases(usize::BITS as nat, k);
        }
    }
}

/// The exponent of a power of two is below the word width.
pub proof fn lemma_pow2_exp(k: nat)
    requires
        k < usize::BITS,
    ensures
        0 < pow2(k) <= usize::MAX,
        is_pow2(pow2(k) as int),
{
    lemma_pow2_pos(k);
    vstd::bits::lemma_usize_pow2_no_overflow(k);
}

/// A power of two that fits in a word is at most `isize::MAX + 1`, and is positive.
pub proof fn lemma_pow2_le_half(n: int)
    requires
        is_pow2(n),
    ensures
        0 < n <= isize::MAX + 1,
{
    let k = choose|k: nat| k < usize::BITS && n == pow2(k);
    lemma2_to64();
    lemma2_to64_rest();
    lemma_pow2_pos(k);
    if k < usize::BITS - 1 {
        lemma_pow2_strictly_increases(k, (usize::BITS - 1) as nat);
    }
    if usize::BITS == 64 {
        assert(isize::MAX == 0x7fff_ffff_ffff_ffff);
    } else {
        assert(isize::MAX == 0x7fff_ffff);
    }
}

/// Two powers of two are equal exactly when their exponents are.
pub proof fn lemma_pow2_injective(j: nat, k: nat)
    requires
        pow2(j) == pow2(k),
    ensures
        j == k,
{
    if j < k {
        lemma_pow2_strictly_increases(j, k);
    } else if k < j {
        lemma_pow2_strictly_increases(k, j);
    }
}

/// The word size is a power of two: `usize::MAX + 1 == 2^usize::BITS`.
pub proof fn lemma_word_pow2()
    ensures
        usize::MAX + 1 == pow2(usize::BITS as nat),
{
    lemma2_to64();
}

/// A multiple of `2^i` is a multiple of every smaller power of two.
pub proof fn lemma_pow2_divides(b: int, k: nat, i: nat)
    requires
        k <= i,
        b % (pow2(i) as int) == 0,
    ensures
        b % (pow2(k) as int) == 0,
{
    lemma_pow2_pos(k);
    lemma_pow2_pos((i - k) as nat);
    lemma_pow2_adds(k, (i - k) as nat);
    assert(k + ((i - k) as nat) == i);
    assert(pow2(i) == pow2(k) * pow2((i - k) as nat));
    vstd::arithmetic::div_mod::lemma_mod_mod(b, pow2(k) as int, pow2((i - k) as nat) as int);
}

/// Adding `2^k` to a multiple of `2^k` gives a multiple of `2^k`.
pub proof fn lemma_aligned_add(b: int, k: nat)
    requires
        b % (pow2(k) as int) == 0,
    ensures
        (b + pow2(k)) % (pow2(k) as int) == 0,
{
    lemma_pow2_pos(k);
    vstd::arithmetic::div_mod::lemma_mod_add_multiples_vanish(b, pow2(k) as int);
}

/// A word-sized multiple of `p` leaves room for `p` more bytes below `m * p`.
pub proof fn lemma_room_below(b: int, p: int, m: int)
    requires
        p > 0,
        m > 0,
        b >= 0,
        b % p == 0,
        b < m * p,
    ensures
        b + p <= m * p,
{
    vstd::arithmetic::div_mod::lemma_fundamental_div_mod(b, p);
    let q = b / p;
    assert(b == p * q);
    assert(q < m) by (nonlinear_arith)
        requires b == p * q, b < m * p, p > 0;
    assert(p * q + p <= m * p) by (nonlinear_arith)
        requires q < m, p > 0;
}

/// A word that is a multiple of `2^k` has room for `2^k` more bytes in the
/// address space.
pub proof fn lemma_aligned_room(b: usize, k: nat)
    requires
        k < usize::BITS,
        (b as int) % (pow2(k) as int) == 0,
    ensures
        b + pow2(k) <= usize::MAX + 1,
{
    lemma_word_pow2();
    lemma_pow2_pos(k);
    lemma_pow2_pos((usize::BITS - k) as nat);
    lemma_pow2_adds(k, (usize::BITS - k) as nat);
    lemma_room_below(b as int, pow2(k) as int, pow2((usize::BITS - k) as nat) as int);
}

/// Bit-level facts about a power of two `a`: masking with `a - 1` keeps the
/// remainder and masking with its complement rounds down.
pub proof fn lemma_pow2_mask(x: usize, a: usize)
    requires
        is_pow2(a as int),
    ensures
        x & ((a - 1) as usize) == x % a,
        x & !((a - 1) as usize) == x - x % a,
        a > 0,
{
    let k = choose|k: nat| k < usize::BITS && a == pow2(k);
    lemma_pow2_pos(k);
    vstd::bits::lemma_usize_low_bits_mask_is_mod(x, k);
    let m = (a - 1) as usize;
    assert(x & !m == x - (x & m)) by (bit_vector);
}

/// The same mask facts for 64-bit values.
pub proof fn lemma_pow2_mask_u64(x: u64, a: u64)
    requires
        is_pow2(a as int),
    ensures
        x & ((a - 1) as u64) == x % a,
        a > 0,
{
    let k = choose|k: nat| k < usize::BITS && a == pow2(k);
    lemma_pow2_pos(k);
    vstd::bits::lemma_u64_low_bits_mask_is_mod(x, k);
}

/// A nonzero word with a single set bit is a power of two.
pub proof fn lemma_single_bit_is_pow2(x: usize)
    requires
        x != 0,
        x & ((x - 1) as usize) == 0,
    ensures
        is_pow2(x as int),
    decreases x,
{
    if x == 1 {
        lemma2_to64();
        assert(x == pow2(0));
    } else {
        let y = x >> 1;
        assert(y != 0 && y & ((y - 1) as usize) == 0 && x == y + y) by (bit_vector)
            requires
                x != 0,
                x != 1,
                x & ((x - 1) as usize) == 0,
                y == x >> 1,
        ;
        lemma_single_bit_is_pow2(y);
        let k = choose|k: nat| k < usize::BITS && y == pow2(k);
        lemma_pow2_unfold(k + 1);
        assert(x == pow2(k + 1));
        lemma_pow2_fits(k + 1);
    }
}

/// The largest exponent `k` with `2^k <= n`.
pub fn floor_log2(n: usize) -> (k: u32)
    requires
        n > 0,
    ensures
        k < usize::BITS,
        pow2(k as nat) <= n < 2 * pow2(k as nat),
{
    let mut p: usize = 1;
    let mut k: u32 = 0;
    proof {
        lemma2_to64();
    }
    while p <= n / 2
        invariant
            p == pow2(k as nat),
            p <= n,
            k < usize::BITS,
        decreases n - p,
    {
        proof {
            lemma_pow2_unfold(k as nat + 1);
            lemma_pow2_pos(k as nat);
        }
        p = p * 2;
        proof {
            lemma_pow2_fits(k as nat + 1);
        }
        k = k + 1;
    }
    k
}

/// The exponent of a power of two.
pub fn log2_exact(n: usize) -> (k: u32)
    requires
        is_pow2(n as int),
    ensures
        k < usize::BITS,
        n == pow2(k as nat),
{
    proof {
        let j = choose|j: nat| j < usize::BITS && n == pow2(j);
        lemma_pow2_pos(j);
    }
    let k = floor_log2(n);
    proof {
        let j = choose|j: nat| j < usize::BITS && n == pow2(j);
        if j < k {
            lemma_pow2_strictly_increases(j, k as nat);
        } else if j > k {
            lemma_pow2_unfold(k as nat + 1);
            if j > k + 1 {
                lemma_pow2_strictly_increases(k as nat + 1, j);
            }
        }
    }
    k
}

/// The smallest power of two that is at least `n`.
pub open spec fn next_pow2(n: int) -> int {
    pow2(choose|k: nat| #[trigger] pow2(k) >= n && (k == 0 || pow2((k - 1) as nat) < n)) as int
}

/// `2^k` is the smallest power of two that is at least `n` when `2^(k-1)` is below `n`.
pub proof fn lemma_next_pow2_is(n: int, k: nat)
    requires
        pow2(k) >= n,
        k == 0 || pow2((k - 1) as nat) < n,
    ensures
        next_pow2(n) == pow2(k),
{
    let j = choose|j: nat| #[trigger] pow2(j) >= n && (j == 0 || pow2((j - 1) as nat) < n);
    assert(pow2(j) >= n && (j == 0 || pow2((j - 1) as nat) < n));
    if j < k {
        if j < (k - 1) as nat {
            lemma_pow2_strictly_increases(j, (k - 1) as nat);
        }
    } else if k < j {
        if k < (j - 1) as nat {
            lemma_pow2_strictly_increases(k, (j - 1) as nat);
        }
    }
}

/// The largest power of two that is not above `n`.
pub open spec fn prev_pow2(n: int) -> int {
    pow2(choose|k: nat| #[trigger] pow2(k) <= n && n < 2 * pow2(k)) as int
}

/// `2^k` is the largest power of two not above `n` when `n < 2^(k+1)`.
pub proof fn lemma_prev_pow2_is(n: int, k: nat)
    requires
        pow2(k) <= n < 2 * pow2(k),
    ensures
        prev_pow2(n) == pow2(k),
{
    let j = choose|j: nat| #[trigger] pow2(j) <= n && n < 2 * pow2(j);
    assert(pow2(j) <= n && n < 2 * pow2(j));
    lemma_pow2_unfold(j + 1);
    lemma_pow2_unfold(k + 1);
    if j < k {
        if j + 1 < k {
            lemma_pow2_strictly_increases(j + 1, k);
        }
    } else if k < j {
        if k + 1 < j {
            lemma_pow2_strictly_increases(k + 1, j);
        }
    }
}

/// The lowest set bit of `x`, as a value.
pub open spec fn lowbit(x: usize) -> usize {
    x & (((!x) + 1) as usize)
}

/// The lowest set bit of a nonzero word is a power of two that divides it,
/// and it is at least eight when the word is a multiple of eight.
pub proof fn lemma_lowbit(x: usize)
    requires
        x > 0,
    ensures
        is_pow2(lowbit(x) as int),
        (x as int) % (lowbit(x) as int) == 0,
        lowbit(x) > 0,
        (x as int) % 8 == 0 ==> lowbit(x) >= 8,
{
    let l = lowbit(x);
    assert(l != 0 && l & ((l - 1) as usize) == 0 && x & ((l - 1) as usize) == 0
        && (x & 7 == 0 ==> l & 7 == 0)) by (bit_vector)
        requires
            x > 0,
            l == x & (((!x) + 1) as usize),
    ;
    lemma_single_bit_is_pow2(l);
    lemma_pow2_mask(x, l);
    lemma2_to64();
    assert(is_pow2(8)) by {
        assert(8 == pow2(3));
    }
    lemma_pow2_mask(x, 8);
    lemma_pow2_mask(l, 8);
    if (x as int) % 8 == 0 {
        assert(x & 7 == 0);
        assert(l & 7 == 0);
        assert(l % 8 == 0);
    }
}

/// `2^k` as a word.
pub fn pow2_usize(k: u32) -> (r: usize)
    requires
        k < usize::BITS,
    ensures
        r == pow2(k as nat),
{
    proof {
        lemma_pow2_exp(k as nat);
        vstd::bits::lemma_usize_shl_is_mul(1, k as usize);
    }
    1usize << (k as usize)
}

/// The smallest power of two that is at least `n` (one for zero).
pub fn next_power_of_two(n: usize) -> (r: usize)
    requires
        n <= usize::MAX / 2 + 1,
    ensures
        is_pow2(r as int),
        r == next_pow2(n as int),
        n <= r,
        r == 1 || r / 2 < n,
{
    let mut p: usize = 1;
    let ghost mut k: nat = 0;
    proof {
        lemma2_to64();
    }
    while p < n
        invariant
            p == pow2(k),
            k < usize::BITS,
            p == 1 || p / 2 < n,
            n <= usize::MAX / 2 + 1,
        decreases usize::BITS - k,
    {
        proof {
            lemma_pow2_unfold(k + 1);
        }
        p = p * 2;
        proof {
            k = k + 1;
            lemma_pow2_fits(k);
        }
    }
    proof {
        lemma_pow2_exp(k);
        if k > 0 {
            lemma_pow2_unfold(k);
        }
        lemma_next_pow2_is(n as int, k);
    }
    p
}

} // verus!
