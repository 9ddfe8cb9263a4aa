//! A binary buddy allocator over address ranges.
//!
//! Free memory is kept as blocks whose sizes are powers of two; the list of
//! class `i` holds the blocks of `2^i` bytes, each aligned to its size.
//! Allocation splits a larger block down to the requested class; freeing
//! merges a block with its buddy for as long as the buddy is free.
use vstd::prelude::*;
use vstd::arithmetic::power2::{pow2, lemma_pow2_pos, lemma_pow2_unfold};
use crate::math::{prev_pow2, lowbit, lemma_lowbit, is_pow2, floor_log2, log2_exact, pow2_usize, next_power_of_two, next_pow2, lemma_pow2_exp, lemma_pow2_divides, lemma_aligned_add, lemma_aligned_room};
use crate::linked_list::LinkedList;
use crate::layout::Layout;
use crate::buddy_free::{free_addrs, span, lemma_free_addrs_split, lemma_free_addrs_push, lemma_free_addrs_merge};

verus! {

/// The largest power of two that is not above `n`.
pub fn prev_power_of_two(n: usize) -> (r: usize)
    requires
        n > 0,
    ensures
        r == prev_pow2(n as int),
        is_pow2(r as int),
        r <= n < 2 * r,
{
    let k = floor_log2(n);
    proof {
        lemma_pow2_exp(k as nat);
        crate::math::lemma_prev_pow2_is(n as int, k as nat);
    }
    pow2_usize(k)
}

/// The bytes held by the free lists of the classes below `n`.
pub open spec fn free_bytes_below(lists: Seq<Seq<usize>>, n: int) -> int
    decreases n,
{
    if n <= 0 {
        0
    } else {
        free_bytes_below(lists, n - 1) + lists[n - 1].len() * pow2((n - 1) as nat)
    }
}

/// The bytes held by all the free lists.
pub open spec fn free_bytes(lists: Seq<Seq<usize>>) -> int {
    free_bytes_below(lists, lists.len() as int)
}

/// Every block of class `i` is aligned to `2^i`.
pub open spec fn blocks_aligned(lists: Seq<Seq<usize>>) -> bool {
    forall|i: int, j: int|
        0 <= i < lists.len() && 0 <= j < lists[i].len() ==> (#[trigger] lists[i][j] as int) % (pow2(
            i as nat,
        ) as int) == 0
}

/// The block size used for a request of `size` bytes aligned to `align`: the
/// smallest power of two covering the size, but at least the alignment and a
/// machine word.
pub open spec fn block_size(size: int, align: int) -> int {
    let s = next_pow2(size);
    let a = if align > 8 { align } else { 8 };
    if s > a { s } else { a }
}

/// Some power of two from `2^k` up to `2^top` is the smallest one that is
/// at least `n`, when `2^(k-1)` is below `n` and `2^top` is not.
proof fn lemma_next_pow2_exists(n: int, k: nat, top: nat)
    requires
        0 <= n <= pow2(top),
        k <= top,
        k == 0 || pow2((k - 1) as nat) < n,
    ensures
        exists|j: nat| j <= top && #[trigger] pow2(j) >= n && (j == 0 || pow2((j - 1) as nat) < n),
    decreases top - k,
{
    if pow2(k) >= n {
        assert(pow2(k) >= n);
    } else {
        assert(((k + 1) - 1) as nat == k);
        lemma_next_pow2_exists(n, k + 1, top);
    }
}

/// The smallest power of two that is at least `n`, for `n` up to
/// `isize::MAX + 1`: a power of two of the word, at least `n`, and no
/// larger than any power of two that is at least `n`.
pub proof fn lemma_next_pow2(n: int)
    requires
        0 <= n <= isize::MAX + 1,
    ensures
        is_pow2(next_pow2(n)),
        next_pow2(n) >= n,
        forall|k: nat| #[trigger] pow2(k) >= n ==> next_pow2(n) <= pow2(k),
{
    let top = (usize::BITS - 1) as nat;
    vstd::arithmetic::power2::lemma2_to64();
    vstd::arithmetic::power2::lemma2_to64_rest();
    if usize::BITS == 64 {
        assert(isize::MAX == 0x7fff_ffff_ffff_ffff);
    } else {
        assert(isize::MAX == 0x7fff_ffff);
    }
    assert(pow2(top) == isize::MAX + 1);
    lemma_next_pow2_exists(n, 0, top);
    let j = choose|j: nat| j <= top && #[trigger] pow2(j) >= n && (j == 0 || pow2((j - 1) as nat) < n);
    crate::math::lemma_next_pow2_is(n, j);
    lemma_pow2_exp(j);
    assert forall|k: nat| #[trigger] pow2(k) >= n implies next_pow2(n) <= pow2(k) by {
        if k < j {
            if k < (j - 1) as nat {
                vstd::arithmetic::power2::lemma_pow2_strictly_increases(k, (j - 1) as nat);
            }
        } else if j < k {
            vstd::arithmetic::power2::lemma_pow2_strictly_increases(j, k);
        }
    }
}

/// The block for a request is the smallest power of two that covers the
/// size, the alignment and a machine word: it is at least each of them, a
/// multiple of the alignment, and no larger than any power of two that is
/// at least all three.
pub proof fn lemma_block_size(size: int, align: int)
    requires
        0 <= size,
        crate::layout::layout_ok(size, align),
    ensures
        is_pow2(block_size(size, align)),
        block_size(size, align) >= size,
        block_size(size, align) >= align,
        block_size(size, align) >= 8,
        block_size(size, align) % align == 0,
        forall|k: nat| #[trigger] pow2(k) >= size && pow2(k) >= align && pow2(k) >= 8 ==> block_size(size, align) <= pow2(k),
{
    crate::math::lemma_pow2_le_half(align);
    lemma_next_pow2(size);
    let b = block_size(size, align);
    let ja = choose|k: nat| k < usize::BITS && align == pow2(k);
    let jb = choose|k: nat| k < usize::BITS && next_pow2(size) == pow2(k);
    vstd::arithmetic::power2::lemma2_to64();
    lemma_pow2_exp(3);
    let j = if next_pow2(size) > (if align > 8 { align } else { 8 }) { jb } else if align > 8 { ja } else { 3 };
    assert(b == pow2(j));
    assert(is_pow2(b));
    if j < ja {
        vstd::arithmetic::power2::lemma_pow2_strictly_increases(j, ja);
    }
    vstd::arithmetic::div_mod::lemma_mod_self_0(b);
    lemma_pow2_divides(b, ja, j);
}

/// The exponent of a power of two.
pub open spec fn log2_of(n: int) -> int {
    (choose|k: nat| pow2(k) == n) as int
}

/// `log2_of` gives back the exponent.
pub proof fn lemma_log2_of(k: nat)
    ensures
        log2_of(pow2(k) as int) == k,
{
    let j = choose|j: nat| pow2(j) == pow2(k);
    assert(pow2(k) == pow2(k));
    crate::math::lemma_pow2_injective(j, k);
}

/// The first class from `c` on whose list holds a block; the number of lists
/// when there is none.
pub open spec fn first_nonempty(lists: Seq<Seq<usize>>, c: int) -> int
    decreases lists.len() - c,
{
    if c >= lists.len() {
        lists.len() as int
    } else if lists[c].len() > 0 {
        c
    } else {
        first_nonempty(lists, c + 1)
    }
}

/// The free lists after block `b`, the head of list `i`, has been split down
/// to class `c`: list `i` loses `b`, and each class `j` from `c` up to `i`
/// gains the upper half `b + 2^j` split off at that step.
pub open spec fn split_lists(lists: Seq<Seq<usize>>, c: int, i: int, b: usize) -> Seq<Seq<usize>> {
    Seq::new(
        lists.len(),
        |j: int|
            if j == i {
                lists[j].drop_last()
            } else if c <= j < i {
                lists[j].push((b + pow2(j as nat)) as usize)
            } else {
                lists[j]
            },
    )
}

/// Changing one list changes the byte count by the blocks it gained or lost.
pub proof fn lemma_free_bytes_update(lists: Seq<Seq<usize>>, i: int, l: Seq<usize>, n: int)
    requires
        0 <= i < lists.len(),
        0 <= n <= lists.len(),
    ensures
        free_bytes_below(lists.update(i, l), n) == free_bytes_below(lists, n) + (if i < n {
            (l.len() - lists[i].len()) * pow2(i as nat)
        } else {
            0
        }),
    decreases n,
{
    if n > 0 {
        lemma_free_bytes_update(lists, i, l, n - 1);
        let p = pow2(i as nat) as int;
        assert(l.len() * p == (l.len() - lists[i].len()) * p + lists[i].len() * p) by (nonlinear_arith);
    }
}

/// Pushing a block of class `i` adds `2^i` bytes.
pub proof fn lemma_free_bytes_push(lists: Seq<Seq<usize>>, i: int, x: usize)
    requires
        0 <= i < lists.len(),
    ensures
        free_bytes(lists.update(i, lists[i].push(x))) == free_bytes(lists) + pow2(i as nat),
{
    let l = lists[i].push(x);
    lemma_free_bytes_update(lists, i, l, lists.len() as int);
    let p = pow2(i as nat) as int;
    assert((l.len() - lists[i].len()) * p == p) by (nonlinear_arith)
        requires l.len() == lists[i].len() + 1;
}

/// Removing the head of class `i` takes away `2^i` bytes.
pub proof fn lemma_free_bytes_drop_last(lists: Seq<Seq<usize>>, i: int)
    requires
        0 <= i < lists.len(),
        lists[i].len() > 0,
    ensures
        free_bytes(lists.update(i, lists[i].drop_last())) == free_bytes(lists) - pow2(i as nat),
{
    let l = lists[i].drop_last();
    lemma_free_bytes_update(lists, i, l, lists.len() as int);
    let p = pow2(i as nat) as int;
    assert((l.len() - lists[i].len()) * p == -p) by (nonlinear_arith)
        requires l.len() == lists[i].len() - 1;
}

/// `first_nonempty` finds the first class from `c` with a block.
pub proof fn lemma_first_nonempty(lists: Seq<Seq<usize>>, c: int)
    requires
        0 <= c,
    ensures
        c <= first_nonempty(lists, c) || (c > lists.len() && first_nonempty(lists, c) == lists.len()),
        first_nonempty(lists, c) <= lists.len() || c > lists.len(),
        first_nonempty(lists, c) < lists.len() ==> lists[first_nonempty(lists, c)].len() > 0,
        forall|k: int| c <= k < first_nonempty(lists, c) ==> #[trigger] lists[k].len() == 0,
    decreases lists.len() - c,
{
    if c < lists.len() && lists[c].len() == 0 {
        lemma_first_nonempty(lists, c + 1);
    }
}

/// The first class from `c` on with a block is `i` when every class in
/// between is empty and class `i` is not.
pub proof fn lemma_first_nonempty_is(lists: Seq<Seq<usize>>, c: int, i: int)
    requires
        0 <= c <= i,
        i <= lists.len(),
        forall|k: int| c <= k < i ==> #[trigger] lists[k].len() == 0,
        i < lists.len() ==> lists[i].len() > 0,
    ensures
        first_nonempty(lists, c) == i,
    decreases i - c,
{
    if c < i {
        lemma_first_nonempty_is(lists, c + 1, i);
    }
}

/// Adding an aligned block to a list keeps every block aligned.
pub proof fn lemma_aligned_push(lists: Seq<Seq<usize>>, k: int, x: usize)
    requires
        blocks_aligned(lists),
        0 <= k < lists.len(),
        (x as int) % (pow2(k as nat) as int) == 0,
    ensures
        blocks_aligned(lists.update(k, lists[k].push(x))),
{
    let l2 = lists.update(k, lists[k].push(x));
    assert forall|i: int, j: int| 0 <= i < l2.len() && 0 <= j < l2[i].len() implies (#[trigger] l2[i][j] as int) % (pow2(i as nat) as int) == 0 by {
        if i == k && j < lists[k].len() {
            assert(l2[i][j] == lists[i][j]);
        } else if i != k {
            assert(l2[i][j] == lists[i][j]);
        }
    }
}

/// Removing the head of a list keeps every block aligned.
pub proof fn lemma_aligned_drop_last(lists: Seq<Seq<usize>>, k: int)
    requires
        blocks_aligned(lists),
        0 <= k < lists.len(),
        lists[k].len() > 0,
    ensures
        blocks_aligned(lists.update(k, lists[k].drop_last())),
{
    let l2 = lists.update(k, lists[k].drop_last());
    assert forall|i: int, j: int| 0 <= i < l2.len() && 0 <= j < l2[i].len() implies (#[trigger] l2[i][j] as int) % (pow2(i as nat) as int) == 0 by {
        assert(l2[i][j] == lists[i][j]);
    }
}

/// Removing a block from a list keeps every block aligned.
pub proof fn lemma_aligned_remove(lists: Seq<Seq<usize>>, k: int, j: int)
    requires
        blocks_aligned(lists),
        0 <= k < lists.len(),
        0 <= j < lists[k].len(),
    ensures
        blocks_aligned(lists.update(k, lists[k].remove(j))),
{
    let l2 = lists.update(k, lists[k].remove(j));
    assert forall|i: int, m: int| 0 <= i < l2.len() && 0 <= m < l2[i].len() implies (#[trigger] l2[i][m] as int) % (pow2(i as nat) as int) == 0 by {
        if i == k {
            if m < j {
                assert(l2[i][m] == lists[i][m]);
            } else {
                assert(l2[i][m] == lists[i][m + 1]);
            }
        } else {
            assert(l2[i][m] == lists[i][m]);
        }
    }
}

/// The ranges `[a, a + sa)` and `[b, b + sb)` share an address.
pub open spec fn overlaps(a: int, sa: int, b: int, sb: int) -> bool {
    a < b + sb && b < a + sa
}

/// No two free blocks share an address.
pub open spec fn blocks_disjoint(lists: Seq<Seq<usize>>) -> bool {
    forall|i1: int, j1: int, i2: int, j2: int|
        0 <= i1 < lists.len() && 0 <= j1 < lists[i1].len() && 0 <= i2 < lists.len() && 0 <= j2
            < lists[i2].len() && (i1 != i2 || j1 != j2) ==> !overlaps(
            #[trigger] lists[i1][j1] as int,
            pow2(i1 as nat) as int,
            #[trigger] lists[i2][j2] as int,
            pow2(i2 as nat) as int,
        )
}

/// No free block shares an address with `[start, start + len)`.
pub open spec fn range_free_of(lists: Seq<Seq<usize>>, start: int, len: int) -> bool {
    forall|i: int, j: int|
        0 <= i < lists.len() && 0 <= j < lists[i].len() ==> !overlaps(
            #[trigger] lists[i][j] as int,
            pow2(i as nat) as int,
            start,
            len,
        )
}

/// Splitting the head `b` of class `i` down to class `c` keeps the free
/// blocks disjoint, leaves `[b, b + 2^c)` outside every free block, and puts
/// no address into a free block that was not in one before.
pub proof fn lemma_split_disjoint(lists: Seq<Seq<usize>>, c: int, i: int, b: usize)
    requires
        blocks_disjoint(lists),
        blocks_aligned(lists),
        0 <= c <= i < lists.len(),
        i < usize::BITS,
        lists[i].len() > 0,
        b == lists[i].last(),
    ensures
        blocks_disjoint(split_lists(lists, c, i, b)),
        range_free_of(split_lists(lists, c, i, b), b as int, pow2(c as nat) as int),
        forall|s: int, n: int| range_free_of(lists, s, n) ==> #[trigger] range_free_of(split_lists(lists, c, i, b), s, n),
{
    let l2 = split_lists(lists, c, i, b);
    let last = lists[i].len() - 1;
    assert(lists[i][last] == b);
    assert((b as int) % (pow2(i as nat) as int) == 0);
    crate::math::lemma_aligned_room(b, i as nat);
    // every block of the split lists is an old block other than `b`, or an upper half
    assert forall|k: int, j: int| 0 <= k < l2.len() && 0 <= j < l2[k].len() implies
        ((c <= k < i && j == lists[k].len() && #[trigger] l2[k][j] == b + pow2(k as nat))
        || ((k != i || j != last) && j < lists[k].len() && l2[k][j] == lists[k][j])) by {
        if c <= k < i && j == lists[k].len() {
            lemma_pow2_strictly_increases_local(k as nat, i as nat);
        }
    }
    assert forall|k1: int, j1: int, k2: int, j2: int|
        0 <= k1 < l2.len() && 0 <= j1 < l2[k1].len() && 0 <= k2 < l2.len() && 0 <= j2 < l2[k2].len()
            && (k1 != k2 || j1 != j2) implies !overlaps(
            #[trigger] l2[k1][j1] as int,
            pow2(k1 as nat) as int,
            #[trigger] l2[k2][j2] as int,
            pow2(k2 as nat) as int,
        ) by {
        let h1 = c <= k1 < i && j1 == lists[k1].len();
        let h2 = c <= k2 < i && j2 == lists[k2].len();
        if h1 && h2 {
            if k1 < k2 {
                lemma_pow2_unfold_le(k1 as nat, k2 as nat);
            } else {
                lemma_pow2_unfold_le(k2 as nat, k1 as nat);
            }
        } else if h1 {
            assert(!overlaps(lists[k2][j2] as int, pow2(k2 as nat) as int, lists[i][last] as int, pow2(i as nat) as int));
            lemma_pow2_unfold_le(k1 as nat, i as nat);
        } else if h2 {
            assert(!overlaps(lists[k1][j1] as int, pow2(k1 as nat) as int, lists[i][last] as int, pow2(i as nat) as int));
            lemma_pow2_unfold_le(k2 as nat, i as nat);
        } else {
            assert(!overlaps(lists[k1][j1] as int, pow2(k1 as nat) as int, lists[k2][j2] as int, pow2(k2 as nat) as int));
        }
    }
    assert forall|k: int, j: int| 0 <= k < l2.len() && 0 <= j < l2[k].len() implies !overlaps(
        #[trigger] l2[k][j] as int, pow2(k as nat) as int, b as int, pow2(c as nat) as int) by {
        if c <= k < i && j == lists[k].len() {
            if c < k {
                vstd::arithmetic::power2::lemma_pow2_strictly_increases(c as nat, k as nat);
            }
        } else {
            assert(!overlaps(lists[k][j] as int, pow2(k as nat) as int, lists[i][last] as int, pow2(i as nat) as int));
            if c < i {
                vstd::arithmetic::power2::lemma_pow2_strictly_increases(c as nat, i as nat);
            }
        }
    }
    assert forall|s: int, n: int| range_free_of(lists, s, n) implies #[trigger] range_free_of(l2, s, n) by {
        assert forall|k: int, j: int| 0 <= k < l2.len() && 0 <= j < l2[k].len() implies !overlaps(
            #[trigger] l2[k][j] as int, pow2(k as nat) as int, s, n) by {
            if c <= k < i && j == lists[k].len() {
                assert(!overlaps(lists[i][last] as int, pow2(i as nat) as int, s, n));
                lemma_pow2_unfold_le(k as nat, i as nat);
            } else {
                assert(!overlaps(lists[k][j] as int, pow2(k as nat) as int, s, n));
            }
        }
    }
}

/// `2^(j+1) <= 2^k` when `j < k`.
pub proof fn lemma_pow2_unfold_le(j: nat, k: nat)
    requires
        j < k,
    ensures
        2 * pow2(j) == pow2(j + 1) <= pow2(k),
{
    lemma_pow2_unfold(j + 1);
    if j + 1 < k {
        vstd::arithmetic::power2::lemma_pow2_strictly_increases(j + 1, k);
    }
}

/// `2^j < 2^k` when `j < k`.
pub proof fn lemma_pow2_strictly_increases_local(j: nat, k: nat)
    requires
        j < k,
    ensures
        pow2(j) < pow2(k),
{
    vstd::arithmetic::power2::lemma_pow2_strictly_increases(j, k);
}

/// A block and its buddy are the two adjacent halves of the merged block.
pub proof fn lemma_buddy_adjacent(p: usize, c: usize)
    requires
        c < usize::BITS,
        (p as int) % (pow2(c as nat) as int) == 0,
    ensures
        (buddy_of(p, c as int) == p + pow2(c as nat) && merged_of(p, c as int) == p)
            || (buddy_of(p, c as int) + pow2(c as nat) == p && merged_of(p, c as int) == buddy_of(p, c as int)),
{
    lemma_pow2_exp(c as nat);
    vstd::bits::lemma_usize_shl_is_mul(1, c);
    crate::math::lemma_pow2_mask(p, pow2(c as nat) as usize);
    let b = buddy_of(p, c as int);
    assert((p & (1usize << c) == 0 ==> b == p + (1usize << c)) && (p & (1usize << c) != 0 ==> b + (1usize << c) == p))
        by (bit_vector)
        requires
            c < usize::BITS,
            p & (((1usize << c) - 1) as usize) == 0,
            b == p ^ (1usize << c),
    ;
}

/// Pushing a block that overlaps no free block keeps the free blocks disjoint.
pub proof fn lemma_push_disjoint(lists: Seq<Seq<usize>>, k: int, x: usize)
    requires
        blocks_disjoint(lists),
        0 <= k < lists.len(),
        range_free_of(lists, x as int, pow2(k as nat) as int),
    ensures
        blocks_disjoint(lists.update(k, lists[k].push(x))),
{
    let l2 = lists.update(k, lists[k].push(x));
    assert forall|k1: int, j1: int, k2: int, j2: int|
        0 <= k1 < l2.len() && 0 <= j1 < l2[k1].len() && 0 <= k2 < l2.len() && 0 <= j2 < l2[k2].len()
            && (k1 != k2 || j1 != j2) implies !overlaps(
            #[trigger] l2[k1][j1] as int,
            pow2(k1 as nat) as int,
            #[trigger] l2[k2][j2] as int,
            pow2(k2 as nat) as int,
        ) by {
        let n1 = k1 == k && j1 == lists[k].len();
        let n2 = k2 == k && j2 == lists[k].len();
        if n1 {
            assert(!overlaps(lists[k2][j2] as int, pow2(k2 as nat) as int, x as int, pow2(k as nat) as int));
        } else if n2 {
            assert(!overlaps(lists[k1][j1] as int, pow2(k1 as nat) as int, x as int, pow2(k as nat) as int));
        } else {
            assert(l2[k1][j1] == lists[k1][j1] && l2[k2][j2] == lists[k2][j2]);
        }
    }
}

/// Pushing a block outside a range keeps that range free.
pub proof fn lemma_push_range_free(lists: Seq<Seq<usize>>, k: int, x: usize, s: int, n: int)
    requires
        range_free_of(lists, s, n),
        0 <= k < lists.len(),
        !overlaps(x as int, pow2(k as nat) as int, s, n),
    ensures
        range_free_of(lists.update(k, lists[k].push(x)), s, n),
{
    let l2 = lists.update(k, lists[k].push(x));
    assert forall|i: int, j: int| 0 <= i < l2.len() && 0 <= j < l2[i].len() implies !overlaps(
        #[trigger] l2[i][j] as int, pow2(i as nat) as int, s, n) by {
        if !(i == k && j == lists[k].len()) {
            assert(l2[i][j] == lists[i][j]);
        }
    }
}

/// A range that no free block overlaps has free subranges.
pub proof fn lemma_range_free_sub(lists: Seq<Seq<usize>>, s: int, n: int, s2: int, n2: int)
    requires
        range_free_of(lists, s, n),
        s <= s2,
        s2 + n2 <= s + n,
    ensures
        range_free_of(lists, s2, n2),
{
    assert forall|i: int, j: int| 0 <= i < lists.len() && 0 <= j < lists[i].len() implies !overlaps(
        #[trigger] lists[i][j] as int, pow2(i as nat) as int, s2, n2) by {
        assert(!overlaps(lists[i][j] as int, pow2(i as nat) as int, s, n));
    }
}

/// One merge step keeps the free blocks disjoint.
pub proof fn lemma_merge_step_disjoint(lists: Seq<Seq<usize>>, p: usize, c: int)
    requires
        blocks_disjoint(lists),
        0 <= c,
        c + 1 < lists.len(),
        lists.len() <= usize::BITS,
        lists[c].len() > 0,
        lists[c].last() == p,
        (p as int) % (pow2(c as nat) as int) == 0,
        last_index_of(lists[c], buddy_of(p, c)) >= 0,
        buddy_of(p, c) != p,
    ensures
        blocks_disjoint(merge_step(lists, p, c)),
{
    let b = buddy_of(p, c);
    let k = last_index_of(lists[c], b);
    lemma_last_index_of(lists[c], b);
    let last = lists[c].len() - 1;
    assert(lists[c][last] == p);
    assert(k != last);
    let m = merged_of(p, c);
    assert((c as usize) as int == c);
    lemma_buddy_adjacent(p, c as usize);
    assert((b == p + pow2(c as nat) && m == p) || (b + pow2(c as nat) == p && m == b));
    lemma_pow2_unfold((c + 1) as nat);
    assert(((c + 1) as nat - 1) as nat == c as nat);
    assert(pow2((c + 1) as nat) == 2 * pow2(c as nat));
    assert(lists[c][k] == b);
    let lc = lists[c].remove(k).drop_last();
    let mid = lists.update(c, lc);
    // the merged block covers exactly the two halves
    assert forall|x: int, y: int| 0 <= x < mid.len() && 0 <= y < mid[x].len() implies
        !overlaps(#[trigger] mid[x][y] as int, pow2(x as nat) as int, m as int, pow2((c + 1) as nat) as int) by {
        let ox = x;
        let oy = if x == c && y >= k { y + 1 } else { y };
        assert(mid[x][y] == lists[ox][oy]);
        assert(oy < last || ox != c);
        assert(ox != c || oy != k);
        assert(!overlaps(lists[ox][oy] as int, pow2(ox as nat) as int, lists[c][k] as int, pow2(c as nat) as int));
        assert(!overlaps(lists[ox][oy] as int, pow2(ox as nat) as int, lists[c][last] as int, pow2(c as nat) as int));
        lemma_pow2_pos(ox as nat);
    }
    assert(blocks_disjoint(mid)) by {
        assert forall|k1: int, j1: int, k2: int, j2: int|
            0 <= k1 < mid.len() && 0 <= j1 < mid[k1].len() && 0 <= k2 < mid.len() && 0 <= j2 < mid[k2].len()
                && (k1 != k2 || j1 != j2) implies !overlaps(
                #[trigger] mid[k1][j1] as int,
                pow2(k1 as nat) as int,
                #[trigger] mid[k2][j2] as int,
                pow2(k2 as nat) as int,
            ) by {
            let o1x = k1;
            let o1y = if k1 == c && j1 >= k { j1 + 1 } else { j1 };
            let o2x = k2;
            let o2y = if k2 == c && j2 >= k { j2 + 1 } else { j2 };
            assert(mid[k1][j1] == lists[o1x][o1y]);
            assert(mid[k2][j2] == lists[o2x][o2y]);
            assert(o1x != o2x || o1y != o2y);
        }
    }
    assert(range_free_of(mid, m as int, pow2((c + 1) as nat) as int));
    assert(merge_step(lists, p, c) == mid.update(c + 1, mid[c + 1].push(m)));
    lemma_push_disjoint(mid, c + 1, m);
}

/// The free lists part-way through a split of block `b` from class `i`:
/// the levels above `j` have received their upper halves and level `j`
/// holds its upper half with `b` on top.
pub open spec fn mid_lists(lists: Seq<Seq<usize>>, i: int, j: int, b: usize) -> Seq<Seq<usize>> {
    Seq::new(
        lists.len(),
        |k: int|
            if k == i && j < i {
                lists[k].drop_last()
            } else if k == j && j < i {
                lists[k].push((b + pow2(k as nat)) as usize).push(b)
            } else if j < k < i {
                lists[k].push((b + pow2(k as nat)) as usize)
            } else {
                lists[k]
            },
    )
}

/// Splitting a block down to class `c` takes exactly `2^c` bytes out of the
/// free lists.
pub proof fn lemma_split_free_bytes(lists: Seq<Seq<usize>>, c: int, i: int, b: usize)
    requires
        0 <= c <= i < lists.len(),
        lists[i].len() > 0,
    ensures
        free_bytes(split_lists(lists, c, i, b)) == free_bytes(lists) - pow2(c as nat),
    decreases i - c,
{
    let n = lists.len() as int;
    if c == i {
        assert(split_lists(lists, c, i, b) =~= lists.update(i, lists[i].drop_last()));
        lemma_free_bytes_drop_last(lists, i);
    } else {
        lemma_split_free_bytes(lists, c + 1, i, b);
        let up = split_lists(lists, c + 1, i, b);
        assert(up[c] == lists[c]);
        assert(split_lists(lists, c, i, b) =~= up.update(c, lists[c].push((b + pow2(c as nat)) as usize)));
        lemma_free_bytes_push(up, c, (b + pow2(c as nat)) as usize);
        lemma_pow2_unfold((c + 1) as nat);
    }
}


/// The position of the last occurrence of `v` in `s` (the occurrence nearest
/// the head of a list), or `-1` when `v` does not occur.
pub open spec fn last_index_of(s: Seq<usize>, v: usize) -> int
    decreases s.len(),
{
    if s.len() == 0 {
        -1
    } else if s.last() == v {
        s.len() - 1
    } else {
        last_index_of(s.drop_last(), v)
    }
}

/// `last_index_of` finds the occurrence of `v` with the highest position.
pub proof fn lemma_last_index_of(s: Seq<usize>, v: usize)
    ensures
        -1 <= last_index_of(s, v) < s.len(),
        last_index_of(s, v) >= 0 ==> s[last_index_of(s, v)] == v,
        forall|j: int| last_index_of(s, v) < j < s.len() ==> #[trigger] s[j] != v,
    decreases s.len(),
{
    if s.len() > 0 && s.last() != v {
        lemma_last_index_of(s.drop_last(), v);
        let k = last_index_of(s, v);
        assert forall|j: int| k < j < s.len() implies #[trigger] s[j] != v by {
            if j < s.len() - 1 {
                assert(s.drop_last()[j] == s[j]);
            }
        }
    }
}

/// The buddy of block `p` of class `c`: the other half of the block of class
/// `c + 1` that contains it.
pub open spec fn buddy_of(p: usize, c: int) -> usize {
    p ^ (1usize << (c as usize))
}

/// The block of class `c + 1` formed by `p` and its buddy.
pub open spec fn merged_of(p: usize, c: int) -> usize {
    let b = buddy_of(p, c);
    if p < b {
        p
    } else {
        b
    }
}

/// One merge step at class `c`: the buddy and `p` (the head) leave class `c`
/// and their union joins class `c + 1`.
pub open spec fn merge_step(lists: Seq<Seq<usize>>, p: usize, c: int) -> Seq<Seq<usize>> {
    let k = last_index_of(lists[c], buddy_of(p, c));
    lists.update(c, lists[c].remove(k).drop_last()).update(c + 1, lists[c + 1].push(merged_of(p, c)))
}

/// The free lists once block `p`, the head of class `c`, has been merged with
/// its buddies for as long as the buddy is free.
pub open spec fn merge_lists(lists: Seq<Seq<usize>>, p: usize, c: int) -> Seq<Seq<usize>>
    decreases lists.len() - c,
{
    if c < 0 || c + 1 >= lists.len() {
        lists
    } else if last_index_of(lists[c], buddy_of(p, c)) < 0 {
        lists
    } else {
        merge_lists(merge_step(lists, p, c), merged_of(p, c), c + 1)
    }
}

/// Below the class of a block aligned to a larger class, the block's buddy
/// is the block right above it, and the pair merges into the block itself.
pub proof fn lemma_buddy_above(p: usize, j: nat, i: nat)
    requires
        j < i < usize::BITS,
        (p as int) % (pow2(i) as int) == 0,
    ensures
        buddy_of(p, j as int) == p + pow2(j),
        merged_of(p, j as int) == p,
{
    crate::math::lemma_pow2_divides(p as int, j + 1, i);
    crate::math::lemma_pow2_exp(j + 1);
    crate::math::lemma_pow2_exp(j);
    crate::math::lemma_pow2_mask(p, pow2(j + 1) as usize);
    vstd::bits::lemma_usize_shl_is_mul(1, (j + 1) as usize);
    vstd::bits::lemma_usize_shl_is_mul(1, j as usize);
    let jj = j as usize;
    assert(p ^ (1usize << jj) == p + (1usize << jj) && p < p ^ (1usize << jj)) by (bit_vector)
        requires
            jj + 1 < usize::BITS,
            p & (((1usize << ((jj + 1) as usize)) - 1) as usize) == 0;
}

/// The free lists while a block split off at class `c` is being merged back:
/// classes below `j` are as they were, class `j` holds the buddy and the
/// block, the classes above up to `i` hold the buddies, and class `i` lacks
/// the block it was split from.
pub proof fn lemma_merge_back_step(lists: Seq<Seq<usize>>, i: int, j: int, b: usize)
    requires
        0 <= j < i < lists.len(),
        lists.len() <= usize::BITS,
        lists[i].len() > 0,
        b == lists[i].last(),
        (b as int) % (pow2(i as nat) as int) == 0,
    ensures
        last_index_of(mid_lists(lists, i, j, b)[j], buddy_of(b, j)) >= 0,
        merged_of(b, j) == b,
        merge_step(mid_lists(lists, i, j, b), b, j) == mid_lists(lists, i, j + 1, b),
{
    lemma_buddy_above(b, j as nat, i as nat);
    vstd::arithmetic::power2::lemma_pow2_pos(j as nat);
    let m = mid_lists(lists, i, j, b);
    let bud = (b + pow2(j as nat)) as usize;
    assert(m[j] == lists[j].push(bud).push(b));
    assert(m[j].drop_last() =~= lists[j].push(bud));
    assert(m[j].last() == b && b != bud);
    assert(m[j].drop_last().last() == bud);
    assert(last_index_of(m[j].drop_last(), bud) == lists[j].len());
    assert(last_index_of(m[j], bud) == lists[j].len());
    let k = lists[j].len() as int;
    assert(m[j].remove(k).drop_last() =~= lists[j]);
    let n = merge_step(m, b, j);
    let m2 = mid_lists(lists, i, j + 1, b);
    if j + 1 == i {
        assert(lists[i].drop_last().push(b) =~= lists[i]);
    }
    assert(n =~= m2);
}

/// Handing back a block right after it was split off from class `i` for
/// class `c` gives the free lists back as they were, when the block split
/// had no free buddy; the merge then never reaches past class `i`.
pub proof fn lemma_split_then_merge(lists: Seq<Seq<usize>>, c: int, i: int)
    requires
        0 <= c <= i < lists.len(),
        lists.len() <= usize::BITS,
        lists[i].len() > 0,
        blocks_aligned(lists),
        last_index_of(lists[i], buddy_of(lists[i].last(), i)) < 0,
    ensures
        ({
            let b = lists[i].last();
            let s = split_lists(lists, c, i, b);
            &&& merge_lists(s.update(c, s[c].push(b)), b, c) == lists
            &&& merge_ok(s.update(c, s[c].push(b)), b, c)
        }),
{
    let b = lists[i].last();
    let s = split_lists(lists, c, i, b);
    assert((b as int) % (pow2(i as nat) as int) == 0) by {
        assert(lists[i][lists[i].len() - 1] == b);
    }
    assert(s.update(c, s[c].push(b)) =~= mid_lists(lists, i, c, b)) by {
        if c == i {
            assert(lists[i].drop_last().push(b) =~= lists[i]);
        }
    }
    lemma_merge_back_from(lists, i, c, b);
}

/// Merging back from class `j` ends with the free lists as they were.
proof fn lemma_merge_back_from(lists: Seq<Seq<usize>>, i: int, j: int, b: usize)
    requires
        0 <= j <= i < lists.len(),
        lists.len() <= usize::BITS,
        lists[i].len() > 0,
        b == lists[i].last(),
        (b as int) % (pow2(i as nat) as int) == 0,
        last_index_of(lists[i], buddy_of(b, i)) < 0,
    ensures
        merge_lists(mid_lists(lists, i, j, b), b, j) == lists,
        merge_ok(mid_lists(lists, i, j, b), b, j),
    decreases i - j,
{
    if j == i {
        assert(mid_lists(lists, i, j, b) =~= lists);
    } else {
        lemma_merge_back_step(lists, i, j, b);
        lemma_merge_back_from(lists, i, j + 1, b);
    }
}

/// Merging from class `c` never finds a free buddy at the top class, where the
/// merged block would have no list to go to.
pub open spec fn merge_ok(lists: Seq<Seq<usize>>, p: usize, c: int) -> bool
    decreases lists.len() - c,
{
    if c < 0 || c >= lists.len() {
        true
    } else if last_index_of(lists[c], buddy_of(p, c)) < 0 {
        true
    } else if c + 1 >= lists.len() {
        false
    } else {
        merge_ok(merge_step(lists, p, c), merged_of(p, c), c + 1)
    }
}

/// A block aligned to `2^c` merged with its buddy is aligned to `2^(c+1)`.
pub proof fn lemma_merged_aligned(p: usize, c: usize)
    requires
        c + 1 < usize::BITS,
        (p as int) % (pow2(c as nat) as int) == 0,
    ensures
        (merged_of(p, c as int) as int) % (pow2((c + 1) as nat) as int) == 0,
{
    lemma_pow2_exp(c as nat);
    lemma_pow2_exp((c + 1) as nat);
    vstd::bits::lemma_usize_shl_is_mul(1, c);
    vstd::bits::lemma_usize_shl_is_mul(1, (c + 1) as usize);
    crate::math::lemma_pow2_mask(p, pow2(c as nat) as usize);
    let m = merged_of(p, c as int);
    crate::math::lemma_pow2_mask(m, pow2((c + 1) as nat) as usize);
    assert(m & (((1usize << ((c + 1) as usize)) - 1) as usize) == 0) by (bit_vector)
        requires
            c + 1 < usize::BITS,
            p & (((1usize << c) - 1) as usize) == 0,
            m == (if p < (p ^ (1usize << c)) { p } else { p ^ (1usize << c) }),
    ;
}

/// Merging keeps the byte count of the free lists.
pub proof fn lemma_merge_free_bytes(lists: Seq<Seq<usize>>, p: usize, c: int)
    requires
        merge_ok(lists, p, c),
        0 <= c < lists.len(),
        lists.len() <= usize::BITS,
        lists[c].len() > 0,
        lists[c].last() == p,
        buddy_of(p, c) != p,
    ensures
        free_bytes(merge_lists(lists, p, c)) == free_bytes(lists),
    decreases lists.len() - c,
{
    let b = buddy_of(p, c);
    let k = last_index_of(lists[c], b);
    lemma_last_index_of(lists[c], b);
    if k >= 0 && c + 1 < lists.len() {
        let l1 = lists[c].remove(k);
        let l2 = l1.drop_last();
        let mid = lists.update(c, l1);
        lemma_free_bytes_update(lists, c, l1, lists.len() as int);
        lemma_free_bytes_update(mid, c, l2, lists.len() as int);
        let q = pow2(c as nat) as int;
        assert((l1.len() - lists[c].len()) * q == -q) by (nonlinear_arith)
            requires l1.len() == lists[c].len() - 1;
        assert((l2.len() - l1.len()) * q == -q) by (nonlinear_arith)
            requires l2.len() == l1.len() - 1;
        assert(mid.update(c, l2) =~= lists.update(c, l2));
        let step = merge_step(lists, p, c);
        assert(step == lists.update(c, l2).update(c + 1, lists[c + 1].push(merged_of(p, c))));
        assert(lists.update(c, l2)[c + 1] == lists[c + 1]);
        lemma_free_bytes_push(lists.update(c, l2), c + 1, merged_of(p, c));
        lemma_pow2_unfold((c + 1) as nat);
        assert(step[c + 1].last() == merged_of(p, c));
        let m = merged_of(p, c);
        if c + 1 < usize::BITS {
            let cc = (c + 1) as usize;
            assert(buddy_of(m, c + 1) != m) by {
                assert(m ^ (1usize << cc) != m) by (bit_vector)
                    requires cc < usize::BITS;
            }
        }
        lemma_merge_free_bytes(step, m, c + 1);
        assert(merge_lists(lists, p, c) == merge_lists(step, m, c + 1));
    }
}


/// The block size and class used for `layout`.
fn block_size_for(layout: &Layout) -> (r: (usize, usize))
    requires
        layout.wf(),
    ensures
        r.0 == block_size(layout.size_spec() as int, layout.align_spec() as int),
        r.0 == pow2(r.1 as nat),
        r.1 < usize::BITS,
        log2_of(r.0 as int) == r.1,
        is_pow2(r.0 as int),
{
    proof {
        layout.lemma_wf();
        vstd::arithmetic::power2::lemma2_to64();
        assert(8 == pow2(3));
        lemma_pow2_exp(3);
        crate::math::lemma_pow2_le_half(layout.align_spec() as int);
    }
    let s = next_power_of_two(layout.size());
    let a = if layout.align() > 8 { layout.align() } else { 8 };
    let size = if s > a { s } else { a };
    let class = log2_exact(size);
    proof {
        lemma_log2_of(class as nat);
    }
    (size, class as usize)
}

/// The machine word size, the granularity of every block.
pub const WORD_SIZE: usize = 8;

/// The free lists after the range `[cur, end)` has been cut into blocks: at
/// each step the block at `cur` is as large as both the alignment of `cur`
/// and the remaining length allow, and goes to the list of its class.
pub open spec fn add_blocks(lists: Seq<Seq<usize>>, cur: usize, end: usize) -> Seq<Seq<usize>>
    decreases end - cur,
{
    if cur == 0 || end < cur + 8 {
        lists
    } else {
        let l = lowbit(cur) as int;
        let p = prev_pow2(end - cur);
        let size = if l < p { l } else { p };
        let c = log2_of(size);
        if size <= 0 || size > end - cur {
            lists
        } else {
            add_blocks(lists.update(c, lists[c].push(cur)), (cur + size) as usize, end)
        }
    }
}

/// Every block that cutting `[cur, end)` into blocks, as `add_blocks` does,
/// produces has a class below `order`, so that it has a list to go to.
pub open spec fn blocks_fit(cur: usize, end: usize, order: int) -> bool
    decreases end - cur,
{
    if cur == 0 || end < cur + 8 {
        true
    } else {
        let l = lowbit(cur) as int;
        let p = prev_pow2(end - cur);
        let size = if l < p { l } else { p };
        if size <= 0 || size > end - cur {
            true
        } else {
            log2_of(size) < order && blocks_fit((cur + size) as usize, end, order)
        }
    }
}

/// A range shorter than `2^order` is cut into blocks of classes below
/// `order`.
pub proof fn lemma_blocks_fit_short(cur: usize, end: usize, order: int)
    requires
        0 <= order,
        cur <= end,
        end - cur < pow2(order as nat),
    ensures
        blocks_fit(cur, end, order),
    decreases end - cur,
{
    if !(cur == 0 || end < cur + 8) {
        let l = lowbit(cur) as int;
        let p = prev_pow2(end - cur);
        let size = if l < p { l } else { p };
        if !(size <= 0 || size > end - cur) {
            lemma_lowbit(cur);
            let lk = choose|k: nat| k < usize::BITS && lowbit(cur) == pow2(k);
            let n = end - cur;
            let pk = choose|k: nat| #[trigger] pow2(k) <= n && n < 2 * pow2(k);
            assert(p == pow2(pk));
            let k = if l < p { lk } else { pk };
            assert(size == pow2(k));
            lemma_log2_of(k);
            if k >= order {
                if k > order {
                    vstd::arithmetic::power2::lemma_pow2_strictly_increases(order as nat, k);
                }
            }
            lemma_blocks_fit_short((cur + size) as usize, end, order);
        }
    }
}

/// The block that `add_to_heap` cuts at `cur` from the range that ends at
/// `end`, and its class.
fn next_block(cur: usize, end: usize) -> (r: (usize, usize))
    requires
        cur != 0,
        cur <= end,
        end - cur >= 8,
        cur % 8 == 0,
    ensures
        ({
            let l = lowbit(cur) as int;
            let p = prev_pow2(end - cur);
            r.0 == (if l < p { l } else { p })
        }),
        r.0 == pow2(r.1 as nat),
        r.1 < usize::BITS,
        log2_of(r.0 as int) == r.1,
        8 <= r.0 <= end - cur,
        r.0 % 8 == 0,
        (cur as int) % (r.0 as int) == 0,
{
    proof {
        assert(!cur < !0usize) by (bit_vector)
            requires cur != 0;
        lemma_lowbit(cur);
        vstd::arithmetic::power2::lemma2_to64();
        lemma_pow2_exp(3);
        assert(is_pow2(8)) by {
            assert(8 == pow2(3));
        }
        crate::math::lemma_pow2_mask(cur, 8);
    }
    let lowbit = cur & (!cur + 1);
    let pp = prev_power_of_two(end - cur);
    let size = if lowbit < pp { lowbit } else { pp };
    proof {
        assert(lowbit == crate::math::lowbit(cur));
        let kp = choose|k: nat| k < usize::BITS && pp == pow2(k);
        if kp < 3 {
            assert(kp == 0 || kp == 1 || kp == 2);
        }
    }
    let class = log2_exact(size) as usize;
    proof {
        lemma_log2_of(class as nat);
        let lk = choose|k: nat| k < usize::BITS && lowbit == pow2(k);
        if size < lowbit {
            if lk < class {
                vstd::arithmetic::power2::lemma_pow2_strictly_increases(lk, class as nat);
            }
            lemma_pow2_divides(cur as int, class as nat, lk);
        }
        if class < 3 {
            assert(class == 0 || class == 1 || class == 2);
        }
        vstd::arithmetic::div_mod::lemma_mod_self_0(size as int);
        lemma_pow2_divides(size as int, 3, class as nat);
    }
    (size, class)
}

/// The mask that trims an address to whole words.
proof fn lemma_word_mask()
    ensures
        !WORD_SIZE + 1 == !7usize,
{
    assert(!WORD_SIZE + 1 == !7usize) by (bit_vector)
        requires WORD_SIZE == 8;
}

/// Whether the range `[start, end)`, trimmed to whole words, is cut by
/// `add_to_heap` into blocks of classes below `order` only.
pub fn blocks_fit_range(start: usize, end: usize, order: usize) -> (r: bool)
    requires
        start + WORD_SIZE - 1 <= usize::MAX,
        start + (WORD_SIZE - 1) - (start + (WORD_SIZE - 1)) % (WORD_SIZE as int) <= end - (end as int) % (WORD_SIZE as int),
    ensures
        ({
            let s = start + (WORD_SIZE - 1) - (start + (WORD_SIZE - 1)) % (WORD_SIZE as int);
            let e = end - (end as int) % (WORD_SIZE as int);
            r == blocks_fit(s as usize, e as usize, order as int)
        }),
{
    proof {
        vstd::arithmetic::power2::lemma2_to64();
        lemma_pow2_exp(3);
        assert(is_pow2(8)) by {
            assert(8 == pow2(3));
        }
        crate::math::lemma_pow2_mask((start + 7) as usize, 8);
        crate::math::lemma_pow2_mask(end, 8);
        lemma_word_mask();
    }
    let s0 = (start + (WORD_SIZE - 1)) & (!WORD_SIZE + 1);
    let e0 = end & (!WORD_SIZE + 1);
    let mut cur = s0;
    while cur != 0 && e0 - cur >= WORD_SIZE
        invariant
            s0 == start + (WORD_SIZE - 1) - (start + (WORD_SIZE - 1)) % (WORD_SIZE as int),
            e0 == end - (end as int) % (WORD_SIZE as int),
            s0 <= cur <= e0,
            cur % 8 == 0,
            blocks_fit(s0, e0, order as int) == blocks_fit(cur, e0, order as int),
        decreases e0 - cur,
    {
        let (size, class) = next_block(cur, e0);
        proof {
            assert(blocks_fit(cur, e0, order as int) == (class < order && blocks_fit((cur + size) as usize, e0, order as int)));
        }
        if class >= order {
            return false;
        }
        proof {
            assert((cur + size) % 8 == 0) by {
                vstd::arithmetic::div_mod::lemma_add_mod_noop(cur as int, size as int, 8);
            }
        }
        cur = cur + size;
    }
    true
}

/// A buddy allocator with `ORDER` size classes.
pub struct Heap<const ORDER: usize> {
    free_list: Vec<LinkedList>,
    allocated: usize,
    total: usize,
}

impl<const ORDER: usize> Heap<ORDER> {
    /// The free lists, class by class.
    pub closed spec fn lists(&self) -> Seq<Seq<usize>> {
        self.free_list@.map_values(|l: LinkedList| l@)
    }

    /// The bytes handed out and not yet given back.
    pub closed spec fn allocated_spec(&self) -> nat {
        self.allocated as nat
    }

    /// The bytes added by the last call of `add_to_heap`.
    pub closed spec fn total_spec(&self) -> nat {
        self.total as nat
    }

    /// One list per class, classes within the word width, blocks aligned to
    /// their size.
    pub closed spec fn wf(&self) -> bool {
        &&& self.free_list@.len() == ORDER
        &&& ORDER <= usize::BITS
        &&& blocks_aligned(self.lists())
        &&& blocks_disjoint(self.lists())
    }

    /// What well-formedness guarantees of the free lists.
    pub proof fn lemma_wf(&self)
        requires
            self.wf(),
        ensures
            self.lists().len() == ORDER,
            ORDER <= usize::BITS,
            blocks_aligned(self.lists()),
            blocks_disjoint(self.lists()),
    {
    }

    /// Whether some class from `class` up holds a free block.
    pub fn has_free_block(&self, class: usize) -> (r: bool)
        requires
            self.wf(),
        ensures
            r == (first_nonempty(self.lists(), class as int) < ORDER),
    {
        let n = self.free_list.len();
        let mut i = class;
        while i < n
            invariant
                self.wf(),
                n == ORDER,
                class <= i,
                first_nonempty(self.lists(), class as int) == first_nonempty(self.lists(), i as int),
            decreases n - i,
        {
            if !self.free_list[i].is_empty() {
                return true;
            }
            i = i + 1;
        }
        false
    }

    /// An empty heap.
    pub fn new() -> (r: Self)
        requires
            ORDER <= usize::BITS,
        ensures
            r.wf(),
            r.lists() == Seq::new(ORDER as nat, |i: int| Seq::<usize>::empty()),
            r.allocated_spec() == 0,
            r.total_spec() == 0,
    {
        let mut free_list: Vec<LinkedList> = Vec::new();
        let mut i: usize = 0;
        while i < ORDER
            invariant
                i <= ORDER,
                free_list@.len() == i,
                forall|k: int| 0 <= k < i ==> (#[trigger] free_list@[k])@ == Seq::<usize>::empty(),
            decreases ORDER - i,
        {
            free_list.push(LinkedList::new());
            i = i + 1;
        }
        let r = Heap { free_list, allocated: 0, total: 0 };
        assert(r.lists() =~= Seq::new(ORDER as nat, |i: int| Seq::<usize>::empty()));
        r
    }

    /// Hands out a block of `block_size(layout)` bytes aligned to that size.
    ///
    /// The block is taken from the first nonempty class at or above the
    /// request's class, split in halves down to that class.  A block at
    /// address zero cannot be handed out: the call then fails, after the split.
    pub fn allocate(&mut self, layout: Layout) -> (r: Result<usize, ()>)
        requires
            old(self).wf(),
            layout.wf(),
            old(self).allocated_spec() + block_size(layout.size_spec() as int, layout.align_spec() as int) <= usize::MAX,
        ensures
            final(self).wf(),
            final(self).total_spec() == old(self).total_spec(),
            ({
                let size = block_size(layout.size_spec() as int, layout.align_spec() as int);
                let c = log2_of(size);
                let old_lists = old(self).lists();
                let i = first_nonempty(old_lists, c);
                if i >= ORDER {
                    &&& r is Err
                    &&& final(self).lists() == old_lists
                    &&& final(self).allocated_spec() == old(self).allocated_spec()
                } else {
                    let b = old_lists[i].last();
                    &&& final(self).lists() == split_lists(old_lists, c, i, b)
                    &&& free_bytes(final(self).lists()) == free_bytes(old_lists) - size
                    &&& (b == 0 ==> r is Err && final(self).allocated_spec() == old(self).allocated_spec())
                    &&& (b != 0 ==> r == Ok::<usize, ()>(b) && final(self).allocated_spec() == old(self).allocated_spec() + size)
                    &&& b as int % size == 0
                    &&& range_free_of(final(self).lists(), b as int, size)
                    &&& span(b as int, size).subset_of(free_addrs(old_lists))
                    &&& free_addrs(final(self).lists()) == free_addrs(old_lists).difference(span(b as int, size))
                }
            }),
            forall|s: int, n: int| range_free_of(old(self).lists(), s, n) ==> #[trigger] range_free_of(final(self).lists(), s, n),
            r matches Ok(b) ==> {
                &&& (b as int) % (layout.align_spec() as int) == 0
                &&& final(self).allocated_spec() >= old(self).allocated_spec() + layout.size_spec()
                &&& span(b as int, layout.size_spec() as int).subset_of(free_addrs(old(self).lists()))
                &&& span(b as int, layout.size_spec() as int).disjoint(free_addrs(final(self).lists()))
            },
    {
        proof {
            layout.lemma_wf();
            lemma_block_size(layout.size_spec() as int, layout.align_spec() as int);
        }
        let (size, class) = block_size_for(&layout);
        let ghost old_lists = self.lists();
        let n = self.free_list.len();
        let mut i = class;
        while i < n
            invariant
                self.wf(),
                self.lists() == old_lists,
                old_lists == old(self).lists(),
                self.allocated == old(self).allocated,
                self.total == old(self).total,
                n == ORDER,
                class <= i,
                i <= n || i == class,
                forall|k: int| class <= k < i ==> #[trigger] old_lists[k].len() == 0,
                layout.wf(),
                size == block_size(layout.size_spec() as int, layout.align_spec() as int),
                size == pow2(class as nat),
                log2_of(size as int) == class,
                old(self).allocated_spec() + size <= usize::MAX,
            decreases n - i,
        {
            if !self.free_list[i].is_empty() {
                proof {
                    assert(self.lists()[i as int] == self.free_list@[i as int]@);
                    lemma_first_nonempty_is(old_lists, class as int, i as int);
                }
                let ghost b: usize = old_lists[i as int].last();
                let result = self.split_block(class, i, Ghost(b));
                proof {
                    lemma_split_free_bytes(old_lists, class as int, i as int, b);
                    lemma_free_addrs_split(old_lists, class as int, i as int, b);
                }
                if result != 0 {
                    self.allocated = self.allocated + size;
                    proof {
                        layout.lemma_wf();
                        lemma_block_size(layout.size_spec() as int, layout.align_spec() as int);
                        let sz = layout.size_spec() as int;
                        let al = layout.align_spec() as int;
                        assert(span(b as int, sz).subset_of(span(b as int, size as int)));
                        assert(span(b as int, size as int).subset_of(free_addrs(old_lists)));
                        assert(span(b as int, sz).subset_of(free_addrs(old_lists)));
                        assert(free_addrs(self.lists()) == free_addrs(old_lists).difference(span(b as int, size as int)));
                        assert(span(b as int, sz).disjoint(free_addrs(self.lists())));
                        let ja = choose|k: nat| k < usize::BITS && al == pow2(k);
                        if class < ja {
                            vstd::arithmetic::power2::lemma_pow2_strictly_increases(class as nat, ja);
                        }
                        assert((b as int) % (size as int) == 0);
                        lemma_pow2_divides(b as int, ja, class as nat);
                        assert((b as int) % al == 0);
                    }
                    return Ok(result);
                } else {
                    return Err(());
                }
            }
            i = i + 1;
        }
        proof {
            if class <= n {
                lemma_first_nonempty_is(old_lists, class as int, n as int);
            }
            assert forall|s: int, n: int| range_free_of(old(self).lists(), s, n) implies #[trigger] range_free_of(self.lists(), s, n) by {}
        }
        Err(())
    }

    /// Takes the head `b` of class `i`, splits it down to class `c` and
    /// returns it; each split leaves the upper half on the list one class down.
    fn split_block(&mut self, c: usize, i: usize, Ghost(b): Ghost<usize>) -> (r: usize)
        requires
            old(self).wf(),
            c <= i < ORDER,
            old(self).lists()[i as int].len() > 0,
            b == old(self).lists()[i as int].last(),
        ensures
            final(self).wf(),
            r == b,
            final(self).lists() == split_lists(old(self).lists(), c as int, i as int, b),
            (b as int) % (pow2(c as nat) as int) == 0,
            range_free_of(final(self).lists(), b as int, pow2(c as nat) as int),
            forall|s: int, n: int| range_free_of(old(self).lists(), s, n) ==> #[trigger] range_free_of(final(self).lists(), s, n),
            final(self).allocated == old(self).allocated,
            final(self).total == old(self).total,
    {
        let ghost old_lists = self.lists();
        proof {
            let k = (old_lists[i as int].len() - 1) as int;
            assert(old_lists[i as int][k] == b);
        }
        let mut j = i;
        while j > c
            invariant
                c <= j <= i < ORDER,
                self.free_list@.len() == ORDER,
                ORDER <= usize::BITS,
                old_lists.len() == ORDER,
                old_lists == old(self).lists(),
                blocks_aligned(self.lists()),
                (b as int) % (pow2(i as nat) as int) == 0,
                self.lists() == mid_lists(old_lists, i as int, j as int, b),
                self.lists()[j as int].len() > 0,
                self.lists()[j as int].last() == b,
                self.allocated == old(self).allocated,
                self.total == old(self).total,
            decreases j,
        {
            let ghost before = self.lists();
            proof {
                assert(before[j as int] == self.free_list@[j as int]@);
            }
            let block = self.free_list[j].pop().unwrap();
            let ghost after_pop = self.lists();
            proof {
                assert(block == b);
                assert(after_pop =~= before.update(j as int, before[j as int].drop_last()));
                lemma_aligned_drop_last(before, j as int);
                lemma_pow2_divides(b as int, j as nat, i as nat);
                lemma_aligned_room(b, j as nat);
                lemma_pow2_unfold(j as nat);
                lemma_pow2_divides(b as int, (j - 1) as nat, i as nat);
                lemma_aligned_add(b as int, (j - 1) as nat);
            }
            let half = pow2_usize((j - 1) as u32);
            self.free_list[j - 1].push(block + half);
            let ghost after_upper = self.lists();
            proof {
                assert(after_upper =~= after_pop.update(j - 1, after_pop[j - 1].push((block + half) as usize)));
                lemma_aligned_push(after_pop, j - 1, (block + half) as usize);
            }
            self.free_list[j - 1].push(block);
            proof {
                assert(self.lists() =~= after_upper.update(j - 1, after_upper[j - 1].push(block)));
                lemma_aligned_push(after_upper, j - 1, block);
                let target = mid_lists(old_lists, i as int, (j - 1) as int, b);
                assert forall|k: int| 0 <= k < ORDER implies #[trigger] self.lists()[k] == target[k] by {
                    if k == j - 1 {
                        assert(self.lists()[k] =~= target[k]);
                    } else if k == j {
                        assert(self.lists()[k] =~= target[k]);
                    } else {
                        assert(self.lists()[k] =~= target[k]);
                    }
                }
                assert(self.lists() =~= target);
            }
            j = j - 1;
        }
        let ghost before = self.lists();
        proof {
            assert(before[c as int] == self.free_list@[c as int]@);
        }
        let result = self.free_list[c].pop().unwrap();
        proof {
            assert(self.lists() =~= before.update(c as int, before[c as int].drop_last()));
            lemma_aligned_drop_last(before, c as int);
            let target = split_lists(old_lists, c as int, i as int, b);
            assert forall|k: int| 0 <= k < ORDER implies #[trigger] self.lists()[k] == target[k] by {
                assert(self.lists()[k] =~= target[k]);
            }
            assert(self.lists() =~= target);
            lemma_pow2_divides(b as int, c as nat, i as nat);
            lemma_split_disjoint(old_lists, c as int, i as int, b);
        }
        result
    }

    /// Adds the memory in `[start, end)`, trimmed to whole words, to the heap
    /// as maximal aligned power-of-two blocks.
    pub fn add_to_heap(&mut self, start: usize, end: usize)
        requires
            old(self).wf(),
            start + WORD_SIZE - 1 <= usize::MAX,
            start + (WORD_SIZE - 1) - (start + (WORD_SIZE - 1)) % (WORD_SIZE as int) <= end - (end as int) % (WORD_SIZE as int),
            start != 0 || end < WORD_SIZE,
            ({
                let s = start + (WORD_SIZE - 1) - (start + (WORD_SIZE - 1)) % (WORD_SIZE as int);
                let e = end - (end as int) % (WORD_SIZE as int);
                &&& range_free_of(old(self).lists(), s, e - s)
                &&& blocks_fit(s as usize, e as usize, ORDER as int)
            }),
        ensures
            final(self).wf(),
            ({
                let s = start + (WORD_SIZE - 1) - (start + (WORD_SIZE - 1)) % (WORD_SIZE as int);
                let e = end - (end as int) % (WORD_SIZE as int);
                &&& final(self).lists() == add_blocks(old(self).lists(), s as usize, e as usize)
                &&& final(self).total_spec() == e - s
                &&& free_bytes(final(self).lists()) == free_bytes(old(self).lists()) + (e - s)
                &&& forall|i: int, j: int| 0 <= i < final(self).lists().len() && 0 <= j < final(self).lists()[i].len()
                    ==> (j < old(self).lists()[i].len() && #[trigger] final(self).lists()[i][j] == old(self).lists()[i][j])
                        || final(self).lists()[i][j] >= s
            }),
            final(self).allocated_spec() == old(self).allocated_spec(),
    {
        proof {
            vstd::arithmetic::power2::lemma2_to64();
            assert(8 == pow2(3));
            lemma_pow2_exp(3);
            assert(is_pow2(8)) by {
                assert(8 == pow2(3));
            }
            crate::math::lemma_pow2_mask((start + 7) as usize, 8);
            crate::math::lemma_pow2_mask(end, 8);
            lemma_word_mask();
        }
        let start = (start + (WORD_SIZE - 1)) & (!WORD_SIZE + 1);
        let end = end & (!WORD_SIZE + 1);
        let ghost old_lists = self.lists();
        let mut total: usize = 0;
        let mut current_start = start;
        while end - current_start >= WORD_SIZE
            invariant
                self.wf(),
                start <= current_start <= end,
                current_start % 8 == 0,
                end % 8 == 0,
                current_start != 0 || end < 8,
                total == current_start - start,
                blocks_fit(current_start, end, ORDER as int),
                range_free_of(self.lists(), current_start as int, end - current_start),
                add_blocks(old_lists, start, end) == add_blocks(self.lists(), current_start, end),
                free_bytes(self.lists()) == free_bytes(old_lists) + (current_start - start),
                self.allocated == old(self).allocated,
                old_lists == old(self).lists(),
                self.lists().len() == old_lists.len(),
                forall|i: int, j: int| 0 <= i < self.lists().len() && 0 <= j < self.lists()[i].len()
                    ==> (j < old_lists[i].len() && #[trigger] self.lists()[i][j] == old_lists[i][j])
                        || self.lists()[i][j] >= start,
            decreases end - current_start,
        {
            let (size, class) = next_block(current_start, end);
            let ghost cur = self.lists();
            proof {
                assert(class < ORDER && blocks_fit((current_start + size) as usize, end, ORDER as int));
                assert(cur[class as int] == self.free_list@[class as int]@);
                lemma_aligned_push(cur, class as int, current_start);
                lemma_range_free_sub(cur, current_start as int, end - current_start, current_start as int, size as int);
                lemma_push_disjoint(cur, class as int, current_start);
                lemma_range_free_sub(cur, current_start as int, end - current_start, current_start + size, end - current_start - size);
                lemma_push_range_free(cur, class as int, current_start, current_start + size, end - current_start - size);
                lemma_free_bytes_push(cur, class as int, current_start);
                assert(size >= 8);
            }
            self.free_list[class].push(current_start);
            proof {
                assert(self.lists() =~= cur.update(class as int, cur[class as int].push(current_start)));
                assert forall|i: int, j: int| 0 <= i < self.lists().len() && 0 <= j < self.lists()[i].len()
                    implies (j < old_lists[i].len() && #[trigger] self.lists()[i][j] == old_lists[i][j])
                        || self.lists()[i][j] >= start by {
                    if i == class && j == cur[i].len() {
                    } else {
                        assert(self.lists()[i][j] == cur[i][j]);
                    }
                }
                assert((current_start + size) % 8 == 0) by {
                    vstd::arithmetic::div_mod::lemma_add_mod_noop(current_start as int, size as int, 8);
                }
            }
            current_start = current_start + size;
            total = total + size;
        }
        self.total = total;
    }

    /// Gives back the block at `ptr` that was handed out for `layout`, and
    /// merges it with its buddy for as long as the buddy is free.
    pub fn dealloc(&mut self, ptr: usize, layout: Layout)
        requires
            old(self).wf(),
            layout.wf(),
            ({
                let size = block_size(layout.size_spec() as int, layout.align_spec() as int);
                let c = log2_of(size);
                let old_lists = old(self).lists();
                &&& c < ORDER
                &&& (ptr as int) % size == 0
                &&& old(self).allocated_spec() >= size
                &&& range_free_of(old_lists, ptr as int, size)
                &&& merge_ok(old_lists.update(c, old_lists[c].push(ptr)), ptr, c)
            }),
        ensures
            final(self).wf(),
            final(self).total_spec() == old(self).total_spec(),
            ({
                let size = block_size(layout.size_spec() as int, layout.align_spec() as int);
                let c = log2_of(size);
                let old_lists = old(self).lists();
                &&& final(self).lists() == merge_lists(old_lists.update(c, old_lists[c].push(ptr)), ptr, c)
                &&& free_bytes(final(self).lists()) == free_bytes(old_lists) + size
                &&& free_addrs(final(self).lists()) == free_addrs(old_lists).union(span(ptr as int, size))
                &&& final(self).allocated_spec() == old(self).allocated_spec() - size
            }),
    {
        let (size, class) = block_size_for(&layout);
        let ghost old_lists = self.lists();
        proof {
            assert(old_lists[class as int] == self.free_list@[class as int]@);
        }
        self.free_list[class].push(ptr);
        let ghost start = self.lists();
        proof {
            assert(start =~= old_lists.update(class as int, old_lists[class as int].push(ptr)));
            lemma_aligned_push(old_lists, class as int, ptr);
            lemma_push_disjoint(old_lists, class as int, ptr);
            lemma_free_bytes_push(old_lists, class as int, ptr);
            assert(ptr ^ (1usize << class) != ptr) by (bit_vector)
                requires class < usize::BITS;
            lemma_merge_free_bytes(start, ptr, class as int);
            lemma_free_addrs_push(old_lists, class as int, ptr);
            lemma_free_addrs_merge(start, ptr, class as int);
        }
        let n = self.free_list.len();
        let mut cur_class = class;
        let mut cur_ptr = ptr;
        let mut done = false;
        while cur_class < n && !done
            invariant
                self.free_list@.len() == ORDER,
                n == ORDER,
                ORDER <= usize::BITS,
                blocks_aligned(self.lists()),
                blocks_disjoint(self.lists()),
                cur_class <= n,
                cur_class < n ==> self.lists()[cur_class as int].len() > 0
                    && self.lists()[cur_class as int].last() == cur_ptr,
                (cur_ptr as int) % (pow2(cur_class as nat) as int) == 0,
                merge_lists(start, ptr, class as int) == merge_lists(self.lists(), cur_ptr, cur_class as int),
                merge_ok(self.lists(), cur_ptr, cur_class as int),
                done ==> merge_lists(self.lists(), cur_ptr, cur_class as int) == self.lists(),
                self.allocated == old(self).allocated,
                self.total == old(self).total,
            decreases n - cur_class + (if done { 0int } else { 1int }),
        {
            let bit = 1usize << cur_class;
            let buddy = cur_ptr ^ bit;
            let ghost cur = self.lists();
            let ghost list = cur[cur_class as int];
            proof {
                assert(list == self.free_list@[cur_class as int]@);
                assert(buddy == buddy_of(cur_ptr, cur_class as int));
                assert(buddy != cur_ptr) by (bit_vector)
                    requires buddy == cur_ptr ^ bit, bit == 1usize << cur_class, cur_class < usize::BITS;
                lemma_last_index_of(list, buddy);
            }
            let nodes = self.free_list[cur_class].iter_mut();
            let mut idx: usize = 0;
            let mut found = false;
            while idx < nodes.len() && !found
                invariant
                    nodes@.len() == list.len(),
                    forall|j: int|
                        0 <= j < nodes@.len() ==> (#[trigger] nodes@[j]).position() == list.len() - 1 - j
                            && nodes@[j].block() == list[list.len() - 1 - j],
                    idx <= nodes@.len(),
                    found ==> idx < nodes@.len() && nodes@[idx as int].block() == buddy,
                    forall|j: int| 0 <= j < idx ==> (#[trigger] nodes@[j]).block() != buddy,
                decreases nodes@.len() - idx + (if found { 0int } else { 1int }),
            {
                if nodes[idx].value() == buddy {
                    found = true;
                } else {
                    idx = idx + 1;
                }
            }
            let ghost k = last_index_of(list, buddy);
            if found {
                proof {
                    let pos = list.len() - 1 - idx;
                    if k > pos {
                        let j = list.len() - 1 - k;
                        assert(nodes@[j].block() == list[k]);
                    }
                    if k < pos {
                        assert(list[pos] == buddy);
                    }
                    assert(k == pos);
                    assert(k < list.len() - 1);
                }
                let node = nodes[idx];
                let ghost before_remove = self.lists();
                node.pop_current(&mut self.free_list[cur_class]);
                let ghost after_remove = self.lists();
                proof {
                    assert(after_remove =~= cur.update(cur_class as int, list.remove(k)));
                    lemma_aligned_remove(cur, cur_class as int, k);
                    assert(list.remove(k).last() == cur_ptr);
                }
                let _ = self.free_list[cur_class].pop();
                let ghost after_pop = self.lists();
                proof {
                    assert(after_pop =~= after_remove.update(cur_class as int, list.remove(k).drop_last()));
                    lemma_aligned_drop_last(after_remove, cur_class as int);
                    assert(cur_class + 1 < n);
                }
                let merged = if cur_ptr < buddy { cur_ptr } else { buddy };
                proof {
                    assert(merged == merged_of(cur_ptr, cur_class as int));
                    lemma_merge_step_disjoint(cur, cur_ptr, cur_class as int);
                    lemma_merged_aligned(cur_ptr, cur_class);
                    lemma_aligned_push(after_pop, cur_class + 1, merged);
                }
                self.free_list[cur_class + 1].push(merged);
                proof {
                    assert(self.lists() =~= after_pop.update(cur_class + 1, after_pop[cur_class + 1].push(merged)));
                    assert(self.lists() =~= merge_step(cur, cur_ptr, cur_class as int));
                }
                cur_class = cur_class + 1;
                cur_ptr = merged;
            } else {
                proof {
                    if k >= 0 {
                        let j = list.len() - 1 - k;
                        assert(nodes@[j].block() == list[k]);
                    }
                }
                done = true;
            }
        }
        proof {
            assert(merge_lists(self.lists(), cur_ptr, cur_class as int) == self.lists());
        }
        self.allocated = self.allocated - size;
    }
}

} // verus!
