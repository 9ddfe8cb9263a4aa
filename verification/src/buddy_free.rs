//! The addresses that the buddy allocator's free lists cover, and how
//! splitting and merging change them.
use vstd::prelude::*;
use vstd::arithmetic::power2::{pow2, lemma_pow2_unfold, lemma_pow2_strictly_increases};
use crate::buddy::{
    blocks_aligned, blocks_disjoint, split_lists, merge_lists, merge_ok, merge_step, buddy_of,
    merged_of, last_index_of, lemma_last_index_of, lemma_buddy_adjacent, lemma_merge_step_disjoint,
    lemma_merged_aligned, first_nonempty, lemma_first_nonempty, range_free_of,
};

verus! {

/// Address `a` lies in one of the free blocks.
pub open spec fn is_free_addr(lists: Seq<Seq<usize>>, a: int) -> bool {
    exists|i: int, j: int|
        0 <= i < lists.len() && 0 <= j < lists[i].len() && #[trigger] lists[i][j] <= a < lists[i][j]
            + pow2(i as nat)
}

/// The addresses covered by the free blocks.
pub open spec fn free_addrs(lists: Seq<Seq<usize>>) -> Set<int> {
    Set::new(|a: int| is_free_addr(lists, a))
}

/// The addresses of `[start, start + len)`.
pub open spec fn span(start: int, len: int) -> Set<int> {
    Set::new(|a: int| start <= a < start + len)
}

/// Pushing a block of class `k` adds exactly its addresses.
pub proof fn lemma_free_addrs_push(lists: Seq<Seq<usize>>, k: int, x: usize)
    requires
        0 <= k < lists.len(),
    ensures
        free_addrs(lists.update(k, lists[k].push(x))) == free_addrs(lists).union(
            span(x as int, pow2(k as nat) as int),
        ),
{
    let l2 = lists.update(k, lists[k].push(x));
    assert forall|a: int| #[trigger] is_free_addr(l2, a) == (is_free_addr(lists, a) || (x <= a < x + pow2(k as nat))) by {
        if is_free_addr(l2, a) {
            let (i, j) = choose|i: int, j: int|
                0 <= i < l2.len() && 0 <= j < l2[i].len() && #[trigger] l2[i][j] <= a < l2[i][j] + pow2(i as nat);
            if !(i == k && j == lists[k].len()) {
                assert(l2[i][j] == lists[i][j]);
            }
        }
        if is_free_addr(lists, a) {
            let (i, j) = choose|i: int, j: int|
                0 <= i < lists.len() && 0 <= j < lists[i].len() && #[trigger] lists[i][j] <= a < lists[i][j] + pow2(i as nat);
            assert(l2[i][j] == lists[i][j]);
        }
        if x <= a < x + pow2(k as nat) {
            assert(l2[k][lists[k].len() as int] == x);
        }
    }
    assert(free_addrs(l2) =~= free_addrs(lists).union(span(x as int, pow2(k as nat) as int)));
}

/// Removing a block from disjoint free lists takes away exactly its
/// addresses.
pub proof fn lemma_free_addrs_remove(lists: Seq<Seq<usize>>, k: int, j: int)
    requires
        blocks_disjoint(lists),
        0 <= k < lists.len(),
        0 <= j < lists[k].len(),
    ensures
        free_addrs(lists.update(k, lists[k].remove(j))) == free_addrs(lists).difference(
            span(lists[k][j] as int, pow2(k as nat) as int),
        ),
        blocks_disjoint(lists.update(k, lists[k].remove(j))),
{
    let l2 = lists.update(k, lists[k].remove(j));
    let x = lists[k][j];
    assert forall|a: int| #[trigger] is_free_addr(l2, a) == (is_free_addr(lists, a) && !(x <= a < x + pow2(k as nat))) by {
        if is_free_addr(l2, a) {
            let (i, m) = choose|i: int, m: int|
                0 <= i < l2.len() && 0 <= m < l2[i].len() && #[trigger] l2[i][m] <= a < l2[i][m] + pow2(i as nat);
            let om = if i == k && m >= j { m + 1 } else { m };
            assert(l2[i][m] == lists[i][om]);
            assert(!crate::buddy::overlaps(lists[i][om] as int, pow2(i as nat) as int, lists[k][j] as int, pow2(k as nat) as int));
        }
        if is_free_addr(lists, a) && !(x <= a < x + pow2(k as nat)) {
            let (i, m) = choose|i: int, m: int|
                0 <= i < lists.len() && 0 <= m < lists[i].len() && #[trigger] lists[i][m] <= a < lists[i][m] + pow2(i as nat);
            let nm = if i == k && m > j { m - 1 } else { m };
            assert(i != k || m != j);
            assert(l2[i][nm] == lists[i][m]);
        }
    }
    assert(free_addrs(l2) =~= free_addrs(lists).difference(span(x as int, pow2(k as nat) as int)));
    assert forall|k1: int, j1: int, k2: int, j2: int|
        0 <= k1 < l2.len() && 0 <= j1 < l2[k1].len() && 0 <= k2 < l2.len() && 0 <= j2 < l2[k2].len()
            && (k1 != k2 || j1 != j2) implies !crate::buddy::overlaps(
            #[trigger] l2[k1][j1] as int,
            pow2(k1 as nat) as int,
            #[trigger] l2[k2][j2] as int,
            pow2(k2 as nat) as int,
        ) by {
        let o1 = if k1 == k && j1 >= j { j1 + 1 } else { j1 };
        let o2 = if k2 == k && j2 >= j { j2 + 1 } else { j2 };
        assert(l2[k1][j1] == lists[k1][o1]);
        assert(l2[k2][j2] == lists[k2][o2]);
    }
}

/// Each free block's addresses are free.
pub proof fn lemma_block_free(lists: Seq<Seq<usize>>, k: int, j: int)
    requires
        0 <= k < lists.len(),
        0 <= j < lists[k].len(),
    ensures
        span(lists[k][j] as int, pow2(k as nat) as int).subset_of(free_addrs(lists)),
{
    assert forall|a: int| #[trigger] span(lists[k][j] as int, pow2(k as nat) as int).contains(a) implies free_addrs(lists).contains(a) by {
        assert(lists[k][j] <= a < lists[k][j] + pow2(k as nat));
    }
}

/// Splitting the head `b` of class `i` down to class `c` takes exactly the
/// addresses of `[b, b + 2^c)` out of the free addresses, all of which were
/// free.
pub proof fn lemma_free_addrs_split(lists: Seq<Seq<usize>>, c: int, i: int, b: usize)
    requires
        blocks_disjoint(lists),
        blocks_aligned(lists),
        0 <= c <= i < lists.len(),
        i < usize::BITS,
        lists[i].len() > 0,
        b == lists[i].last(),
    ensures
        free_addrs(split_lists(lists, c, i, b)) == free_addrs(lists).difference(
            span(b as int, pow2(c as nat) as int),
        ),
        span(b as int, pow2(c as nat) as int).subset_of(free_addrs(lists)),
    decreases i - c,
{
    let last = lists[i].len() - 1;
    assert(lists[i][last] == b);
    lemma_block_free(lists, i, last);
    if c == i {
        assert(split_lists(lists, c, i, b) =~= lists.update(i, lists[i].remove(last)));
        lemma_free_addrs_remove(lists, i, last);
    } else {
        lemma_free_addrs_split(lists, c + 1, i, b);
        let up = split_lists(lists, c + 1, i, b);
        assert((b as int) % (pow2(i as nat) as int) == 0);
        crate::math::lemma_aligned_room(b, i as nat);
        lemma_pow2_unfold((c + 1) as nat);
        if c + 1 < i {
            lemma_pow2_strictly_increases((c + 1) as nat, i as nat);
        }
        let h = (b + pow2(c as nat)) as usize;
        assert(h == b + pow2(c as nat));
        assert(up[c] == lists[c]);
        assert(split_lists(lists, c, i, b) =~= up.update(c, up[c].push(h)));
        lemma_free_addrs_push(up, c, h);
        let f = free_addrs(lists);
        let lo = span(b as int, pow2(c as nat) as int);
        let hi = span(h as int, pow2(c as nat) as int);
        let both = span(b as int, pow2((c + 1) as nat) as int);
        assert(f.difference(both).union(hi) =~= f.difference(lo));
    }
}

/// Merging block `p`, the head of class `c`, with its free buddies leaves
/// the free addresses as they are.
pub proof fn lemma_free_addrs_merge(lists: Seq<Seq<usize>>, p: usize, c: int)
    requires
        merge_ok(lists, p, c),
        blocks_disjoint(lists),
        0 <= c < lists.len(),
        lists.len() <= usize::BITS,
        lists[c].len() > 0,
        lists[c].last() == p,
        (p as int) % (pow2(c as nat) as int) == 0,
    ensures
        free_addrs(merge_lists(lists, p, c)) == free_addrs(lists),
    decreases lists.len() - c,
{
    let b = buddy_of(p, c);
    let k = last_index_of(lists[c], b);
    lemma_last_index_of(lists[c], b);
    if k >= 0 && c + 1 < lists.len() {
        let cc = c as usize;
        assert(cc as int == c);
        lemma_buddy_adjacent(p, cc);
        vstd::arithmetic::power2::lemma_pow2_pos(c as nat);
        assert(b != p);
        let last = lists[c].len() - 1;
        assert(lists[c][last] == p);
        assert(k != last);
        lemma_block_free(lists, c, k);
        lemma_block_free(lists, c, last);
        let l1 = lists.update(c, lists[c].remove(k));
        lemma_free_addrs_remove(lists, c, k);
        assert(l1[c][last - 1] == p);
        let l2 = l1.update(c, l1[c].remove(last - 1));
        lemma_free_addrs_remove(l1, c, last - 1);
        assert(l1[c].remove(last - 1) =~= lists[c].remove(k).drop_last());
        let m = merged_of(p, c);
        let step = merge_step(lists, p, c);
        assert(l2 =~= lists.update(c, lists[c].remove(k).drop_last()));
        assert(step == l2.update(c + 1, l2[c + 1].push(m)));
        lemma_free_addrs_push(l2, c + 1, m);
        lemma_buddy_adjacent(p, cc);
        lemma_pow2_unfold((c + 1) as nat);
        let f = free_addrs(lists);
        let sp = span(p as int, pow2(c as nat) as int);
        let sb = span(b as int, pow2(c as nat) as int);
        let sm = span(m as int, pow2((c + 1) as nat) as int);
        assert(sm =~= sp.union(sb));
        assert(f.difference(sb).difference(sp).union(sm) =~= f);
        lemma_merge_step_disjoint(lists, p, c);
        lemma_merged_aligned(p, cc);
        assert(step[c + 1].last() == m);
        lemma_free_addrs_merge(step, m, c + 1);
        assert(merge_lists(lists, p, c) == merge_lists(step, m, c + 1));
    }
}

/// Handing a block back, after other blocks were freed in between, leaves
/// free exactly the addresses that were free before it was handed out,
/// together with those freed in between.  The block is the one taken for
/// class `c` from `before`: the head of the first nonempty class from `c` on,
/// split down to class `c`.
pub proof fn lemma_free_addrs_restored(
    before: Seq<Seq<usize>>,
    c: int,
    later: Seq<Seq<usize>>,
    freed: Set<int>,
)
    requires
        blocks_disjoint(before),
        blocks_aligned(before),
        before.len() <= usize::BITS,
        0 <= c,
        first_nonempty(before, c) < before.len(),
        ({
            let i = first_nonempty(before, c);
            let b = before[i].last();
            &&& free_addrs(later) == free_addrs(split_lists(before, c, i, b)).union(freed)
            &&& blocks_disjoint(later)
            &&& c < later.len() <= usize::BITS
            &&& range_free_of(later, b as int, pow2(c as nat) as int)
            &&& merge_ok(later.update(c, later[c].push(b)), b, c)
        }),
    ensures
        ({
            let i = first_nonempty(before, c);
            let b = before[i].last();
            free_addrs(merge_lists(later.update(c, later[c].push(b)), b, c)) == free_addrs(before).union(freed)
        }),
{
    lemma_first_nonempty(before, c);
    let i = first_nonempty(before, c);
    let b = before[i].last();
    lemma_free_addrs_split(before, c, i, b);
    let last = before[i].len() - 1;
    assert(before[i][last] == b);
    assert((b as int) % (pow2(i as nat) as int) == 0);
    crate::math::lemma_pow2_divides(b as int, c as nat, i as nat);
    lemma_free_addrs_push(later, c, b);
    crate::buddy::lemma_push_disjoint(later, c, b);
    let pushed = later.update(c, later[c].push(b));
    assert(pushed[c].last() == b);
    lemma_free_addrs_merge(pushed, b, c);
    let f = free_addrs(before);
    let sb = span(b as int, pow2(c as nat) as int);
    assert(f.difference(sb).union(freed).union(sb) =~= f.union(freed));
}

} // verus!
