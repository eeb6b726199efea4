//! The mathematical model of the allocator's free lists.
//!
//! The free lists are a sequence of 32 bins; bin `i` holds the start addresses
//! of free blocks of `2^i` bytes, most recently freed last. A block of bin `i`
//! that starts at `a` covers the bytes `a .. a + 2^i`.

use vstd::prelude::*;
use crate::pow2::{exp2, lemma_exp2_pos, lemma_exp2_le, lemma_aligned_weaken};
use vstd::arithmetic::div_mod::{
    lemma_fundamental_div_mod, lemma_mod_add_multiples_vanish, lemma_mod_multiples_basic,
};

verus! {

/// Number of bins (block sizes `2^0 .. 2^31`).
pub const BINS_SIZE: usize = 32;

/// log2 of the smallest block the allocator hands out.
pub const MIN_SLAB_SIZE_BITS: usize = 3;

/// Byte `x` lies in the block of `2^k` bytes at `a`.
pub open spec fn in_block(x: int, a: int, k: nat) -> bool {
    a <= x < a + exp2(k)
}

/// The bytes of the block of `2^k` bytes at `a`.
pub open spec fn block(a: int, k: nat) -> Set<int> {
    Set::new(|x: int| in_block(x, a, k))
}

/// Byte `x` lies in some free block.
pub open spec fn is_free(bins: Seq<Seq<usize>>, x: int) -> bool {
    exists|i: int, j: int|
        0 <= i < bins.len() && 0 <= j < bins[i].len() && #[trigger] in_block(
            x,
            bins[i][j] as int,
            i as nat,
        )
}

/// All bytes covered by free blocks.
pub open spec fn free_bytes(bins: Seq<Seq<usize>>) -> Set<int> {
    Set::new(|x: int| is_free(bins, x))
}

/// Two blocks share no byte.
pub open spec fn blocks_disjoint(a1: int, k1: nat, a2: int, k2: nat) -> bool {
    a1 + exp2(k1) <= a2 || a2 + exp2(k2) <= a1
}

/// A block of `2^k` bytes at `a` is aligned to its size, starts at a
/// non-null address and lies inside the region `lo .. hi`.
pub open spec fn block_ok(a: int, k: nat, lo: int, hi: int) -> bool {
    &&& a % (exp2(k) as int) == 0
    &&& 0 < a
    &&& lo <= a
    &&& a + exp2(k) <= hi
}

/// The free lists of an allocator managing the region `lo .. hi`: 32 bins,
/// every block aligned to its size and inside the region, and no two blocks
/// sharing a byte.
pub open spec fn bins_wf(bins: Seq<Seq<usize>>, lo: int, hi: int) -> bool {
    &&& bins.len() == BINS_SIZE
    &&& 0 <= lo <= hi <= usize::MAX + 1
    &&& forall|i: int, j: int|
        0 <= i < bins.len() && 0 <= j < bins[i].len() ==> #[trigger] block_ok(
            bins[i][j] as int,
            i as nat,
            lo,
            hi,
        )
    &&& forall|i1: int, j1: int, i2: int, j2: int|
        0 <= i1 < bins.len() && 0 <= j1 < bins[i1].len() && 0 <= i2 < bins.len() && 0 <= j2
            < bins[i2].len() && (i1 != i2 || j1 != j2) ==> blocks_disjoint(
            #[trigger] bins[i1][j1] as int,
            i1 as nat,
            #[trigger] bins[i2][j2] as int,
            i2 as nat,
        )
}

/// 32 empty bins.
pub open spec fn empty_bins() -> Seq<Seq<usize>> {
    Seq::new(BINS_SIZE as nat, |i: int| Seq::<usize>::empty())
}

/// Adds the block at `a` to the front of bin `i`.
pub open spec fn push_block(bins: Seq<Seq<usize>>, i: int, a: usize) -> Seq<Seq<usize>> {
    bins.update(i, bins[i].push(a))
}

/// Takes the `j`-th block out of bin `i`.
pub open spec fn remove_block(bins: Seq<Seq<usize>>, i: int, j: int) -> Seq<Seq<usize>> {
    bins.update(i, bins[i].remove(j))
}

/// Every free byte lies in the region.
pub proof fn lemma_free_in_region(bins: Seq<Seq<usize>>, lo: int, hi: int, x: int)
    requires
        bins_wf(bins, lo, hi),
        is_free(bins, x),
    ensures
        lo <= x < hi,
        0 < x,
{
    let (i, j) = choose|i: int, j: int|
        0 <= i < bins.len() && 0 <= j < bins[i].len() && #[trigger] in_block(
            x,
            bins[i][j] as int,
            i as nat,
        );
    assert(block_ok(bins[i][j] as int, i as nat, lo, hi));
}

/// A well-formed set of bins stays well formed in a larger region.
pub proof fn lemma_wf_widen(bins: Seq<Seq<usize>>, lo: int, hi: int, hi2: int)
    requires
        bins_wf(bins, lo, hi),
        hi <= hi2 <= usize::MAX + 1,
    ensures
        bins_wf(bins, lo, hi2),
{
    assert forall|i: int, j: int| 0 <= i < bins.len() && 0 <= j < bins[i].len() implies #[trigger] block_ok(
        bins[i][j] as int,
        i as nat,
        lo,
        hi2,
    ) by {
        assert(block_ok(bins[i][j] as int, i as nat, lo, hi));
    }
}

/// Adding a block that shares no byte with the free blocks keeps the bins
/// well formed and adds exactly its bytes to the free bytes.
pub proof fn lemma_push(bins: Seq<Seq<usize>>, lo: int, hi: int, i: int, a: usize)
    requires
        bins_wf(bins, lo, hi),
        0 <= i < BINS_SIZE,
        block_ok(a as int, i as nat, lo, hi),
        forall|x: int| in_block(x, a as int, i as nat) ==> !is_free(bins, x),
    ensures
        bins_wf(push_block(bins, i, a), lo, hi),
        free_bytes(push_block(bins, i, a)) == free_bytes(bins) + block(a as int, i as nat),
{
    let nb = push_block(bins, i, a);
    let n = bins[i].len() as int;
    assert forall|i1: int, j1: int| 0 <= i1 < nb.len() && 0 <= j1 < nb[i1].len() implies #[trigger] block_ok(
        nb[i1][j1] as int,
        i1 as nat,
        lo,
        hi,
    ) by {
        if i1 != i || j1 != n {
            assert(nb[i1][j1] == bins[i1][j1]);
            assert(block_ok(bins[i1][j1] as int, i1 as nat, lo, hi));
        }
    }
    assert forall|i1: int, j1: int, i2: int, j2: int|
        0 <= i1 < nb.len() && 0 <= j1 < nb[i1].len() && 0 <= i2 < nb.len() && 0 <= j2
            < nb[i2].len() && (i1 != i2 || j1 != j2) implies blocks_disjoint(
        #[trigger] nb[i1][j1] as int,
        i1 as nat,
        #[trigger] nb[i2][j2] as int,
        i2 as nat,
    ) by {
        let new1 = i1 == i && j1 == n;
        let new2 = i2 == i && j2 == n;
        if !new1 && !new2 {
            assert(nb[i1][j1] == bins[i1][j1]);
            assert(nb[i2][j2] == bins[i2][j2]);
            assert(blocks_disjoint(bins[i1][j1] as int, i1 as nat, bins[i2][j2] as int, i2 as nat));
        } else if new1 {
            assert(nb[i2][j2] == bins[i2][j2]);
            let c = bins[i2][j2] as int;
            if !blocks_disjoint(a as int, i as nat, c, i2 as nat) {
                let x = if a as int <= c { c } else { a as int };
                lemma_exp2_pos(i as nat);
                lemma_exp2_pos(i2 as nat);
                assert(in_block(x, c, i2 as nat));
                assert(is_free(bins, x));
                assert(in_block(x, a as int, i as nat));
            }
        } else {
            assert(nb[i1][j1] == bins[i1][j1]);
            let c = bins[i1][j1] as int;
            if !blocks_disjoint(c, i1 as nat, a as int, i as nat) {
                let x = if a as int <= c { c } else { a as int };
                lemma_exp2_pos(i as nat);
                lemma_exp2_pos(i1 as nat);
                assert(in_block(x, c, i1 as nat));
                assert(is_free(bins, x));
                assert(in_block(x, a as int, i as nat));
            }
        }
    }
    assert forall|x: int| #[trigger]
        free_bytes(nb).contains(x) <==> (free_bytes(bins) + block(a as int, i as nat)).contains(
            x,
        ) by {
        if is_free(nb, x) {
            let (i1, j1) = choose|i1: int, j1: int|
                0 <= i1 < nb.len() && 0 <= j1 < nb[i1].len() && #[trigger] in_block(
                    x,
                    nb[i1][j1] as int,
                    i1 as nat,
                );
            if i1 != i || j1 != n {
                assert(nb[i1][j1] == bins[i1][j1]);
                assert(in_block(x, bins[i1][j1] as int, i1 as nat));
            }
        }
        if is_free(bins, x) {
            let (i1, j1) = choose|i1: int, j1: int|
                0 <= i1 < bins.len() && 0 <= j1 < bins[i1].len() && #[trigger] in_block(
                    x,
                    bins[i1][j1] as int,
                    i1 as nat,
                );
            assert(nb[i1][j1] == bins[i1][j1]);
            assert(in_block(x, nb[i1][j1] as int, i1 as nat));
        }
        if in_block(x, a as int, i as nat) {
            assert(nb[i][n] == a);
            assert(in_block(x, nb[i][n] as int, i as nat));
        }
    }
    assert(free_bytes(nb) =~= free_bytes(bins) + block(a as int, i as nat));
}

/// Taking a block out keeps the bins well formed and removes exactly its
/// bytes from the free bytes.
pub proof fn lemma_remove(bins: Seq<Seq<usize>>, lo: int, hi: int, i: int, j: int)
    requires
        bins_wf(bins, lo, hi),
        0 <= i < bins.len(),
        0 <= j < bins[i].len(),
    ensures
        bins_wf(remove_block(bins, i, j), lo, hi),
        free_bytes(remove_block(bins, i, j)) == free_bytes(bins) - block(
            bins[i][j] as int,
            i as nat,
        ),
        block(bins[i][j] as int, i as nat).subset_of(free_bytes(bins)),
{
    let nb = remove_block(bins, i, j);
    let a = bins[i][j] as int;
    // position in the old bins of an entry of the new ones
    let old_j = |i1: int, j1: int| if i1 == i && j1 >= j { j1 + 1 } else { j1 };
    assert forall|i1: int, j1: int| 0 <= i1 < nb.len() && 0 <= j1 < nb[i1].len() implies #[trigger] block_ok(
        nb[i1][j1] as int,
        i1 as nat,
        lo,
        hi,
    ) by {
        assert(nb[i1][j1] == bins[i1][old_j(i1, j1)]);
        assert(block_ok(bins[i1][old_j(i1, j1)] as int, i1 as nat, lo, hi));
    }
    assert forall|i1: int, j1: int, i2: int, j2: int|
        0 <= i1 < nb.len() && 0 <= j1 < nb[i1].len() && 0 <= i2 < nb.len() && 0 <= j2
            < nb[i2].len() && (i1 != i2 || j1 != j2) implies blocks_disjoint(
        #[trigger] nb[i1][j1] as int,
        i1 as nat,
        #[trigger] nb[i2][j2] as int,
        i2 as nat,
    ) by {
        let o1 = old_j(i1, j1);
        let o2 = old_j(i2, j2);
        assert(nb[i1][j1] == bins[i1][o1]);
        assert(nb[i2][j2] == bins[i2][o2]);
        assert(blocks_disjoint(bins[i1][o1] as int, i1 as nat, bins[i2][o2] as int, i2 as nat));
    }
    assert forall|x: int| #[trigger]
        free_bytes(nb).contains(x) <==> (free_bytes(bins) - block(a, i as nat)).contains(x) by {
        if is_free(nb, x) {
            let (i1, j1) = choose|i1: int, j1: int|
                0 <= i1 < nb.len() && 0 <= j1 < nb[i1].len() && #[trigger] in_block(
                    x,
                    nb[i1][j1] as int,
                    i1 as nat,
                );
            let o1 = old_j(i1, j1);
            assert(nb[i1][j1] == bins[i1][o1]);
            assert(in_block(x, bins[i1][o1] as int, i1 as nat));
            assert(blocks_disjoint(bins[i1][o1] as int, i1 as nat, bins[i][j] as int, i as nat));
        }
        if is_free(bins, x) && !in_block(x, a, i as nat) {
            let (i1, j1) = choose|i1: int, j1: int|
                0 <= i1 < bins.len() && 0 <= j1 < bins[i1].len() && #[trigger] in_block(
                    x,
                    bins[i1][j1] as int,
                    i1 as nat,
                );
            let n1 = if i1 == i && j1 > j { j1 - 1 } else { j1 };
            assert(nb[i1][n1] == bins[i1][j1]);
            assert(in_block(x, nb[i1][n1] as int, i1 as nat));
        }
    }
    assert(free_bytes(nb) =~= free_bytes(bins) - block(a, i as nat));
    assert forall|x: int| block(a, i as nat).contains(x) implies #[trigger] free_bytes(
        bins,
    ).contains(x) by {
        assert(in_block(x, bins[i][j] as int, i as nat));
    }
}


/// Bin `i` gives up its front block, at `a`; of the `2^i` bytes at `a`, the
/// first `2^k` are handed out and, for each `j` from `k` to `i - 1`, the upper
/// half at `a + 2^j` of the first `2^(j+1)` bytes goes to the front of bin `j`.
pub open spec fn split(bins: Seq<Seq<usize>>, i: int, k: int, a: usize) -> Seq<Seq<usize>>
    decreases i - k,
{
    if k >= i {
        remove_block(bins, i, bins[i].len() - 1)
    } else {
        push_block(split(bins, i, k + 1, a), k, (a + exp2(k as nat)) as usize)
    }
}

/// The block that the block of `2^i` bytes at `a` merges with: its other half
/// in the aligned block of `2^(i+1)` bytes.
pub open spec fn buddy(a: int, i: nat) -> int {
    if (a / (exp2(i) as int)) % 2 == 0 {
        a + exp2(i)
    } else {
        a - exp2(i)
    }
}

/// Bin `s` holds a block at `x`.
pub open spec fn bin_has(s: Seq<usize>, x: int) -> bool {
    exists|j: int| 0 <= j < s.len() && s[j] as int == x
}

/// A position of `x` in bin `s`.
pub open spec fn bin_pos(s: Seq<usize>, x: int) -> int {
    choose|j: int| 0 <= j < s.len() && s[j] as int == x
}

/// Freeing the block of `2^i` bytes at `a`: while its buddy is free in bin
/// `i`, the buddy leaves bin `i` and the two merge into the block of
/// `2^(i+1)` bytes at the lower of the two addresses; the first block whose
/// buddy is not free goes to the front of its bin. A block that merges into
/// `2^32` bytes is not kept.
pub open spec fn coalesce(bins: Seq<Seq<usize>>, a: int, i: nat) -> Seq<Seq<usize>>
    decreases 32 - i,
{
    if i >= 32 {
        bins
    } else {
        let b = buddy(a, i);
        if bin_has(bins[i as int], b) {
            let m = if a < b { a } else { b };
            coalesce(remove_block(bins, i as int, bin_pos(bins[i as int], b)), m, i + 1)
        } else {
            push_block(bins, i as int, a as usize)
        }
    }
}

/// The block that freeing the block of `2^i` bytes at `a` ends with: the one
/// that goes into a bin, or the one of `2^32` bytes that is not kept.
pub open spec fn coalesce_end(bins: Seq<Seq<usize>>, a: int, i: nat) -> (int, nat)
    decreases 32 - i,
{
    if i >= 32 {
        (a, i)
    } else {
        let b = buddy(a, i);
        if bin_has(bins[i as int], b) {
            let m = if a < b { a } else { b };
            coalesce_end(remove_block(bins, i as int, bin_pos(bins[i as int], b)), m, i + 1)
        } else {
            (a, i)
        }
    }
}

/// The bytes that freeing the block of `2^i` bytes at `a` loses: the merged
/// block of `2^32` bytes, if merging gets that far; otherwise none.
pub open spec fn coalesce_lost(bins: Seq<Seq<usize>>, a: int, i: nat) -> Set<int> {
    let (ea, ei) = coalesce_end(bins, a, i);
    if ei >= 32 {
        block(ea, ei)
    } else {
        Set::empty()
    }
}

/// Splitting: the front block of bin `i` leaves, the upper halves go to bins
/// `k .. i`, the free bytes lose exactly the first `2^k` bytes of that block,
/// and the bins stay well formed.
pub proof fn lemma_split(bins: Seq<Seq<usize>>, lo: int, hi: int, i: int, k: int)
    requires
        bins_wf(bins, lo, hi),
        0 <= k <= i < BINS_SIZE,
        bins[i].len() > 0,
    ensures
        ({
            let a = bins[i].last();
            let s = split(bins, i, k, a);
            &&& bins_wf(s, lo, hi)
            &&& free_bytes(s) == free_bytes(bins) - block(a as int, k as nat)
            &&& block(a as int, k as nat).subset_of(free_bytes(bins))
            &&& s.len() == bins.len()
            &&& forall|j: int|
                0 <= j < s.len() ==> #[trigger] s[j] == (if j == i {
                    bins[j].drop_last()
                } else if k <= j < i {
                    bins[j].push((a + exp2(j as nat)) as usize)
                } else {
                    bins[j]
                })
        }),
    decreases i - k,
{
    let n = bins[i].len() - 1;
    let a = bins[i].last();
    assert(bins[i][n] == a);
    assert(block_ok(a as int, i as nat, lo, hi));
    lemma_remove(bins, lo, hi, i, n);
    assert(bins[i].remove(n) =~= bins[i].drop_last());
    if k >= i {
    } else {
        lemma_split(bins, lo, hi, i, k + 1);
        let s1 = split(bins, i, k + 1, a);
        let p = exp2(k as nat) as int;
        let c = a + p;
        lemma_exp2_pos(k as nat);
        lemma_exp2_le((k + 1) as nat, i as nat);
        assert(exp2((k + 1) as nat) == 2 * p);
        lemma_aligned_weaken(a as int, k as nat, i as nat);
        lemma_mod_add_multiples_vanish(a as int, p);
        assert(c % p == 0);
        assert(block_ok(c, k as nat, lo, hi));
        assert forall|x: int| in_block(x, c, k as nat) implies !is_free(s1, x) by {
            assert(!free_bytes(s1).contains(x));
        }
        lemma_push(s1, lo, hi, k, c as usize);
        let s = split(bins, i, k, a);
        assert(block(a as int, (k + 1) as nat).subset_of(block(a as int, i as nat)));
        assert(free_bytes(s) =~= free_bytes(bins) - block(a as int, k as nat));
        assert forall|j: int| 0 <= j < s.len() implies #[trigger] s[j] == (if j == i {
            bins[j].drop_last()
        } else if k <= j < i {
            bins[j].push((a + exp2(j as nat)) as usize)
        } else {
            bins[j]
        }) by {
            assert(s1[j] == (if j == i {
                bins[j].drop_last()
            } else if k + 1 <= j < i {
                bins[j].push((a + exp2(j as nat)) as usize)
            } else {
                bins[j]
            }));
        }
    }
}

/// A block and its buddy are disjoint and together form the aligned block of
/// twice the size at the lower of the two addresses.
pub proof fn lemma_buddy(a: int, i: nat)
    requires
        a % (exp2(i) as int) == 0,
    ensures
        ({
            let b = buddy(a, i);
            let m = if a < b { a } else { b };
            &&& b % (exp2(i) as int) == 0
            &&& m % (exp2(i + 1) as int) == 0
            &&& (a < b ==> b == a + exp2(i))
            &&& (b < a ==> a == b + exp2(i))
            &&& a != b
            &&& block(m, i + 1) == block(a, i) + block(b, i)
            &&& blocks_disjoint(a, i, b, i)
        }),
{
    let p = exp2(i) as int;
    lemma_exp2_pos(i);
    assert(exp2(i + 1) == 2 * exp2(i));
    let q = a / p;
    lemma_fundamental_div_mod(a, p);
    assert(a == p * q);
    let b = buddy(a, i);
    let m = if a < b { a } else { b };
    if q % 2 == 0 {
        let r = q / 2;
        assert(a == r * (2 * p)) by (nonlinear_arith)
            requires
                a == p * q,
                q == 2 * r,
        ;
        lemma_mod_multiples_basic(r, 2 * p);
        assert(b == p * (q + 1)) by (nonlinear_arith)
            requires
                a == p * q,
                b == a + p,
        ;
        lemma_mod_multiples_basic(q + 1, p);
        assert((q + 1) * p == p * (q + 1)) by (nonlinear_arith);
    } else {
        let r = (q - 1) / 2;
        assert(b == r * (2 * p)) by (nonlinear_arith)
            requires
                a == p * q,
                q - 1 == 2 * r,
                b == a - p,
        ;
        lemma_mod_multiples_basic(r, 2 * p);
        lemma_mod_multiples_basic(q - 1, p);
        assert((q - 1) * p == b) by (nonlinear_arith)
            requires
                a == p * q,
                b == a - p,
        ;
    }
    assert(block(m, i + 1) =~= block(a, i) + block(b, i));
}

/// Freeing a block that is aligned, inside the region and not free keeps the
/// bins well formed and adds its bytes to the free bytes, less what merging
/// into a block of `2^32` bytes loses.
pub proof fn lemma_coalesce(bins: Seq<Seq<usize>>, lo: int, hi: int, a: int, i: nat)
    requires
        bins_wf(bins, lo, hi),
        block_ok(a, i, lo, hi),
        forall|x: int| in_block(x, a, i) ==> !is_free(bins, x),
    ensures
        bins_wf(coalesce(bins, a, i), lo, hi),
        free_bytes(coalesce(bins, a, i)) == (free_bytes(bins) + block(a, i)) - coalesce_lost(
            bins,
            a,
            i,
        ),
        coalesce_lost(bins, a, i).disjoint(free_bytes(coalesce(bins, a, i))),
        i <= 32 ==> coalesce_end(bins, a, i).1 <= 32,
        coalesce_end(bins, a, i).1 >= 32 ==> block_ok(
            coalesce_end(bins, a, i).0,
            coalesce_end(bins, a, i).1,
            lo,
            hi,
        ),
    decreases 32 - i,
{
    lemma_exp2_pos(i);
    if i >= 32 {
        assert(free_bytes(bins) =~= (free_bytes(bins) + block(a, i)) - block(a, i));
    } else {
        let b = buddy(a, i);
        if bin_has(bins[i as int], b) {
            let j = bin_pos(bins[i as int], b);
            assert(bins[i as int][j] as int == b);
            let ii = i as int;
            assert(0 <= j < bins[ii].len());
            assert(0 <= ii < bins.len());
            assert(block_ok(bins[ii][j] as int, ii as nat, lo, hi));
            lemma_buddy(a, i);
            let m = if a < b { a } else { b };
            lemma_remove(bins, lo, hi, i as int, j);
            let bins1 = remove_block(bins, i as int, j);
            assert(block_ok(m, i + 1, lo, hi));
            assert forall|x: int| in_block(x, m, i + 1) implies !is_free(bins1, x) by {
                assert(block(m, i + 1).contains(x));
                if in_block(x, a, i) {
                    assert(!free_bytes(bins).contains(x));
                } else {
                    assert(block(b, i).contains(x));
                }
                assert(!free_bytes(bins1).contains(x));
            }
            lemma_coalesce(bins1, lo, hi, m, i + 1);
            assert(coalesce(bins, a, i) == coalesce(bins1, m, i + 1));
            assert(coalesce_lost(bins, a, i) == coalesce_lost(bins1, m, i + 1));
            assert(coalesce_end(bins, a, i) == coalesce_end(bins1, m, i + 1));
            assert((free_bytes(bins1) + block(m, i + 1)) =~= free_bytes(bins) + block(a, i));
        } else {
            assert forall|x: int| in_block(x, a, i) implies !is_free(bins, x) by {}
            lemma_push(bins, lo, hi, i as int, a as usize);
            assert(coalesce_lost(bins, a, i) =~= Set::<int>::empty());
            assert(free_bytes(coalesce(bins, a, i)) =~= (free_bytes(bins) + block(a, i))
                - coalesce_lost(bins, a, i));
        }
    }
}

/// `a` is a multiple of `2^k`.
pub open spec fn aligned(a: int, k: nat) -> bool {
    a % (exp2(k) as int) == 0
}

/// The region `lo .. hi` holds no aligned block of `2^32` bytes, so no
/// merging of free blocks inside it reaches that size.
pub open spec fn region_small(lo: int, hi: int) -> bool {
    forall|a: int| lo <= a && a + exp2(32) <= hi ==> !#[trigger] aligned(a, 32)
}

/// In a region without an aligned block of `2^32` bytes, freeing a block
/// never loses bytes to merging.
pub proof fn lemma_no_loss(bins: Seq<Seq<usize>>, lo: int, hi: int, a: int, i: nat)
    requires
        bins_wf(bins, lo, hi),
        block_ok(a, i, lo, hi),
        forall|x: int| in_block(x, a, i) ==> !is_free(bins, x),
        region_small(lo, hi),
        i < 32,
    ensures
        coalesce_lost(bins, a, i) == Set::<int>::empty(),
        free_bytes(coalesce(bins, a, i)) == free_bytes(bins) + block(a, i),
{
    lemma_coalesce(bins, lo, hi, a, i);
    let (ea, ei) = coalesce_end(bins, a, i);
    if ei >= 32 {
        assert(block_ok(ea, ei, lo, hi));
        assert(ei == 32);
        assert(aligned(ea, 32));
    }
    assert((free_bytes(bins) + block(a, i)) - Set::<int>::empty() =~= free_bytes(bins) + block(a, i));
}

/// The blocks of `2^i` bytes at `x` and `y` are the lower and the upper half
/// of one aligned block of `2^(i+1)` bytes.
pub open spec fn halves(x: int, y: int, i: nat) -> bool {
    x % (exp2(i + 1) as int) == 0 && y == x + exp2(i)
}

/// No bin holds both halves of an aligned block of twice its size: every
/// pair of free blocks that could merge has merged.
pub open spec fn fully_merged(bins: Seq<Seq<usize>>) -> bool {
    forall|i: int, j1: int, j2: int|
        0 <= i < bins.len() && 0 <= j1 < bins[i].len() && 0 <= j2 < bins[i].len() ==> !halves(
            #[trigger] bins[i][j1] as int,
            #[trigger] bins[i][j2] as int,
            i as nat,
        )
}

/// Every block of bin `i` starts at a multiple of `2^i`.
pub open spec fn all_aligned(bins: Seq<Seq<usize>>) -> bool {
    forall|i: int, j: int|
        0 <= i < bins.len() && 0 <= j < bins[i].len() ==> (#[trigger] bins[i][j] as int) % (exp2(
            i as nat,
        ) as int) == 0
}

/// For blocks aligned to their size, the buddy of `a` is `b` exactly when
/// the two are the halves of one block of twice the size.
pub proof fn lemma_buddy_halves(a: int, b: int, i: nat)
    requires
        a % (exp2(i) as int) == 0,
        b % (exp2(i) as int) == 0,
    ensures
        b == buddy(a, i) <==> (halves(a, b, i) || halves(b, a, i)),
{
    let p = exp2(i) as int;
    lemma_exp2_pos(i);
    assert(exp2(i + 1) == 2 * exp2(i));
    lemma_buddy(a, i);
    lemma_fundamental_div_mod(a, p);
    let q = a / p;
    assert(a == p * q);
    if halves(a, b, i) {
        lemma_fundamental_div_mod(a, 2 * p);
        let r = a / (2 * p);
        assert(q == 2 * r) by (nonlinear_arith)
            requires
                a == p * q,
                a == (2 * p) * r,
                p > 0,
        ;
    }
    if halves(b, a, i) {
        lemma_fundamental_div_mod(b, 2 * p);
        let r = b / (2 * p);
        assert(q == 2 * r + 1) by (nonlinear_arith)
            requires
                a == p * q,
                b == (2 * p) * r,
                a == b + p,
                p > 0,
        ;
    }
}

/// Taking a block out keeps every bin fully merged.
pub proof fn lemma_remove_merged(bins: Seq<Seq<usize>>, i: int, j: int)
    requires
        fully_merged(bins),
        0 <= i < bins.len(),
        0 <= j < bins[i].len(),
    ensures
        fully_merged(remove_block(bins, i, j)),
{
    let nb = remove_block(bins, i, j);
    assert forall|i1: int, j1: int, j2: int|
        0 <= i1 < nb.len() && 0 <= j1 < nb[i1].len() && 0 <= j2 < nb[i1].len() implies !halves(
        #[trigger] nb[i1][j1] as int,
        #[trigger] nb[i1][j2] as int,
        i1 as nat,
    ) by {
        let o1 = if i1 == i && j1 >= j { j1 + 1 } else { j1 };
        let o2 = if i1 == i && j2 >= j { j2 + 1 } else { j2 };
        assert(nb[i1][j1] == bins[i1][o1]);
        assert(nb[i1][j2] == bins[i1][o2]);
        assert(!halves(bins[i1][o1] as int, bins[i1][o2] as int, i1 as nat));
    }
}

/// Adding an aligned block whose buddy is not in its bin keeps every bin
/// fully merged.
pub proof fn lemma_push_merged(bins: Seq<Seq<usize>>, i: int, a: usize)
    requires
        fully_merged(bins),
        all_aligned(bins),
        0 <= i < bins.len(),
        (a as int) % (exp2(i as nat) as int) == 0,
        !bin_has(bins[i], buddy(a as int, i as nat)),
    ensures
        fully_merged(push_block(bins, i, a)),
{
    let nb = push_block(bins, i, a);
    let n = bins[i].len() as int;
    lemma_exp2_pos(i as nat);
    assert forall|i1: int, j1: int, j2: int|
        0 <= i1 < nb.len() && 0 <= j1 < nb[i1].len() && 0 <= j2 < nb[i1].len() implies !halves(
        #[trigger] nb[i1][j1] as int,
        #[trigger] nb[i1][j2] as int,
        i1 as nat,
    ) by {
        let new1 = i1 == i && j1 == n;
        let new2 = i1 == i && j2 == n;
        if !new1 && !new2 {
            assert(nb[i1][j1] == bins[i1][j1]);
            assert(nb[i1][j2] == bins[i1][j2]);
            assert(!halves(bins[i1][j1] as int, bins[i1][j2] as int, i1 as nat));
        } else if new1 && new2 {
        } else if new1 {
            let y = bins[i][j2];
            assert(nb[i1][j2] == y);
            assert((y as int) % (exp2(i as nat) as int) == 0);
            lemma_buddy_halves(a as int, y as int, i as nat);
            if halves(a as int, y as int, i as nat) {
                assert(bin_has(bins[i], buddy(a as int, i as nat)));
            }
        } else {
            let x = bins[i][j1];
            assert(nb[i1][j1] == x);
            assert((x as int) % (exp2(i as nat) as int) == 0);
            lemma_buddy_halves(a as int, x as int, i as nat);
            if halves(x as int, a as int, i as nat) {
                assert(bin_has(bins[i], buddy(a as int, i as nat)));
            }
        }
    }
}

pub proof fn lemma_wf_aligned(bins: Seq<Seq<usize>>, lo: int, hi: int)
    requires
        bins_wf(bins, lo, hi),
    ensures
        all_aligned(bins),
{
    assert forall|i: int, j: int| 0 <= i < bins.len() && 0 <= j < bins[i].len() implies (
    #[trigger] bins[i][j] as int) % (exp2(i as nat) as int) == 0 by {
        assert(block_ok(bins[i][j] as int, i as nat, lo, hi));
    }
}

/// Freeing a block leaves every bin fully merged: the freed block merges
/// with its buddy wherever that buddy stands in its bin, as far as it goes.
pub proof fn law_dealloc_fully_merges(bins: Seq<Seq<usize>>, lo: int, hi: int, a: int, i: nat)
    requires
        bins_wf(bins, lo, hi),
        fully_merged(bins),
        block_ok(a, i, lo, hi),
        forall|x: int| in_block(x, a, i) ==> !is_free(bins, x),
    ensures
        fully_merged(coalesce(bins, a, i)),
    decreases 32 - i,
{
    lemma_exp2_pos(i);
    if i < 32 {
        let b = buddy(a, i);
        if bin_has(bins[i as int], b) {
            let j = bin_pos(bins[i as int], b);
            let ii = i as int;
            assert(0 <= j < bins[ii].len());
            assert(0 <= ii < bins.len());
            assert(block_ok(bins[ii][j] as int, ii as nat, lo, hi));
            lemma_buddy(a, i);
            let m = if a < b { a } else { b };
            lemma_remove(bins, lo, hi, i as int, j);
            lemma_remove_merged(bins, i as int, j);
            let bins1 = remove_block(bins, i as int, j);
            assert(block_ok(m, i + 1, lo, hi));
            assert forall|x: int| in_block(x, m, i + 1) implies !is_free(bins1, x) by {
                assert(block(m, i + 1).contains(x));
                if in_block(x, a, i) {
                    assert(!free_bytes(bins).contains(x));
                } else {
                    assert(block(b, i).contains(x));
                }
                assert(!free_bytes(bins1).contains(x));
            }
            law_dealloc_fully_merges(bins1, lo, hi, m, i + 1);
        } else {
            lemma_wf_aligned(bins, lo, hi);
            lemma_push_merged(bins, i as int, a as usize);
        }
    }
}

/// Splitting a block leaves every bin fully merged: each upper half goes to
/// a bin whose lower half is the block handed out.
pub proof fn lemma_split_merged(bins: Seq<Seq<usize>>, lo: int, hi: int, i: int, k: int)
    requires
        bins_wf(bins, lo, hi),
        fully_merged(bins),
        0 <= k <= i < BINS_SIZE,
        bins[i].len() > 0,
    ensures
        fully_merged(split(bins, i, k, bins[i].last())),
    decreases i - k,
{
    let n = bins[i].len() - 1;
    let a = bins[i].last();
    if k >= i {
        lemma_remove_merged(bins, i, n);
    } else {
        lemma_split_merged(bins, lo, hi, i, k + 1);
        lemma_split(bins, lo, hi, i, k + 1);
        let s1 = split(bins, i, k + 1, a);
        lemma_wf_aligned(s1, lo, hi);
        assert(bins[i][n] == a);
        assert(block_ok(bins[i][n] as int, i as nat, lo, hi));
        let p = exp2(k as nat) as int;
        let c = a + p;
        lemma_exp2_pos(k as nat);
        lemma_aligned_weaken(a as int, (k + 1) as nat, i as nat);
        lemma_aligned_weaken(a as int, k as nat, i as nat);
        lemma_mod_add_multiples_vanish(a as int, p);
        crate::pow2::lemma_exp2_lt(k as nat, i as nat);
        assert(c < hi);
        assert(c % p == 0);
        assert(halves(a as int, c, k as nat));
        lemma_buddy_halves(c, a as int, k as nat);
        assert(buddy(c, k as nat) == a);
        if bin_has(s1[k], a as int) {
            let j = choose|j: int| 0 <= j < s1[k].len() && s1[k][j] as int == a;
            assert(in_block(a as int, s1[k][j] as int, k as nat));
            assert(free_bytes(s1).contains(a as int));
            assert(block(a as int, (k + 1) as nat).contains(a as int));
        }
        lemma_push_merged(s1, k, c as usize);
    }
}

} // verus!
