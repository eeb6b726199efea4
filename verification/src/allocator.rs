//! A simple allocator that allocates based on size classes: a binary buddy
//! allocator whose free lists are the bins of `crate::bins`.

use vstd::prelude::*;
use crate::pow2::{
    exp2, is_pow2, lemma_aligned_weaken, lemma_exp2_split, lemma_exp2_le, lemma_exp2_le_inv, lemma_exp2_pos,
    lemma_exp2_values, is_power_of_two, pow2_u64,
};
use crate::bins::{
    bins_wf, block, block_ok, coalesce, empty_bins, free_bytes, in_block, is_free,
    push_block, remove_block, split, buddy, bin_has, bin_pos, lemma_coalesce, lemma_free_in_region,
    lemma_push, lemma_remove, lemma_split, lemma_wf_widen, BINS_SIZE, MIN_SLAB_SIZE_BITS,
    aligned, region_small, lemma_no_loss, fully_merged, halves, all_aligned, lemma_buddy_halves,
    lemma_push_merged, lemma_split_merged, law_dealloc_fully_merges,
};

verus! {

/// The size and alignment of a requested block of memory.
#[derive(Clone, Copy, Debug, PartialEq, Eq, Structural)]
pub struct Layout {
    pub size: usize,
    pub align: usize,
}

impl Layout {
    pub fn from_size_align(size: usize, align: usize) -> (l: Layout)
        ensures
            l.size == size,
            l.align == align,
    {
        Layout { size, align }
    }

    pub fn size(&self) -> (r: usize)
        ensures
            r == self.size,
    {
        self.size
    }

    pub fn align(&self) -> (r: usize)
        ensures
            r == self.align,
    {
        self.align
    }
}

/// Why an allocation failed.
#[derive(Clone, Copy, Debug, PartialEq, Eq)]
pub enum AllocErr {
    /// No free block is large enough for the request.
    Exhausted { request: Layout },
    /// The request does not meet the allocator's size or alignment constraints.
    Unsupported { details: &'static str },
}

/// The bin index of a request: the smallest `k >= 3` (the smallest block is
/// 8 bytes) with `2^k` at least the size and the alignment; 64 when there is none.
pub open spec fn size_class(size: int, align: int) -> nat {
    size_class_from(size, align, MIN_SLAB_SIZE_BITS as nat)
}

pub open spec fn size_class_from(size: int, align: int, k: nat) -> nat
    decreases 64 - k,
{
    if k >= 64 || (size <= exp2(k) && align <= exp2(k)) {
        k
    } else {
        size_class_from(size, align, k + 1)
    }
}

/// The first bin from `k` on that holds a block; 32 (or `k`, if larger) when
/// there is none.
pub open spec fn first_fit(bins: Seq<Seq<usize>>, k: nat) -> nat
    decreases 32 - k,
{
    if k >= 32 || bins[k as int].len() > 0 {
        k
    } else {
        first_fit(bins, k + 1)
    }
}

/// log2 of the largest power of two that divides `s` and is at most `rem`,
/// searching upwards from `2^k`.
pub open spec fn block_exp_from(s: int, rem: int, k: nat) -> nat
    decreases 64 - k,
{
    if k < 63 && exp2(k + 1) <= rem && s % (exp2(k + 1) as int) == 0 {
        block_exp_from(s, rem, k + 1)
    } else {
        k
    }
}

/// log2 of the largest power of two that divides `s` and is at most `rem`.
pub open spec fn block_exp(s: int, rem: int) -> nat {
    block_exp_from(s, rem, 0)
}

/// The region `s .. e` cuts into blocks, each the largest power of two that
/// divides its start and fits in what is left, that all start at a non-null
/// address and are smaller than `2^32` bytes.
pub open spec fn region_fits(s: int, e: int) -> bool
    decreases e - s
    via cut_decreases
{
    if s >= e {
        true
    } else {
        let k = block_exp(s, e - s);
        &&& s > 0
        &&& k < 32
        &&& region_fits(s + exp2(k), e)
    }
}

/// The bins after cutting the region `s .. e` into blocks as `region_fits`
/// describes and adding every block of at least 8 bytes to the front of its bin.
pub open spec fn carve(bins: Seq<Seq<usize>>, s: int, e: int) -> Seq<Seq<usize>>
    decreases e - s
    via carve_decreases
{
    if s >= e {
        bins
    } else {
        let k = block_exp(s, e - s);
        let next = if MIN_SLAB_SIZE_BITS <= k < BINS_SIZE {
            push_block(bins, k as int, s as usize)
        } else {
            bins
        };
        carve(next, s + exp2(k), e)
    }
}

#[via_fn]
proof fn cut_decreases(s: int, e: int) {
    if s < e {
        assert(exp2(0) == 1);
        lemma_block_exp(s, e - s, 0);
        lemma_exp2_pos(block_exp(s, e - s));
    }
}

#[via_fn]
proof fn carve_decreases(bins: Seq<Seq<usize>>, s: int, e: int) {
    if s < e {
        assert(exp2(0) == 1);
        lemma_block_exp(s, e - s, 0);
        lemma_exp2_pos(block_exp(s, e - s));
    }
}

pub open spec fn view_of(bins: Seq<Vec<usize>>) -> Seq<Seq<usize>> {
    Seq::new(bins.len(), |i: int| bins[i]@)
}

/// A simple allocator that allocates based on size classes.
pub struct Allocator {
    bins: Vec<Vec<usize>>,
    lo: Ghost<int>,
    hi: Ghost<int>,
}

impl View for Allocator {
    type V = Seq<Seq<usize>>;

    closed spec fn view(&self) -> Seq<Seq<usize>> {
        view_of(self.bins@)
    }
}

pub proof fn lemma_size_class(size: int, align: int, k: nat)
    requires
        k <= 64,
    ensures
        size_class_from(size, align, k) >= k,
        size_class_from(size, align, k) <= 64,
        size_class_from(size, align, k) < 64 ==> size <= exp2(size_class_from(size, align, k))
            && align <= exp2(size_class_from(size, align, k)),
    decreases 64 - k,
{
    if k < 64 && !(size <= exp2(k) && align <= exp2(k)) {
        lemma_size_class(size, align, k + 1);
    }
}

pub proof fn lemma_first_fit(bins: Seq<Seq<usize>>, k: nat)
    requires
        bins.len() == BINS_SIZE,
    ensures
        first_fit(bins, k) >= k,
        first_fit(bins, k) < 32 ==> bins[first_fit(bins, k) as int].len() > 0,
    decreases 32 - k,
{
    if k < 32 && bins[k as int].len() == 0 {
        lemma_first_fit(bins, k + 1);
    }
}

pub proof fn lemma_block_exp(s: int, rem: int, k: nat)
    requires
        k <= 63,
        exp2(k) <= rem,
        s % (exp2(k) as int) == 0,
    ensures
        exp2(block_exp_from(s, rem, k)) <= rem,
        s % (exp2(block_exp_from(s, rem, k)) as int) == 0,
        block_exp_from(s, rem, k) <= 63,
    decreases 64 - k,
{
    if k < 63 && exp2(k + 1) <= rem && s % (exp2(k + 1) as int) == 0 {
        lemma_block_exp(s, rem, k + 1);
    }
}

pub proof fn lemma_block_exp_ge(s: int, rem: int, k: nat)
    ensures
        block_exp_from(s, rem, k) >= k,
    decreases 64 - k,
{
    if k < 63 && exp2(k + 1) <= rem && s % (exp2(k + 1) as int) == 0 {
        lemma_block_exp_ge(s, rem, k + 1);
    }
}

/// The search for the largest dividing power of two gets at least as far as
/// any power of two that divides `s` and fits in `rem`.
pub proof fn lemma_block_exp_min(s: int, rem: int, k: nat, m: nat)
    requires
        k <= m <= 63,
        s % (exp2(m) as int) == 0,
        exp2(m) <= rem,
    ensures
        block_exp_from(s, rem, k) >= m,
    decreases m - k,
{
    lemma_block_exp_ge(s, rem, k);
    if k < m {
        lemma_exp2_le(k + 1, m);
        lemma_aligned_weaken(s, k + 1, m);
        lemma_block_exp_min(s, rem, k + 1, m);
    }
}

/// A region that `new` accepts holds no aligned block of `2^32` bytes.
pub proof fn lemma_fits_small(s: int, e: int)
    requires
        region_fits(s, e),
    ensures
        region_small(s, e),
    decreases e - s,
{
    lemma_exp2_pos(32);
    if s < e {
        let k = block_exp(s, e - s);
        assert(exp2(0) == 1);
        lemma_block_exp(s, e - s, 0);
        let p = exp2(k) as int;
        lemma_exp2_pos(k);
        lemma_fits_small(s + p, e);
        assert forall|a: int| s <= a && a + exp2(32) <= e implies !#[trigger] aligned(a, 32) by {
            if aligned(a, 32) && a < s + p {
                lemma_aligned_weaken(a, k, 32);
                vstd::arithmetic::div_mod::lemma_fundamental_div_mod(a, p);
                vstd::arithmetic::div_mod::lemma_fundamental_div_mod(s, p);
                let qa = a / p;
                let qs = s / p;
                assert(qa == qs) by (nonlinear_arith)
                    requires
                        a == p * qa,
                        s == p * qs,
                        s <= a < s + p,
                        p >= 1,
                ;
                assert(a == s);
                lemma_exp2_values();
                lemma_block_exp_min(s, e - s, 0, 32);
            }
        }
    }
}

/// The first multiple of 8 at or after `s`.
pub open spec fn round_up8(s: int) -> int {
    if s % 8 == 0 {
        s
    } else {
        s + (8 - s % 8)
    }
}

/// The last multiple of 8 at or before `e`.
pub open spec fn round_down8(e: int) -> int {
    e - e % 8
}

/// Cutting a region only adds blocks: what was free stays free.
proof fn lemma_carve_keeps(b: Seq<Seq<usize>>, s: int, e: int, x: int)
    requires
        b.len() == BINS_SIZE,
        0 <= s,
        e <= usize::MAX,
        is_free(b, x),
    ensures
        is_free(carve(b, s, e), x),
    decreases e - s,
{
    if s < e {
        let k = block_exp(s, e - s);
        assert(exp2(0) == 1);
        lemma_block_exp(s, e - s, 0);
        lemma_exp2_pos(k);
        if MIN_SLAB_SIZE_BITS <= k < BINS_SIZE {
            let nb = push_block(b, k as int, s as usize);
            let (i, j) = choose|i: int, j: int|
                0 <= i < b.len() && 0 <= j < b[i].len() && #[trigger] in_block(
                    x,
                    b[i][j] as int,
                    i as nat,
                );
            assert(nb[i][j] == b[i][j]);
            assert(in_block(x, nb[i][j] as int, i as nat));
            lemma_carve_keeps(nb, s + exp2(k), e, x);
        } else {
            lemma_exp2_pos(k);
            lemma_carve_keeps(b, s + exp2(k), e, x);
        }
    }
}

/// From a multiple of 8 on, cutting frees every byte up to the last multiple
/// of 8 in the region.
proof fn lemma_carve_aligned(b: Seq<Seq<usize>>, s: int, e: int, x: int)
    requires
        b.len() == BINS_SIZE,
        0 <= s,
        e <= usize::MAX,
        region_fits(s, e),
        s % 8 == 0,
        s <= x < round_down8(e),
    ensures
        is_free(carve(b, s, e), x),
    decreases e - s,
{
    let k = block_exp(s, e - s);
    assert(exp2(0) == 1);
    lemma_block_exp(s, e - s, 0);
    lemma_exp2_values();
    lemma_block_exp_min(s, e - s, 0, 3);
    lemma_exp2_le(3, k);
    let p = exp2(k) as int;
    let nb = push_block(b, k as int, s as usize);
    let n = b[k as int].len() as int;
    lemma_exp2_split(3, k);
    vstd::arithmetic::div_mod::lemma_mod_multiples_basic(exp2((k - 3) as nat) as int, 8);
    assert(p % 8 == 0) by {
        assert(p == 8 * exp2((k - 3) as nat));
        assert(exp2((k - 3) as nat) * 8 == 8 * exp2((k - 3) as nat)) by (nonlinear_arith);
    }
    if x < s + p {
        let ii = k as int;
        assert(nb[ii][n] == s as usize);
        assert(0 <= ii < nb.len() && 0 <= n < nb[ii].len());
        assert(in_block(x, nb[ii][n] as int, ii as nat));
        assert(is_free(nb, x));
        lemma_carve_keeps(nb, s + p, e, x);
    } else {
        lemma_carve_aligned(nb, s + p, e, x);
    }
}

/// Cutting the region `s .. e` frees every byte from the first multiple of 8
/// in it up to the last one.
proof fn lemma_carve_frees(b: Seq<Seq<usize>>, s: int, e: int, x: int)
    requires
        b.len() == BINS_SIZE,
        0 <= s,
        e <= usize::MAX,
        region_fits(s, e),
        round_up8(s) <= x < round_down8(e),
    ensures
        is_free(carve(b, s, e), x),
    decreases e - s,
{
    if s % 8 == 0 {
        lemma_carve_aligned(b, s, e, x);
    } else {
        let k = block_exp(s, e - s);
        assert(exp2(0) == 1);
        lemma_block_exp(s, e - s, 0);
        lemma_exp2_values();
        if k >= 3 {
            lemma_aligned_weaken(s, 3, k);
        }
        assert(k < 3);
        let p = exp2(k) as int;
        reveal_with_fuel(exp2, 3);
        vstd::arithmetic::div_mod::lemma_mod_mod(s, 2, 4);
        vstd::arithmetic::div_mod::lemma_mod_mod(s, 4, 2);
        let r = s % 8;
        if k == 1 {
            assert(r % 2 == 0);
        } else if k == 2 {
            assert(r % 4 == 0);
        }
        assert(s + p <= round_up8(s));
        assert(round_up8(s + p) == round_up8(s));
        lemma_carve_frees(b, s + p, e, x);
    }
}

/// A new allocator frees every byte of its region from the first multiple of
/// 8 up to the last one: only an unaligned head and tail of fewer than 8
/// bytes each are never handed out.
pub proof fn law_new_frees_region(start: usize, end: usize)
    requires
        region_fits(start as int, end as int),
    ensures
        forall|x: int|
            round_up8(start as int) <= x < round_down8(end as int) ==> #[trigger] free_bytes(
                carve(empty_bins(), start as int, end as int),
            ).contains(x),
{
    assert forall|x: int| round_up8(start as int) <= x < round_down8(end as int) implies #[trigger] free_bytes(
        carve(empty_bins(), start as int, end as int),
    ).contains(x) by {
        lemma_carve_frees(empty_bins(), start as int, end as int, x);
    }
}

/// A block at `x` in bin `i` that cutting `.. e` has placed before `s`.
pub open spec fn cut_entry(x: int, i: nat, s: int, e: int) -> bool {
    &&& x % (exp2(i) as int) == 0
    &&& x + exp2(i) <= s
    &&& block_exp(x, e - x) == i
}

/// Cutting a region leaves every bin fully merged: two halves of an aligned
/// block inside the region would have been cut as that one block.
proof fn lemma_carve_merged(b: Seq<Seq<usize>>, s: int, e: int)
    requires
        b.len() == BINS_SIZE,
        0 <= s,
        e <= usize::MAX,
        region_fits(s, e),
        fully_merged(b),
        forall|i: int, j: int|
            0 <= i < b.len() && 0 <= j < b[i].len() ==> #[trigger] cut_entry(
                b[i][j] as int,
                i as nat,
                s,
                e,
            ),
    ensures
        fully_merged(carve(b, s, e)),
    decreases e - s,
{
    if s < e {
        let k = block_exp(s, e - s);
        assert(exp2(0) == 1);
        lemma_block_exp(s, e - s, 0);
        lemma_exp2_pos(k);
        let p = exp2(k) as int;
        assert forall|i: int, j: int| 0 <= i < b.len() && 0 <= j < b[i].len() implies (
        #[trigger] b[i][j] as int) % (exp2(i as nat) as int) == 0 by {
            assert(cut_entry(b[i][j] as int, i as nat, s, e));
        }
        assert(all_aligned(b));
        if MIN_SLAB_SIZE_BITS <= k < BINS_SIZE {
            let nb = push_block(b, k as int, s as usize);
            if bin_has(b[k as int], buddy(s, k)) {
                let j = choose|j: int| 0 <= j < b[k as int].len() && b[k as int][j] as int == buddy(s, k);
                let y = b[k as int][j] as int;
                let ii = k as int;
                assert(cut_entry(b[ii][j] as int, ii as nat, s, e));
                lemma_buddy_halves(s, y, k);
                if halves(y, s, k) {
                    assert(exp2(k + 1) == 2 * exp2(k));
                    lemma_block_exp_min(y, e - y, 0, k + 1);
                }
            }
            lemma_push_merged(b, k as int, s as usize);
            let n = b[k as int].len() as int;
            assert forall|i: int, j: int| 0 <= i < nb.len() && 0 <= j < nb[i].len() implies #[trigger] cut_entry(
                nb[i][j] as int,
                i as nat,
                s + p,
                e,
            ) by {
                if i == k && j == n {
                } else {
                    assert(nb[i][j] == b[i][j]);
                    assert(cut_entry(b[i][j] as int, i as nat, s, e));
                }
            }
            lemma_carve_merged(nb, s + p, e);
        } else {
            assert forall|i: int, j: int| 0 <= i < b.len() && 0 <= j < b[i].len() implies #[trigger] cut_entry(
                b[i][j] as int,
                i as nat,
                s + p,
                e,
            ) by {
                assert(cut_entry(b[i][j] as int, i as nat, s, e));
            }
            lemma_carve_merged(b, s + p, e);
        }
    }
}

/// A new allocator's bins are fully merged: no bin holds both halves of an
/// aligned block of twice its size.
pub proof fn law_new_fully_merged(start: usize, end: usize)
    requires
        region_fits(start as int, end as int),
    ensures
        fully_merged(carve(empty_bins(), start as int, end as int)),
{
    lemma_carve_merged(empty_bins(), start as int, end as int);
}

impl Allocator {
    /// The first address of the managed region.
    pub closed spec fn region_start(&self) -> int {
        self.lo@
    }

    /// The address just past the managed region.
    pub closed spec fn region_end(&self) -> int {
        self.hi@
    }

    /// The free lists are well formed for the managed region.
    pub open spec fn wf(&self) -> bool {
        &&& bins_wf(self@, self.region_start(), self.region_end())
        &&& region_small(self.region_start(), self.region_end())
    }

    /// The bytes of all free blocks.
    pub open spec fn free(&self) -> Set<int> {
        free_bytes(self@)
    }
}

/// log2 of the largest power of two that divides `s` (non-zero) and is at
/// most `rem` (at least 1), and that power.
fn block_exp_exec(s: usize, rem: usize) -> (r: (u32, usize))
    requires
        rem >= 1,
    ensures
        r.0 == block_exp(s as int, rem as int),
        r.1 == exp2(r.0 as nat),
        1 <= r.1 <= rem,
        s as int % (r.1 as int) == 0,
{
    let mut k: u32 = 0;
    let mut p: u64 = 1;
    proof {
        lemma_exp2_values();
    }
    while k < 63 && p <= (rem as u64) / 2 && (s as u64) % (2 * p) == 0
        invariant
            k <= 63,
            p == exp2(k as nat),
            1 <= p <= rem,
            s as int % (p as int) == 0,
            block_exp_from(s as int, rem as int, k as nat) == block_exp(s as int, rem as int),
        decreases 63 - k,
    {
        proof {
            lemma_exp2_le(k as nat, 62);
            lemma_exp2_values();
            assert(exp2((k + 1) as nat) == 2 * exp2(k as nat));
        }
        p = 2 * p;
        k = k + 1;
    }
    proof {
        assert(exp2((k + 1) as nat) == 2 * exp2(k as nat));
    }
    (k, p as usize)
}

impl Allocator {
    /// Whether `new(start, end)` can cut the region into bins: see `region_fits`.
    pub fn fits(start: usize, end: usize) -> (r: bool)
        ensures
            r == region_fits(start as int, end as int),
    {
        let mut s = start;
        while s < end
            invariant
                start <= s,
                s <= end || s == start,
                region_fits(start as int, end as int) == region_fits(s as int, end as int),
            decreases end - s,
        {
            if s == 0 {
                return false;
            }
            let (k, p) = block_exp_exec(s, end - s);
            if k >= 32 {
                return false;
            }
            s = s + p;
        }
        true
    }

    /// Creates a new bin allocator that will allocate memory from the region
    /// starting at address `start` and ending at address `end`.
    pub fn new(start: usize, end: usize) -> (a: Allocator)
        requires
            region_fits(start as int, end as int),
        ensures
            a.wf(),
            a.region_start() == start,
            a.region_end() == if start <= end { end } else { start },
            a@ == carve(empty_bins(), start as int, end as int),
            forall|x: int| #[trigger] a.free().contains(x) ==> start <= x < end,
            forall|x: int|
                round_up8(start as int) <= x < round_down8(end as int) ==> #[trigger] a.free().contains(
                    x,
                ),
            fully_merged(a@),
    {
        let mut bins: Vec<Vec<usize>> = Vec::new();
        let mut n: usize = 0;
        while n < BINS_SIZE
            invariant
                n <= BINS_SIZE,
                bins@.len() == n,
                forall|i: int| 0 <= i < n ==> (#[trigger] bins@[i])@.len() == 0,
            decreases BINS_SIZE - n,
        {
            bins.push(Vec::new());
            n = n + 1;
        }
        assert forall|i: int| 0 <= i < BINS_SIZE implies #[trigger] view_of(bins@)[i]
            =~= empty_bins()[i] by {
            assert(bins@[i]@.len() == 0);
        }
        assert(view_of(bins@) =~= empty_bins());
        let ghost lo = start as int;
        assert(bins_wf(view_of(bins@), lo, lo));
        let mut s = start;
        while s < end
            invariant
                start <= s,
                s <= end || s == start,
                bins@.len() == BINS_SIZE,
                bins_wf(view_of(bins@), lo, s as int),
                region_fits(s as int, end as int),
                carve(view_of(bins@), s as int, end as int) == carve(
                    empty_bins(),
                    start as int,
                    end as int,
                ),
            decreases end - s,
        {
            let (k, p) = block_exp_exec(s, end - s);
            let ghost before = view_of(bins@);
            proof {
                lemma_wf_widen(before, lo, s as int, (s + p) as int);
            }
            if k >= 3 {
                proof {
                    assert forall|x: int| in_block(x, s as int, k as nat) implies !is_free(
                        before,
                        x,
                    ) by {
                        if is_free(before, x) {
                            lemma_free_in_region(before, lo, s as int, x);
                        }
                    }
                    lemma_push(before, lo, (s + p) as int, k as int, s);
                }
                bins[k as usize].push(s);
                assert(view_of(bins@) =~= push_block(before, k as int, s));
            }
            s = s + p;
        }
        let a = Allocator { bins, lo: Ghost(lo), hi: Ghost(s as int) };
        proof {
            lemma_exp2_pos(32);
            law_new_frees_region(start, end);
            law_new_fully_merged(start, end);
            if start <= end {
                lemma_fits_small(start as int, end as int);
            }
            assert forall|x: int| #[trigger] a.free().contains(x) implies start <= x < end by {
                lemma_free_in_region(a@, lo, s as int, x);
            }
        }
        a
    }

    /// The free lists: bin `i` holds the addresses of the free blocks of `2^i`
    /// bytes, the most recently freed last.
    pub fn bins(&self) -> (r: Vec<Vec<usize>>)
        ensures
            view_of(r@) == self@,
    {
        let mut r: Vec<Vec<usize>> = Vec::new();
        let mut i: usize = 0;
        while i < self.bins.len()
            invariant
                i <= self.bins@.len(),
                r@.len() == i,
                forall|j: int| 0 <= j < i ==> (#[trigger] r@[j])@ == self.bins@[j]@,
            decreases self.bins@.len() - i,
        {
            let src = &self.bins[i];
            let mut b: Vec<usize> = Vec::new();
            let mut j: usize = 0;
            while j < src.len()
                invariant
                    j <= src@.len(),
                    b@ == src@.subrange(0, j as int),
                decreases src@.len() - j,
            {
                b.push(src[j]);
                j = j + 1;
                assert(b@ =~= src@.subrange(0, j as int));
            }
            assert(b@ =~= src@);
            r.push(b);
            i = i + 1;
        }
        assert(view_of(r@) =~= self@);
        r
    }

    /// The bin index of a valid request, or 32 when it is past the last bin.
    fn bin_index(layout: Layout) -> (k: usize)
        ensures
            size_class(layout.size as int, layout.align as int) < 32 ==> k == size_class(
                layout.size as int,
                layout.align as int,
            ),
            size_class(layout.size as int, layout.align as int) >= 32 ==> k == 32,
            3 <= k <= 32,
    {
        let mut k: usize = 3;
        let mut p: u64 = 8;
        proof {
            lemma_exp2_values();
        }
        while k < 32 && (p < layout.size as u64 || p < layout.align as u64)
            invariant
                3 <= k <= 32,
                p == exp2(k as nat),
                size_class_from(layout.size as int, layout.align as int, k as nat) == size_class(
                    layout.size as int,
                    layout.align as int,
                ),
            decreases 32 - k,
        {
            proof {
                lemma_exp2_le(k as nat, 31);
                lemma_exp2_values();
                assert(exp2((k + 1) as nat) == 2 * exp2(k as nat));
            }
            p = p * 2;
            k = k + 1;
        }
        proof {
            lemma_size_class(layout.size as int, layout.align as int, k as nat);
        }
        k
    }

    /// Allocates memory. Returns an address meeting the size and alignment
    /// properties of `layout.size()` and `layout.align()`.
    ///
    /// If this method returns an `Ok(addr)`, `addr` will be non-null address
    /// pointing to a block of storage suitable for holding an instance of
    /// `layout`. In particular, the block will be at least `layout.size()`
    /// bytes large and will be aligned to `layout.align()`.
    ///
    /// # Errors
    ///
    /// Returning `Err` indicates that either memory is exhausted
    /// (`AllocErr::Exhausted`) or `layout` does not meet this allocator's
    /// size or alignment constraints (`AllocErr::Unsupported`).
    pub fn allocate(&mut self, layout: Layout) -> (r: Result<usize, AllocErr>)
        requires
            old(self).wf(),
        ensures
            final(self).wf(),
            final(self).region_start() == old(self).region_start(),
            final(self).region_end() == old(self).region_end(),
            !is_pow2(layout.align as int) ==> (r matches Err(AllocErr::Unsupported { details })
                && details@ == "alignment is not power of 2"@),
            is_pow2(layout.align as int) && layout.size == 0 ==> (r matches Err(
                AllocErr::Unsupported { details },
            ) && details@ == "size is 0"@),
            r is Err ==> final(self)@ == old(self)@,
            is_pow2(layout.align as int) && layout.size > 0 ==> ({
                let k = size_class(layout.size as int, layout.align as int);
                let i = first_fit(old(self)@, k);
                if i >= 32 {
                    r == Err::<usize, AllocErr>(AllocErr::Exhausted { request: layout })
                } else {
                    let a = old(self)@[i as int].last();
                    &&& r == Ok::<usize, AllocErr>(a)
                    &&& final(self)@ == split(old(self)@, i as int, k as int, a)
                }
            }),
            r matches Ok(a) ==> ({
                let k = size_class(layout.size as int, layout.align as int);
                &&& a > 0
                &&& a as int % (layout.align as int) == 0
                &&& layout.size <= exp2(k)
                &&& old(self).region_start() <= a
                &&& a + exp2(k) <= old(self).region_end()
                &&& block(a as int, k).subset_of(old(self).free())
                &&& final(self).free() == old(self).free() - block(a as int, k)
            }),
            fully_merged(old(self)@) ==> fully_merged(final(self)@),
    {
        if !is_power_of_two(layout.align) {
            return Err(AllocErr::Unsupported { details: "alignment is not power of 2" });
        } else if layout.size == 0 {
            return Err(AllocErr::Unsupported { details: "size is 0" });
        }
        let k = Self::bin_index(layout);
        let ghost old_bins = self@;
        let ghost kc = size_class(layout.size as int, layout.align as int);
        let ghost lo = self.lo@;
        let ghost hi = self.hi@;
        proof {
            lemma_size_class(layout.size as int, layout.align as int, 3);
            lemma_first_fit(old_bins, kc);
        }
        let mut i = k;
        while i < BINS_SIZE
            invariant
                self@ == old_bins,
                self.lo@ == lo,
                self.hi@ == hi,
                lo == old(self).lo@,
                hi == old(self).hi@,
                old_bins == old(self)@,
                bins_wf(old_bins, lo, hi),
                region_small(lo, hi),
                self.bins@.len() == BINS_SIZE,
                k <= i <= BINS_SIZE,
                kc < 32 ==> k == kc,
                kc >= 32 ==> k == 32,
                kc < 32 ==> first_fit(old_bins, kc) == first_fit(old_bins, i as nat),
                is_pow2(layout.align as int),
                layout.size > 0,
                kc == size_class(layout.size as int, layout.align as int),
            decreases BINS_SIZE - i,
        {
            if self.bins[i].len() > 0 {
                assert(self.bins@[i as int]@ == old_bins[i as int]);
                let ghost a0 = old_bins[i as int].last();
                let popped = self.bins[i].pop();
                let a = match popped {
                    Some(a) => a,
                    None => {
                        return Err(AllocErr::Exhausted { request: layout });
                    },
                };
                assert(a == a0);
                proof {
                    let n = old_bins[i as int].len() - 1;
                    assert(old_bins[i as int].remove(n) =~= old_bins[i as int].drop_last());
                    assert(view_of(self.bins@) =~= split(old_bins, i as int, i as int, a));
                    lemma_split(old_bins, lo, hi, i as int, k as int);
                    let ii = i as int;
                    assert(0 <= n < old_bins[ii].len());
                    assert(block_ok(old_bins[ii][n] as int, ii as nat, lo, hi));
                }
                let mut j = i;
                while j > k
                    invariant
                        k <= j <= i < BINS_SIZE,
                        self.bins@.len() == BINS_SIZE,
                        self.lo@ == lo,
                        self.hi@ == hi,
                        lo == old(self).lo@,
                        hi == old(self).hi@,
                        region_small(lo, hi),
                        view_of(self.bins@) == split(old_bins, i as int, j as int, a),
                        a as int + exp2(i as nat) <= hi <= usize::MAX + 1,
                    decreases j,
                {
                    j = j - 1;
                    proof {
                        lemma_exp2_le(j as nat, 31);
                        crate::pow2::lemma_exp2_lt(j as nat, i as nat);
                        lemma_exp2_values();
                    }
                    let piece = a + pow2_u64(j as u32) as usize;
                    let ghost before = view_of(self.bins@);
                    self.bins[j].push(piece);
                    assert(view_of(self.bins@) =~= push_block(before, j as int, piece));
                }
                proof {
                    let n = old_bins[i as int].len() - 1;
                    let ii = i as int;
                    assert(old_bins[ii][n] == a);
                    assert(0 <= n < old_bins[ii].len());
                    assert(block_ok(old_bins[ii][n] as int, ii as nat, lo, hi));
                    lemma_size_class(layout.size as int, layout.align as int, 3);
                    let m = choose|m: nat| exp2(m) == layout.align;
                    lemma_exp2_le_inv(m, kc);
                    lemma_aligned_weaken(a as int, kc, i as nat);
                    lemma_aligned_weaken(a as int, m, kc);
                    lemma_exp2_le(kc, i as nat);
                    if fully_merged(old_bins) {
                        lemma_split_merged(old_bins, lo, hi, i as int, k as int);
                    }
                }
                return Ok(a);
            }
            i = i + 1;
        }
        Err(AllocErr::Exhausted { request: layout })
    }

    /// Deallocates the block at `ptr` that was allocated with `layout`.
    ///
    /// The block `ptr .. ptr + 2^k`, `k` the bin index of `layout`, must have
    /// come from this allocator and must not be free. While the block's buddy
    /// is free it merges with it; the merged block goes to the front of its bin.
    pub fn dealloc(&mut self, ptr: usize, layout: Layout)
        requires
            old(self).wf(),
            is_pow2(layout.align as int),
            layout.size > 0,
            size_class(layout.size as int, layout.align as int) < 32 ==> ({
                let k = size_class(layout.size as int, layout.align as int);
                &&& block_ok(
                    ptr as int,
                    k,
                    old(self).region_start(),
                    old(self).region_end(),
                )
                &&& block(ptr as int, k).disjoint(old(self).free())
            }),
        ensures
            final(self).wf(),
            final(self).region_start() == old(self).region_start(),
            final(self).region_end() == old(self).region_end(),
            ({
                let k = size_class(layout.size as int, layout.align as int);
                if k < 32 {
                    &&& final(self)@ == coalesce(old(self)@, ptr as int, k)
                    &&& final(self).free() == old(self).free() + block(ptr as int, k)
                } else {
                    final(self)@ == old(self)@
                }
            }),
            fully_merged(old(self)@) ==> fully_merged(final(self)@),
    {
        let k = Self::bin_index(layout);
        let ghost old_bins = self@;
        let ghost kc = size_class(layout.size as int, layout.align as int);
        let ghost lo = self.lo@;
        let ghost hi = self.hi@;
        proof {
            if kc < 32 {
                assert forall|x: int| in_block(x, ptr as int, kc) implies !is_free(old_bins, x) by {
                    assert(block(ptr as int, kc).contains(x));
                    assert(!free_bytes(old_bins).contains(x));
                }
                lemma_coalesce(old_bins, lo, hi, ptr as int, kc);
                lemma_no_loss(old_bins, lo, hi, ptr as int, kc);
                if fully_merged(old_bins) {
                    law_dealloc_fully_merges(old_bins, lo, hi, ptr as int, kc);
                }
            }
        }
        let mut my = ptr;
        let mut i = k;
        while i < BINS_SIZE
            invariant
                k <= i <= BINS_SIZE,
                kc < 32 ==> k == kc,
                kc >= 32 ==> k == 32,
                self.bins@.len() == BINS_SIZE,
                self.lo@ == lo,
                self.hi@ == hi,
                lo == old(self).lo@,
                hi == old(self).hi@,
                old_bins == old(self)@,
                bins_wf(self@, lo, hi),
                i < BINS_SIZE ==> block_ok(my as int, i as nat, lo, hi),
                kc < 32 ==> coalesce(self@, my as int, i as nat) == coalesce(
                    old_bins,
                    ptr as int,
                    kc,
                ),
                kc < 32 ==> bins_wf(coalesce(old_bins, ptr as int, kc), lo, hi),
                kc < 32 ==> free_bytes(coalesce(old_bins, ptr as int, kc)) == free_bytes(old_bins)
                    + block(ptr as int, kc),
                region_small(lo, hi),
                kc >= 32 ==> self@ == old_bins,
                kc < 32 && fully_merged(old_bins) ==> fully_merged(
                    coalesce(old_bins, ptr as int, kc),
                ),
                kc == size_class(layout.size as int, layout.align as int),
            decreases BINS_SIZE - i,
        {
            proof {
                lemma_exp2_le(i as nat, 31);
                lemma_exp2_pos(i as nat);
                lemma_exp2_values();
            }
            let p = pow2_u64(i as u32) as usize;
            let q = my / p;
            let ghost bud = buddy(my as int, i as nat);
            let candidate: Option<usize> = if q % 2 == 0 {
                my.checked_add(p)
            } else {
                proof {
                    vstd::arithmetic::div_mod::lemma_fundamental_div_mod(my as int, p as int);
                    assert(p * q >= p) by (nonlinear_arith)
                        requires
                            q >= 1,
                            p >= 1,
                    ;
                }
                Some(my - p)
            };
            let ghost cur = self@;
            let found: Option<(usize, usize)> = match candidate {
                Some(b) => match find(&self.bins[i], b) {
                    Some(j) => Some((j, b)),
                    None => None,
                },
                None => None,
            };
            match found {
                Some((j, b)) => {
                    proof {
                        let ii = i as int;
                        assert(cur[ii] == self.bins@[ii]@);
                        assert(cur[ii][j as int] as int == bud);
                        assert(bin_has(cur[ii], bud));
                        let jp = bin_pos(cur[ii], bud);
                        if jp != j as int {
                            lemma_exp2_pos(ii as nat);
                            assert(crate::bins::blocks_disjoint(
                                cur[ii][jp] as int,
                                ii as nat,
                                cur[ii][j as int] as int,
                                ii as nat,
                            ));
                        }
                        assert(0 <= j < cur[ii].len());
                        assert(block_ok(cur[ii][j as int] as int, ii as nat, lo, hi));
                        crate::bins::lemma_buddy(my as int, i as nat);
                        lemma_remove(cur, lo, hi, ii, j as int);
                    }
                    self.bins[i].remove(j);
                    assert(self@ =~= remove_block(cur, i as int, j as int));
                    my = if my < b {
                        my
                    } else {
                        b
                    };
                    i = i + 1;
                },
                None => {
                    proof {
                        assert(!bin_has(cur[i as int], bud));
                    }
                    self.bins[i].push(my);
                    assert(self@ =~= push_block(cur, i as int, my));
                    return;
                },
            }
        }
    }
}

/// A position of `x` in `v`, if `v` holds it.
fn find(v: &Vec<usize>, x: usize) -> (r: Option<usize>)
    ensures
        r matches Some(j) ==> j < v.len() && v@[j as int] == x,
        r is None ==> forall|j: int| 0 <= j < v.len() ==> v@[j] != x,
{
    let mut j: usize = 0;
    while j < v.len()
        invariant
            j <= v.len(),
            forall|jj: int| 0 <= jj < j ==> v@[jj] != x,
        decreases v.len() - j,
    {
        if v[j] == x {
            return Some(j);
        }
        j = j + 1;
    }
    None
}

/// Facts about a request that `allocate` serves from bin `first_fit(bins, k)`:
/// the block it hands out is aligned, inside the region, free before and not
/// free after.
proof fn lemma_served(bins: Seq<Seq<usize>>, lo: int, hi: int, size: int, align: int)
    requires
        bins_wf(bins, lo, hi),
        is_pow2(align),
        size > 0,
        first_fit(bins, size_class(size, align)) < 32,
    ensures
        ({
            let k = size_class(size, align);
            let i = first_fit(bins, k);
            let a = bins[i as int].last();
            let s = split(bins, i as int, k as int, a);
            &&& k <= i < 32
            &&& bins[i as int].len() > 0
            &&& block_ok(a as int, k, lo, hi)
            &&& a as int % align == 0
            &&& size <= exp2(k)
            &&& bins_wf(s, lo, hi)
            &&& free_bytes(s) == free_bytes(bins) - block(a as int, k)
            &&& block(a as int, k).subset_of(free_bytes(bins))
        }),
{
    let k = size_class(size, align);
    lemma_size_class(size, align, 3);
    lemma_first_fit(bins, k);
    let i = first_fit(bins, k);
    let n = bins[i as int].len() - 1;
    let a = bins[i as int][n];
    let ii = i as int;
    assert(0 <= ii < bins.len() && 0 <= n < bins[ii].len());
    assert(block_ok(bins[ii][n] as int, ii as nat, lo, hi));
    lemma_split(bins, lo, hi, i as int, k as int);
    lemma_aligned_weaken(a as int, k, i);
    lemma_exp2_le(k, i);
    let m = choose|m: nat| exp2(m) == align;
    lemma_exp2_le_inv(m, k);
    lemma_aligned_weaken(a as int, m, k);
}

/// Allocating a block and then freeing it gives back exactly the free bytes
/// there were before.
pub proof fn law_allocate_then_deallocate(
    bins: Seq<Seq<usize>>,
    lo: int,
    hi: int,
    size: int,
    align: int,
)
    requires
        bins_wf(bins, lo, hi),
        is_pow2(align),
        size > 0,
        region_small(lo, hi),
        first_fit(bins, size_class(size, align)) < 32,
    ensures
        ({
            let k = size_class(size, align);
            let i = first_fit(bins, k);
            let a = bins[i as int].last();
            let after = coalesce(split(bins, i as int, k as int, a), a as int, k);
            &&& bins_wf(after, lo, hi)
            &&& free_bytes(after) == free_bytes(bins)
        }),
{
    lemma_served(bins, lo, hi, size, align);
    let k = size_class(size, align);
    let i = first_fit(bins, k);
    let a = bins[i as int].last();
    let s = split(bins, i as int, k as int, a);
    assert forall|x: int| in_block(x, a as int, k) implies !is_free(s, x) by {
        assert(block(a as int, k).contains(x));
        assert(!free_bytes(s).contains(x));
    }
    lemma_coalesce(s, lo, hi, a as int, k);
    lemma_no_loss(s, lo, hi, a as int, k);
    assert(free_bytes(coalesce(s, a as int, k)) =~= free_bytes(bins));
}

/// Two allocations in a row hand out blocks that share no byte.
pub proof fn law_allocations_disjoint(
    bins: Seq<Seq<usize>>,
    lo: int,
    hi: int,
    size1: int,
    align1: int,
    size2: int,
    align2: int,
)
    requires
        bins_wf(bins, lo, hi),
        is_pow2(align1),
        size1 > 0,
        is_pow2(align2),
        size2 > 0,
        first_fit(bins, size_class(size1, align1)) < 32,
        ({
            let k1 = size_class(size1, align1);
            let i1 = first_fit(bins, k1);
            let s1 = split(bins, i1 as int, k1 as int, bins[i1 as int].last());
            first_fit(s1, size_class(size2, align2)) < 32
        }),
    ensures
        ({
            let k1 = size_class(size1, align1);
            let i1 = first_fit(bins, k1);
            let a1 = bins[i1 as int].last();
            let s1 = split(bins, i1 as int, k1 as int, a1);
            let k2 = size_class(size2, align2);
            let i2 = first_fit(s1, k2);
            let a2 = s1[i2 as int].last();
            crate::bins::blocks_disjoint(a1 as int, k1, a2 as int, k2)
        }),
{
    lemma_served(bins, lo, hi, size1, align1);
    let k1 = size_class(size1, align1);
    let i1 = first_fit(bins, k1);
    let a1 = bins[i1 as int].last();
    let s1 = split(bins, i1 as int, k1 as int, a1);
    lemma_served(s1, lo, hi, size2, align2);
    let k2 = size_class(size2, align2);
    let i2 = first_fit(s1, k2);
    let a2 = s1[i2 as int].last();
    if !crate::bins::blocks_disjoint(a1 as int, k1, a2 as int, k2) {
        let x = if a1 <= a2 { a2 as int } else { a1 as int };
        lemma_exp2_pos(k1);
        lemma_exp2_pos(k2);
        assert(block(a2 as int, k2).contains(x));
        assert(free_bytes(s1).contains(x));
        assert(block(a1 as int, k1).contains(x));
    }
}

} // verus!
