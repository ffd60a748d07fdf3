//! Buddy allocator for physical page frames.
//!
//! Free blocks of `PAGE_SIZE << order` bytes are kept in one singly linked
//! list per order.  The links live in a flat table indexed by page frame
//! number (pfn); `NIL` marks the end of a list.
use vstd::prelude::*;
use vstd::arithmetic::power2::{lemma2_to64, lemma_pow2_pos};
use vstd::bits::lemma_usize_shl_is_mul;
use crate::mm::{MemoryRegion, MemoryRegionKind, is_usable};
use crate::mm::free_lists::{
    MAX_ORDER, MAX_PAGES, NIL, PAGE_SIZE, alloc_spec, block_is_unused, block_ok, block_pages, blocks_disjoint, fit_order, frame_address, free_spec, has_block_from, head_of, in_block, lemma_alloc_pages, lemma_alloc_spec, lemma_fit_block, lemma_frame_aligned, lemma_free_pages, lemma_index_of_unique, lemma_list_bounded, lemma_list_distinct, lemma_merge_step, lemma_pages_from_empty, lemma_push_wf, lemma_region_pages, lemma_remove_wf, lemma_shift_is_pow2, lemma_unused_from_pages, lemma_wf_block_ok, lemma_wf_distinct, link_after, lists_wf, page_align_down, page_align_up, page_is_free, push_block, range_is_unused, region_addable, region_spec, total_free_pages,
};

verus! {

struct FreeList {
    heads: Vec<Option<usize>>,
    next: Vec<usize>,
    free_count: Vec<usize>,
    lists: Ghost<Seq<Seq<usize>>>,
}

impl FreeList {
    spec fn wf(&self) -> bool {
        let l = self.lists@;
        &&& lists_wf(l)
        &&& l.len() == MAX_ORDER
        &&& self.heads@.len() == MAX_ORDER
        &&& self.free_count@.len() == MAX_ORDER
        &&& self.next@.len() == MAX_PAGES
        &&& forall|o: int| 0 <= o < MAX_ORDER ==> #[trigger] self.heads@[o] == head_of(l[o])
        &&& forall|o: int| 0 <= o < MAX_ORDER ==> #[trigger] self.free_count@[o] == l[o].len()
        &&& forall|o: int, i: int|
            0 <= o < MAX_ORDER && 0 <= i < l[o].len() ==> self.next@[#[trigger] l[o][i] as int]
                == link_after(l[o], i)
    }

    /// Pushes `pfn` onto the front of the list of the given order.
    fn push(&mut self, order: usize, pfn: usize)
        requires
            old(self).wf(),
            order < MAX_ORDER,
            lists_wf(push_block(old(self).lists@, order as int, pfn)),
        ensures
            final(self).wf(),
            final(self).lists@ == push_block(old(self).lists@, order as int, pfn),
    {
        let ghost l = self.lists@;
        let ghost n = push_block(l, order as int, pfn);
        proof {
            assert(n[order as int][0] == pfn);
            lemma_wf_block_ok(n, order as int, 0);
            lemma_list_bounded(n, order as int);
            assert forall|o: int, i: int| 0 <= o < MAX_ORDER && 0 <= i < l[o].len() implies #[trigger] l[o][i]
                != pfn by {
                let j = if o == order { i + 1 } else { i };
                assert(n[o][j] == l[o][i]);
                lemma_wf_distinct(n, o, j, order as int, 0);
            }
        }
        let old_head = self.heads[order];
        let link = match old_head {
            Some(h) => h,
            None => NIL,
        };
        let ghost old_next = self.next@;
        self.next.set(pfn, link);
        self.heads.set(order, Some(pfn));
        let c = self.free_count[order];
        self.free_count.set(order, c + 1);
        proof {
            self.lists@ = n;
            assert forall|o: int, i: int|
                0 <= o < MAX_ORDER && 0 <= i < n[o].len() implies self.next@[#[trigger] n[o][i] as int]
                == link_after(n[o], i) by {
                if o == order && i == 0 {
                    assert(n[o][i] == pfn);
                    if l[o].len() > 0 {
                        assert(n[o][1] == l[o][0]);
                    }
                } else {
                    let j = if o == order { i - 1 } else { i };
                    assert(n[o][i] == l[o][j]);
                    assert(l[o][j] != pfn);
                    assert(old_next[l[o][j] as int] == link_after(l[o], j));
                    lemma_wf_block_ok(l, o, j);
                    assert(self.next@[n[o][i] as int] == link_after(l[o], j));
                    if o == order && j + 1 < l[o].len() {
                        assert(n[o][i + 1] == l[o][j + 1]);
                    }
                }
            }
        }
    }

    /// Pops the first block off the list of the given order.
    fn pop(&mut self, order: usize) -> (p: usize)
        requires
            old(self).wf(),
            order < MAX_ORDER,
            old(self).lists@[order as int].len() > 0,
        ensures
            final(self).wf(),
            p == old(self).lists@[order as int][0],
            final(self).lists@ == old(self).lists@.update(
                order as int,
                old(self).lists@[order as int].remove(0),
            ),
    {
        let ghost l = self.lists@;
        let ghost n = l.update(order as int, l[order as int].remove(0));
        proof {
            lemma_remove_wf(l, order as int, 0);
            lemma_wf_block_ok(l, order as int, 0);
        }
        let pfn = match self.heads[order] {
            Some(h) => h,
            None => 0,
        };
        let next = self.next[pfn];
        self.heads.set(order, if next == NIL { None } else { Some(next) });
        let c = self.free_count[order];
        self.free_count.set(order, c - 1);
        proof {
            self.lists@ = n;
            assert forall|o: int, i: int|
                0 <= o < MAX_ORDER && 0 <= i < n[o].len() implies self.next@[#[trigger] n[o][i] as int]
                == link_after(n[o], i) by {
                let j = if o == order { i + 1 } else { i };
                assert(n[o][i] == l[o][j]);
            }
            if n[order as int].len() > 0 {
                assert(n[order as int][0] == l[order as int][1]);
                assert(l[order as int][1] != NIL) by {
                    lemma_wf_block_ok(l, order as int, 1);
                }
            }
        }
        pfn
    }

    /// Takes a block of the given order, splitting a larger one if needed;
    /// returns its address.
    fn alloc_inner(&mut self, order: usize) -> (r: Option<usize>)
        requires
            old(self).wf(),
        ensures
            final(self).wf(),
            final(self).lists@ == alloc_spec(old(self).lists@, order as int).0,
            r == frame_address(alloc_spec(old(self).lists@, order as int).1),
        decreases MAX_ORDER - order,
    {
        if order >= MAX_ORDER {
            return None;
        }
        let ghost l = self.lists@;
        proof {
            lemma_alloc_spec(l, order as int);
        }
        if self.heads[order].is_some() {
            proof {
                assert(l[order as int].len() > 0);
            }
            let pfn = self.pop(order);
            proof {
                lemma_wf_block_ok(l, order as int, 0);
            }
            return Some(pfn * PAGE_SIZE);
        }
        let addr = match self.alloc_inner(order + 1) {
            Some(a) => a,
            None => {
                return None;
            },
        };
        let ghost l2 = self.lists@;
        let ghost p = alloc_spec(l, order as int + 1).1->0;
        proof {
            assert(order + 1 < MAX_ORDER);
            lemma_alloc_spec(l, order as int + 1);
            lemma_shift_is_pow2(order);
            assert(addr == p * PAGE_SIZE);
            assert(block_ok(p as int, order as int + 1));
        }
        let pfn = addr / PAGE_SIZE;
        let buddy_pfn = pfn + (1usize << order);
        self.push(order, buddy_pfn);
        Some(addr)
    }

    /// Unlinks the `k`-th block of the list of the given order, whose frame
    /// is `c` and whose predecessor is `prev`.
    #[verifier::rlimit(30)]
    fn unlink(&mut self, order: usize, prev: Option<usize>, c: usize, Ghost(k): Ghost<int>)
        requires
            old(self).wf(),
            order < MAX_ORDER,
            0 <= k < old(self).lists@[order as int].len(),
            old(self).lists@[order as int][k] == c,
            prev == (if k == 0 { None::<usize> } else { Some(old(self).lists@[order as int][k - 1]) }),
        ensures
            final(self).wf(),
            final(self).lists@ == old(self).lists@.update(
                order as int,
                old(self).lists@[order as int].remove(k),
            ),
    {
        let ghost l = self.lists@;
        let ghost s = l[order as int];
        proof {
            lemma_wf_block_ok(l, order as int, k);
        }
        let after = self.next[c];
        let ghost n = l.update(order as int, s.remove(k));
        let ghost old_next = self.next@;
        match prev {
            Some(pv) => {
                proof {
                    lemma_wf_block_ok(l, order as int, k - 1);
                }
                self.next.set(pv, after);
            },
            None => {
                self.heads.set(order, if after == NIL { None } else { Some(after) });
            },
        }
        let cnt = self.free_count[order];
        self.free_count.set(order, cnt - 1);
        proof {
            lemma_remove_wf(l, order as int, k);
            self.lists@ = n;
            assert forall|o: int, i: int|
                0 <= o < MAX_ORDER && 0 <= i < n[o].len() implies self.next@[#[trigger] n[o][i] as int]
                == link_after(n[o], i) by {
                let j = if o == order && i >= k { i + 1 } else { i };
                assert(n[o][i] == l[o][j]);
                lemma_wf_block_ok(l, o, j);
                if o == order && i == k - 1 {
                    if k + 1 < s.len() {
                        assert(n[o][i + 1] == s[k + 1]);
                    }
                } else {
                    if k > 0 {
                        lemma_wf_distinct(l, o, j, order as int, k - 1);
                    }
                    assert(old_next[l[o][j] as int] == link_after(l[o], j));
                    if o == order && i >= k && i + 1 < n[o].len() {
                        assert(n[o][i + 1] == l[o][j + 1]);
                    }
                    if o == order && i < k - 1 {
                        assert(n[o][i + 1] == l[o][j + 1]);
                    }
                }
            }
            if k == 0 && s.len() > 1 {
                assert(n[order as int][0] == s[1]);
                lemma_wf_block_ok(l, order as int, 1);
            }
        }
    }

    /// Walks the list of the given order looking for `pfn`; returns whether
    /// it is there, its predecessor, and (as a ghost) its position.
    fn find_block(&self, order: usize, pfn: usize) -> (r: (bool, Option<usize>, Ghost<int>))
        requires
            self.wf(),
            order < MAX_ORDER,
        ensures
            ({
                let s = self.lists@[order as int];
                let (found, prev, k) = r;
                &&& found == s.contains(pfn)
                &&& found ==> 0 <= k@ < s.len() && s[k@] == pfn && s.index_of(pfn) == k@
                &&& found ==> prev == (if k@ == 0 { None::<usize> } else { Some(s[k@ - 1]) })
            }),
    {
        let ghost l = self.lists@;
        let ghost s = l[order as int];
        proof {
            lemma_list_distinct(l, order as int);
            assert forall|i: int| 0 <= i < s.len() implies #[trigger] s[i] < MAX_PAGES
                && self.next@[s[i] as int] == link_after(s, i) by {
                lemma_wf_block_ok(l, order as int, i);
            }
        }
        let mut prev: Option<usize> = None;
        let mut cur = self.heads[order];
        let ghost mut k: int = 0;
        let mut found = false;
        loop
            invariant_except_break
                !found,
            invariant
                s == self.lists@[order as int],
                self.next@.len() == MAX_PAGES,
                forall|i: int| 0 <= i < s.len() ==> #[trigger] s[i] < MAX_PAGES && self.next@[s[i] as int]
                    == link_after(s, i),
                0 <= k <= s.len(),
                cur == (if k < s.len() { Some(s[k]) } else { None::<usize> }),
                prev == (if k == 0 { None::<usize> } else { Some(s[k - 1]) }),
                forall|j: int| 0 <= j < k ==> s[j] != pfn,
            ensures
                found == (k < s.len()),
                found ==> s[k] == pfn,
            decreases s.len() - k,
        {
            let c = match cur {
                Some(c) => c,
                None => {
                    break;
                },
            };
            if c == pfn {
                found = true;
                break;
            }
            let nx = self.next[c];
            prev = cur;
            cur = if nx == NIL { None } else { Some(nx) };
            proof {
                k = k + 1;
            }
        }
        proof {
            if found {
                lemma_index_of_unique(s, k);
            } else {
                assert(!s.contains(pfn));
            }
        }
        (found, prev, Ghost(k))
    }

    /// Whether no block of the list of order `o` overlaps the `size` frames
    /// from `pfn`.
    #[verifier::rlimit(30)]
    fn list_clear_of(&self, o: usize, pfn: usize, size: usize) -> (r: bool)
        requires
            self.wf(),
            o < MAX_ORDER,
        ensures
            r == forall|i: int|
                0 <= i < self.lists@[o as int].len() ==> #[trigger] self.lists@[o as int][i] + block_pages(
                    o as int,
                ) <= pfn || pfn + size <= self.lists@[o as int][i],
    {
        let ghost s = self.lists@[o as int];
        proof {
            lemma_shift_is_pow2(o);
            assert forall|i: int| 0 <= i < s.len() implies #[trigger] s[i] < MAX_PAGES
                && self.next@[s[i] as int] == link_after(s, i) by {
                lemma_wf_block_ok(self.lists@, o as int, i);
            }
        }
        let osize: usize = 1usize << o;
        let mut cur = self.heads[o];
        let ghost mut k: int = 0;
        loop
            invariant
                s == self.lists@[o as int],
                self.next@.len() == MAX_PAGES,
                osize == block_pages(o as int),
                osize <= 2048,
                forall|i: int| 0 <= i < s.len() ==> #[trigger] s[i] < MAX_PAGES && self.next@[s[i] as int]
                    == link_after(s, i),
                0 <= k <= s.len(),
                cur == (if k < s.len() { Some(s[k]) } else { None::<usize> }),
                forall|j: int| 0 <= j < k ==> #[trigger] s[j] + block_pages(o as int) <= pfn || pfn + size <= s[j],
            decreases s.len() - k,
        {
            let c = match cur {
                Some(c) => c,
                None => {
                    return true;
                },
            };
            if !(c + osize <= pfn || pfn as u128 + size as u128 <= c as u128) {
                return false;
            }
            let nx = self.next[c];
            cur = if nx == NIL { None } else { Some(nx) };
            proof {
                k = k + 1;
            }
        }
    }

    /// Unlinks the first block of the given order whose frame is `pfn`;
    /// returns whether there was one.
    fn take_block(&mut self, order: usize, pfn: usize) -> (found: bool)
        requires
            old(self).wf(),
            order < MAX_ORDER,
        ensures
            final(self).wf(),
            found == old(self).lists@[order as int].contains(pfn),
            found ==> final(self).lists@ == old(self).lists@.update(
                order as int,
                old(self).lists@[order as int].remove(old(self).lists@[order as int].index_of(pfn)),
            ),
            !found ==> final(self).lists@ == old(self).lists@,
    {
        let (found, prev, k) = self.find_block(order, pfn);
        if found {
            self.unlink(order, prev, pfn, k);
        }
        found
    }

    fn new() -> (r: Self)
        ensures
            r.wf(),
            r.lists@ == Seq::new(MAX_ORDER as nat, |o: int| Seq::<usize>::empty()),
    {
        let mut heads: Vec<Option<usize>> = Vec::new();
        let mut free_count: Vec<usize> = Vec::new();
        let mut k: usize = 0;
        while k < MAX_ORDER
            invariant
                k <= MAX_ORDER,
                heads@.len() == k,
                free_count@.len() == k,
                forall|o: int| 0 <= o < k ==> heads@[o] == None::<usize>,
                forall|o: int| 0 <= o < k ==> free_count@[o] == 0,
            decreases MAX_ORDER - k,
        {
            heads.push(None);
            free_count.push(0);
            k = k + 1;
        }
        let mut next: Vec<usize> = Vec::new();
        let mut n: usize = 0;
        while n < MAX_PAGES
            invariant
                n <= MAX_PAGES,
                next@.len() == n,
            decreases MAX_PAGES - n,
        {
            next.push(NIL);
            n = n + 1;
        }
        let ghost l = Seq::new(MAX_ORDER as nat, |o: int| Seq::<usize>::empty());
        proof {
            reveal(lists_wf);
        }
        FreeList { heads, next, free_count, lists: Ghost(l) }
    }
}

/// `PAGE_SIZE << order` for the orders the allocator uses.
fn block_size(order: usize) -> (s: usize)
    requires
        order < MAX_ORDER,
    ensures
        s == PAGE_SIZE * block_pages(order as int),
        s <= PAGE_SIZE * 1024,
        s >= PAGE_SIZE,
{
    proof {
        lemma_shift_is_pow2(order);
        lemma2_to64();
        vstd::arithmetic::power2::lemma_pow2_strictly_increases(order as nat, MAX_ORDER as nat);
        lemma_usize_shl_is_mul(PAGE_SIZE, order);
    }
    PAGE_SIZE << order
}

/// The buddy allocator: free blocks of every order up to `MAX_ORDER - 1`.
pub struct BuddyAllocator {
    inner: FreeList,
    base: usize,
}

impl View for BuddyAllocator {
    /// The free lists, one per order, each from its head onwards; an entry
    /// is the frame number of a free block.
    type V = Seq<Seq<usize>>;

    closed spec fn view(&self) -> Seq<Seq<usize>> {
        self.inner.lists@
    }
}

impl BuddyAllocator {
    /// The allocator's internal links agree with its free lists, and the
    /// free lists form a well-formed family (`lists_wf`).
    pub closed spec fn wf(&self) -> bool {
        self.inner.wf()
    }

    /// An allocator with no free memory.
    pub fn new() -> (r: Self)
        ensures
            r.wf(),
            r@ == Seq::new(MAX_ORDER as nat, |o: int| Seq::<usize>::empty()),
            total_free_pages(r@) == 0,
    {
        let r = BuddyAllocator { inner: FreeList::new(), base: 0 };
        proof {
            lemma_pages_from_empty(r@, 0);
        }
        r
    }

    /// The family of free lists is well-formed.
    pub proof fn lemma_wf(&self)
        requires
            self.wf(),
        ensures
            lists_wf(self@),
            self@.len() == MAX_ORDER,
    {
    }

    /// Allocates a block of `PAGE_SIZE << order` bytes and returns its
    /// physical address, or `None` when the order is too large or no block
    /// of that order or above is free.
    pub fn alloc_block(&mut self, order: usize) -> (r: Option<usize>)
        requires
            old(self).wf(),
        ensures
            final(self).wf(),
            final(self)@ == alloc_spec(old(self)@, order as int).0,
            r == frame_address(alloc_spec(old(self)@, order as int).1),
            r is Some <==> order < MAX_ORDER && has_block_from(old(self)@, order as int),
            r is None ==> final(self)@ == old(self)@,
            r matches Some(a) ==> {
                &&& a as int == alloc_spec(old(self)@, order as int).1->0 * PAGE_SIZE
                &&& a as int % (PAGE_SIZE * block_pages(order as int)) as int == 0
                &&& forall|q: int|
                    #[trigger] page_is_free(final(self)@, q) <==> page_is_free(old(self)@, q) && !in_block(
                        q,
                        a as int / PAGE_SIZE as int,
                        order as int,
                    )
                &&& forall|q: int|
                    in_block(q, a as int / PAGE_SIZE as int, order as int) ==> #[trigger] page_is_free(
                        old(self)@,
                        q,
                    )
                &&& total_free_pages(final(self)@) + block_pages(order as int) == total_free_pages(
                    old(self)@,
                )
            },
    {
        let ghost l = self@;
        proof {
            if order < MAX_ORDER {
                lemma_alloc_spec(l, order as int);
                lemma_alloc_pages(l, order as int);
            }
        }
        let r = self.inner.alloc_inner(order);
        proof {
            if r is Some {
                let p = alloc_spec(l, order as int).1->0;
                lemma_frame_aligned(p, order as int);
            }
        }
        r
    }

    /// Returns the block of the given order at `addr` to the allocator,
    /// merging it with its buddy as long as the buddy is free.
    #[verifier::rlimit(40)]
    pub fn free(&mut self, addr: usize, order: usize)
        requires
            old(self).wf(),
            order < MAX_ORDER,
            block_ok(addr as int / PAGE_SIZE as int, order as int),
            block_is_unused(old(self)@, addr as int / PAGE_SIZE as int, order as int),
        ensures
            final(self).wf(),
            final(self)@ == free_spec(old(self)@, (addr / PAGE_SIZE) as usize, order as int),
            forall|q: int|
                #[trigger] page_is_free(final(self)@, q) <==> page_is_free(old(self)@, q) || in_block(
                    q,
                    addr as int / PAGE_SIZE as int,
                    order as int,
                ),
            total_free_pages(final(self)@) == total_free_pages(old(self)@) + block_pages(order as int),
    {
        let ghost l0 = self@;
        proof {
            lemma_free_pages(l0, (addr / PAGE_SIZE) as usize, order as int);
        }
        let mut pfn = addr / PAGE_SIZE;
        let mut ord = order;
        loop
            invariant
                self.wf(),
                ord < MAX_ORDER,
                block_ok(pfn as int, ord as int),
                block_is_unused(self@, pfn as int, ord as int),
                free_spec(self@, pfn, ord as int) == free_spec(l0, (addr / PAGE_SIZE) as usize, order as int),
            ensures
                self.wf(),
                ord < MAX_ORDER,
                block_ok(pfn as int, ord as int),
                block_is_unused(self@, pfn as int, ord as int),
                free_spec(self@, pfn, ord as int) == free_spec(l0, (addr / PAGE_SIZE) as usize, order as int),
                free_spec(self@, pfn, ord as int) == push_block(self@, ord as int, pfn),
            decreases MAX_ORDER - ord,
        {
            if ord >= MAX_ORDER - 1 {
                break;
            }
            proof {
                lemma_shift_is_pow2(ord);
                lemma_pow2_pos(ord as nat);
            }
            let buddy_pfn = pfn ^ (1usize << ord);
            let ghost l = self@;
            let found = self.inner.take_block(ord, buddy_pfn);
            if !found {
                break;
            }
            proof {
                lemma_merge_step(l, pfn, ord as int);
            }
            pfn = if pfn <= buddy_pfn { pfn } else { buddy_pfn };
            ord = ord + 1;
        }
        proof {
            lemma_push_wf(self@, ord as int, pfn);
        }
        self.inner.push(ord, pfn);
    }

    /// Adds the whole pages of the physical range `[start, end)` as free
    /// blocks, each as large as its alignment and the end of the range allow.
    #[verifier::rlimit(40)]
    pub fn add_region(&mut self, start: usize, end: usize)
        requires
            old(self).wf(),
            region_addable(old(self)@, start as int, end as int),
        ensures
            final(self).wf(),
            final(self)@ == region_spec(
                old(self)@,
                page_align_up(start as int),
                page_align_down(end as int),
            ),
            forall|q: int|
                #[trigger] page_is_free(final(self)@, q) <==> page_is_free(old(self)@, q) || (
                page_align_up(start as int) / PAGE_SIZE as int <= q < page_align_down(end as int)
                    / PAGE_SIZE as int),
            total_free_pages(final(self)@) == total_free_pages(old(self)@) + (if page_align_up(
                start as int,
            ) <= page_align_down(end as int) {
                (page_align_down(end as int) - page_align_up(start as int)) / PAGE_SIZE as int
            } else {
                0
            }),
    {
        let ghost l0 = self@;
        let ghost lo = page_align_up(start as int);
        let ghost hi = page_align_down(end as int);
        proof {
            lemma_page_mask((start + 4095) as usize);
            lemma_page_mask(end);
            lemma_region_pages(l0, lo, hi);
        }
        let addr0 = (start + PAGE_SIZE - 1) & !(PAGE_SIZE - 1);
        let end = end & !(PAGE_SIZE - 1);
        let mut addr = addr0;
        while addr < end && PAGE_SIZE <= end - addr
            invariant
                self.wf(),
                addr as int % PAGE_SIZE as int == 0,
                end as int == hi,
                hi % PAGE_SIZE as int == 0,
                addr >= lo,
                addr + PAGE_SIZE <= hi ==> hi <= MAX_PAGES * PAGE_SIZE,
                range_is_unused(self@, addr as int / PAGE_SIZE as int, hi / PAGE_SIZE as int),
                region_spec(self@, addr as int, hi) == region_spec(l0, lo, hi),
            decreases end - addr,
        {
            let mut order = MAX_ORDER - 1;
            loop
                invariant
                    order < MAX_ORDER,
                    addr + PAGE_SIZE <= end,
                    addr as int % PAGE_SIZE as int == 0,
                    fit_order(addr as int, end as int, order as int) == fit_order(
                        addr as int,
                        end as int,
                        MAX_ORDER - 1,
                    ),
                ensures
                    order < MAX_ORDER,
                    fit_order(addr as int, end as int, MAX_ORDER - 1) == order,
                decreases order,
            {
                let size = block_size(order);
                if addr % size == 0 && size <= end - addr {
                    break;
                }
                if order == 0 {
                    break;
                }
                order = order - 1;
            }
            let size = block_size(order);
            let pfn = addr / PAGE_SIZE;
            proof {
                lemma_fit_block(addr as int, end as int, order as int);
                assert(block_ok(pfn as int, order as int));
                lemma_push_wf(self@, order as int, pfn);
            }
            self.inner.push(order, pfn);
            addr = addr + size;
        }
    }

    /// Per order with free blocks, in increasing order: the order, its
    /// number of free blocks, and the size of one block in KiB.
    pub fn stats(&self) -> (r: Vec<(usize, usize, usize)>)
        requires
            self.wf(),
        ensures
            r@ == stats_from(self@, 0),
    {
        let mut r: Vec<(usize, usize, usize)> = Vec::new();
        let mut ord: usize = MAX_ORDER;
        while ord > 0
            invariant
                self.wf(),
                ord <= MAX_ORDER,
                r@ == stats_from(self@, ord as int),
            decreases ord,
        {
            ord = ord - 1;
            let count = self.inner.free_count[ord];
            if count > 0 {
                let kib = block_size(ord) / 1024;
                let mut v: Vec<(usize, usize, usize)> = Vec::new();
                v.push((ord, count, kib));
                v.append(&mut r);
                r = v;
            }
        }
        r
    }

    /// Whether the block of the given order at `addr` may be freed: the
    /// order exists, the block is aligned and in range, and no page of it
    /// is free.
    pub fn can_free(&self, addr: usize, order: usize) -> (r: bool)
        requires
            self.wf(),
        ensures
            r == can_free_spec(self@, addr, order),
    {
        if order >= MAX_ORDER {
            return false;
        }
        let pfn = addr / PAGE_SIZE;
        proof {
            lemma_shift_is_pow2(order);
        }
        let size: usize = 1usize << order;
        if pfn > MAX_PAGES - size || pfn % size != 0 {
            return false;
        }
        let mut o: usize = 0;
        while o < MAX_ORDER
            invariant
                self.wf(),
                o <= MAX_ORDER,
                order < MAX_ORDER,
                size == block_pages(order as int),
                pfn == addr / PAGE_SIZE,
                pfn + size <= MAX_PAGES,
                pfn % size == 0,
                forall|o1: int, i: int|
                    0 <= o1 < o && 0 <= i < self@[o1].len() ==> blocks_disjoint(
                        #[trigger] self@[o1][i] as int,
                        o1,
                        pfn as int,
                        order as int,
                    ),
            decreases MAX_ORDER - o,
        {
            if !self.inner.list_clear_of(o, pfn, size) {
                proof {
                    let i = choose|i: int|
                        0 <= i < self@[o as int].len() && !(#[trigger] self@[o as int][i] + block_pages(
                            o as int,
                        ) <= pfn || pfn + size <= self@[o as int][i]);
                    assert(!blocks_disjoint(self@[o as int][i] as int, o as int, pfn as int, order as int));
                }
                return false;
            }
            o = o + 1;
        }
        proof {
            assert(block_ok(pfn as int, order as int));
        }
        true
    }

    /// Number of free blocks of the given order.
    pub fn free_pages(&self, order: usize) -> (r: usize)
        requires
            self.wf(),
            order < MAX_ORDER,
        ensures
            r == self@[order as int].len(),
    {
        self.inner.free_count[order]
    }
}

/// The block of the given order at `addr` may be freed: the order exists,
/// the block is aligned and in range, and no page of it is free.
pub open spec fn can_free_spec(l: Seq<Seq<usize>>, addr: usize, order: usize) -> bool {
    &&& order < MAX_ORDER
    &&& block_ok(addr as int / PAGE_SIZE as int, order as int)
    &&& block_is_unused(l, addr as int / PAGE_SIZE as int, order as int)
}

/// Per order from `o` up with free blocks: the order, its number of free
/// blocks, and the size of one block in KiB.
pub open spec fn stats_from(l: Seq<Seq<usize>>, o: int) -> Seq<(usize, usize, usize)>
    decreases MAX_ORDER - o,
{
    if o < 0 || o >= MAX_ORDER {
        Seq::empty()
    } else if l[o].len() > 0 {
        seq![(o as usize, l[o].len() as usize, (PAGE_SIZE * block_pages(o) / 1024) as usize)]
            + stats_from(l, o + 1)
    } else {
        stats_from(l, o + 1)
    }
}

/// The frames `[lo, hi)` that the whole pages of a region cover.
pub open spec fn region_frames(start: int, end: int) -> (int, int) {
    (page_align_up(start) / PAGE_SIZE as int, page_align_down(end) / PAGE_SIZE as int)
}

/// Frame `q` lies in a whole page of the region.
pub open spec fn in_region(r: MemoryRegion, q: int) -> bool {
    let (lo, hi) = region_frames(r.start as int, r.end as int);
    lo <= q < hi
}

/// The requirement of `init`: every usable region can be added on its own
/// (see `region_addable`), no page of one is free already, and no two
/// usable regions share a page.
pub open spec fn map_addable(l: Seq<Seq<usize>>, map: Seq<MemoryRegion>) -> bool {
    &&& forall|i: int|
        0 <= i < map.len() && is_usable(#[trigger] map[i]) ==> {
            let (lo, hi) = region_frames(map[i].start as int, map[i].end as int);
            &&& map[i].start + PAGE_SIZE <= usize::MAX
            &&& map[i].end <= usize::MAX
            &&& lo + 1 <= hi ==> hi <= MAX_PAGES
        }
    &&& forall|i: int, q: int|
        0 <= i < map.len() && is_usable(map[i]) && #[trigger] in_region(map[i], q) ==> !page_is_free(
            l,
            q,
        )
    &&& forall|i: int, j: int, q: int|
        0 <= i < map.len() && 0 <= j < map.len() && i != j && is_usable(map[i]) && is_usable(map[j])
            && #[trigger] in_region(map[i], q) ==> !#[trigger] in_region(map[j], q)
}

/// The free lists after adding the usable regions of `map` in order, each
/// as `add_region` adds it.
pub open spec fn init_spec(l: Seq<Seq<usize>>, map: Seq<MemoryRegion>) -> Seq<Seq<usize>>
    decreases map.len(),
{
    if map.len() == 0 {
        l
    } else {
        let prev = init_spec(l, map.drop_last());
        let r = map.last();
        if is_usable(r) {
            region_spec(prev, page_align_up(r.start as int), page_align_down(r.end as int))
        } else {
            prev
        }
    }
}

/// Adds every usable region of the boot memory map to the allocator.
pub fn init(allocator: &mut BuddyAllocator, memory_map: &[MemoryRegion])
    requires
        old(allocator).wf(),
        map_addable(old(allocator)@, memory_map@),
    ensures
        final(allocator).wf(),
        final(allocator)@ == init_spec(old(allocator)@, memory_map@),
        forall|q: int|
            #[trigger] page_is_free(final(allocator)@, q) <==> page_is_free(old(allocator)@, q) || exists|
                i: int,
            |
                0 <= i < memory_map@.len() && is_usable(memory_map@[i]) && #[trigger] in_region(
                    memory_map@[i],
                    q,
                ),
{
    let ghost l0 = allocator@;
    let ghost map = memory_map@;
    let mut k: usize = 0;
    while k < memory_map.len()
        invariant
            allocator.wf(),
            k <= map.len(),
            map == memory_map@,
            map_addable(l0, map),
            allocator@ == init_spec(l0, map.subrange(0, k as int)),
            forall|i: int, q: int|
                k <= i < map.len() && is_usable(map[i]) && #[trigger] in_region(map[i], q)
                    ==> !page_is_free(allocator@, q),
            forall|q: int|
                #[trigger] page_is_free(allocator@, q) <==> page_is_free(l0, q) || exists|i: int|
                    0 <= i < k && is_usable(map[i]) && #[trigger] in_region(map[i], q),
        decreases map.len() - k,
    {
        let region = memory_map[k];
        proof {
            assert(map.subrange(0, k + 1).drop_last() =~= map.subrange(0, k as int));
            assert(map.subrange(0, k + 1).last() == map[k as int]);
        }
        if region.kind == MemoryRegionKind::Usable {
            let ghost l = allocator@;
            let ghost (lo, hi) = region_frames(region.start as int, region.end as int);
            proof {
                assert(is_usable(map[k as int]));
                assert forall|q: int| lo <= q < hi implies !#[trigger] page_is_free(l, q) by {
                    assert(in_region(map[k as int], q));
                }
                lemma_unused_from_pages(l, lo, hi);
                vstd::arithmetic::div_mod::lemma_fundamental_div_mod(page_align_down(region.end as int), PAGE_SIZE as int);
                vstd::arithmetic::div_mod::lemma_fundamental_div_mod(page_align_up(region.start as int), PAGE_SIZE as int);
            }
            allocator.add_region(region.start as usize, region.end as usize);
            proof {
                assert forall|q: int| #[trigger] page_is_free(allocator@, q) <==> page_is_free(l0, q) || exists|i: int|
                    0 <= i < k + 1 && is_usable(map[i]) && #[trigger] in_region(map[i], q) by {
                    if in_region(map[k as int], q) {
                        assert(0 <= k < k + 1 && is_usable(map[k as int]) && in_region(map[k as int], q));
                    }
                    if exists|i: int| 0 <= i < k + 1 && is_usable(map[i]) && #[trigger] in_region(map[i], q) {
                        let i = choose|i: int| 0 <= i < k + 1 && is_usable(map[i]) && #[trigger] in_region(map[i], q);
                        if i < k {
                            assert(0 <= i < k && is_usable(map[i]) && in_region(map[i], q));
                        }
                    }
                }
                assert forall|i: int, q: int|
                    k + 1 <= i < map.len() && is_usable(map[i]) && #[trigger] in_region(map[i], q)
                        implies !page_is_free(allocator@, q) by {
                    assert(!in_region(map[k as int], q));
                }
            }
        } else {
            proof {
                assert forall|q: int| #[trigger] page_is_free(allocator@, q) <==> page_is_free(l0, q) || exists|i: int|
                    0 <= i < k + 1 && is_usable(map[i]) && #[trigger] in_region(map[i], q) by {
                    if exists|i: int| 0 <= i < k + 1 && is_usable(map[i]) && #[trigger] in_region(map[i], q) {
                        let i = choose|i: int| 0 <= i < k + 1 && is_usable(map[i]) && #[trigger] in_region(map[i], q);
                        assert(0 <= i < k && is_usable(map[i]) && in_region(map[i], q));
                    }
                }
            }
        }
        k = k + 1;
    }
    proof {
        assert(map.subrange(0, map.len() as int) =~= map);
    }
}

/// Clearing the low 12 bits rounds down to a page boundary.
proof fn lemma_page_mask(x: usize)
    ensures
        x & !(4095usize) == page_align_down(x as int),
        (x & !(4095usize)) as int % PAGE_SIZE as int == 0,
{
    assert(x & !(4095usize) == x - x % 4096) by (bit_vector);
    vstd::arithmetic::div_mod::lemma_fundamental_div_mod(x as int, 4096);
}

} // verus!
