//! The abstract model of the buddy allocator's free lists: which blocks
//! are free at each order, what each operation does to them, and the laws
//! those operations obey.
use vstd::prelude::*;
use vstd::arithmetic::power2::{pow2, lemma2_to64, lemma_pow2_pos};
use vstd::bits::lemma_usize_shl_is_mul;
use vstd::set_lib::lemma_len_subset;

verus! {

pub const PAGE_SIZE: usize = 4096;

pub const MAX_ORDER: usize = 11;

pub const MAX_PAGES: usize = 1048576;

/// End-of-list marker in the link table.
pub const NIL: usize = usize::MAX;

/// Number of pages in a block of the given order.
pub open spec fn block_pages(order: int) -> nat {
    pow2(order as nat)
}

/// The head of a free list, as the allocator stores it.
pub open spec fn head_of(list: Seq<usize>) -> Option<usize> {
    if list.len() == 0 {
        None
    } else {
        Some(list[0])
    }
}

/// The link stored for the `i`-th element of a free list.
pub open spec fn link_after(list: Seq<usize>, i: int) -> usize {
    if i + 1 < list.len() {
        list[i + 1]
    } else {
        NIL
    }
}

/// Block `[p1, p1 + 2^o1)` and block `[p2, p2 + 2^o2)` share no page.
pub open spec fn blocks_disjoint(p1: int, o1: int, p2: int, o2: int) -> bool {
    p1 + block_pages(o1) <= p2 || p2 + block_pages(o2) <= p1
}

/// A block of the given order at `pfn` lies inside the managed frames and
/// is aligned to its own size.
pub open spec fn block_ok(pfn: int, order: int) -> bool {
    &&& 0 <= pfn
    &&& pfn + block_pages(order) <= MAX_PAGES
    &&& pfn % (block_pages(order) as int) == 0
}

/// The free lists describe a valid set of free blocks: one list per order,
/// every block aligned and in range, and no two blocks overlapping.
#[verifier::opaque]
pub open spec fn lists_wf(l: Seq<Seq<usize>>) -> bool {
    &&& l.len() == MAX_ORDER
    &&& forall|o: int, i: int|
        0 <= o < MAX_ORDER && 0 <= i < l[o].len() ==> #[trigger] block_ok(l[o][i] as int, o)
    &&& forall|o1: int, i1: int, o2: int, i2: int|
        #![trigger l[o1][i1], l[o2][i2]]
        0 <= o1 < MAX_ORDER && 0 <= i1 < l[o1].len() && 0 <= o2 < MAX_ORDER && 0 <= i2
            < l[o2].len() && (o1 != o2 || i1 != i2) ==> blocks_disjoint(
            l[o1][i1] as int,
            o1,
            l[o2][i2] as int,
            o2,
        )
}

/// Page `q` lies in the block of the given order at frame `pfn`.
pub open spec fn in_block(q: int, pfn: int, order: int) -> bool {
    pfn <= q < pfn + block_pages(order)
}

/// Page `p` belongs to some free block.
pub open spec fn page_is_free(l: Seq<Seq<usize>>, p: int) -> bool {
    exists|o: int, i: int|
        0 <= o < MAX_ORDER && 0 <= i < l[o].len() && #[trigger] in_block(p, l[o][i] as int, o)
}

/// The block `[pfn, pfn + 2^order)` shares no page with any free block.
pub open spec fn block_is_unused(l: Seq<Seq<usize>>, pfn: int, order: int) -> bool {
    forall|o: int, i: int|
        0 <= o < MAX_ORDER && 0 <= i < l[o].len() ==> blocks_disjoint(
            #[trigger] l[o][i] as int,
            o,
            pfn,
            order,
        )
}

/// Number of free pages held in the lists of order `o` and above.
pub open spec fn pages_from(l: Seq<Seq<usize>>, o: int) -> nat
    decreases MAX_ORDER - o,
{
    if o < 0 || o >= MAX_ORDER {
        0
    } else {
        l[o].len() * block_pages(o) + pages_from(l, o + 1)
    }
}

/// Total number of free pages.
pub open spec fn total_free_pages(l: Seq<Seq<usize>>) -> nat {
    pages_from(l, 0)
}

/// Some list of order `order` or above holds a block.
pub open spec fn has_block_from(l: Seq<Seq<usize>>, order: int) -> bool {
    exists|o: int| order <= o < MAX_ORDER && #[trigger] l[o].len() > 0
}

/// The byte address of a frame, if any.
pub open spec fn frame_address(pfn: Option<usize>) -> Option<usize> {
    match pfn {
        Some(p) => Some((p * PAGE_SIZE) as usize),
        None => None,
    }
}

/// `l` with `pfn` pushed onto the front of the list of the given order.
pub open spec fn push_block(l: Seq<Seq<usize>>, order: int, pfn: usize) -> Seq<Seq<usize>> {
    l.update(order, seq![pfn] + l[order])
}

/// Every block of a well-formed family is aligned and in range.
pub(crate) proof fn lemma_wf_block_ok(l: Seq<Seq<usize>>, o: int, i: int)
    requires
        lists_wf(l),
        0 <= o < MAX_ORDER,
        0 <= i < l[o].len(),
    ensures
        block_ok(l[o][i] as int, o),
        l[o][i] < MAX_PAGES,
{
    reveal(lists_wf);
    lemma_pow2_pos(o as nat);
    assert(block_ok(l[o][i] as int, o));
}

/// Frame numbers of distinct blocks of a well-formed family differ.
pub(crate) proof fn lemma_wf_distinct(l: Seq<Seq<usize>>, o1: int, i1: int, o2: int, i2: int)
    requires
        lists_wf(l),
        0 <= o1 < MAX_ORDER,
        0 <= i1 < l[o1].len(),
        0 <= o2 < MAX_ORDER,
        0 <= i2 < l[o2].len(),
        o1 != o2 || i1 != i2,
    ensures
        l[o1][i1] != l[o2][i2],
{
    reveal(lists_wf);
    lemma_pow2_pos(o1 as nat);
    lemma_pow2_pos(o2 as nat);
    assert(blocks_disjoint(l[o1][i1] as int, o1, l[o2][i2] as int, o2));
}

/// Taking a block out of a well-formed family leaves it well-formed.
pub(crate) proof fn lemma_remove_wf(l: Seq<Seq<usize>>, o: int, k: int)
    requires
        lists_wf(l),
        0 <= o < MAX_ORDER,
        0 <= k < l[o].len(),
    ensures
        lists_wf(l.update(o, l[o].remove(k))),
{
    reveal(lists_wf);
    let n = l.update(o, l[o].remove(k));
    assert forall|o1: int, i1: int| 0 <= o1 < MAX_ORDER && 0 <= i1 < n[o1].len() implies #[trigger] block_ok(
        n[o1][i1] as int,
        o1,
    ) by {
        if o1 == o && i1 >= k {
            assert(n[o1][i1] == l[o1][i1 + 1]);
        } else {
            assert(n[o1][i1] == l[o1][i1]);
        }
    }
    assert forall|o1: int, i1: int, o2: int, i2: int|
        0 <= o1 < MAX_ORDER && 0 <= i1 < n[o1].len() && 0 <= o2 < MAX_ORDER && 0 <= i2
            < n[o2].len() && (o1 != o2 || i1 != i2) implies #[trigger] blocks_disjoint(
        n[o1][i1] as int,
        o1,
        n[o2][i2] as int,
        o2,
    ) by {
        let j1 = if o1 == o && i1 >= k { i1 + 1 } else { i1 };
        let j2 = if o2 == o && i2 >= k { i2 + 1 } else { i2 };
        assert(n[o1][i1] == l[o1][j1]);
        assert(n[o2][i2] == l[o2][j2]);
        assert(blocks_disjoint(l[o1][j1] as int, o1, l[o2][j2] as int, o2));
    }
}

/// Adding an aligned, in-range block that overlaps no free block keeps the
/// family well-formed.
pub(crate) proof fn lemma_push_wf(l: Seq<Seq<usize>>, o: int, pfn: usize)
    requires
        lists_wf(l),
        l.len() == MAX_ORDER,
        0 <= o < MAX_ORDER,
        block_ok(pfn as int, o),
        block_is_unused(l, pfn as int, o),
    ensures
        lists_wf(push_block(l, o, pfn)),
{
    reveal(lists_wf);
    let n = push_block(l, o, pfn);
    assert forall|o1: int, i1: int| 0 <= o1 < MAX_ORDER && 0 <= i1 < n[o1].len() implies #[trigger] block_ok(
        n[o1][i1] as int,
        o1,
    ) by {
        if o1 == o && i1 == 0 {
        } else {
            let j1 = if o1 == o { i1 - 1 } else { i1 };
            assert(n[o1][i1] == l[o1][j1]);
        }
    }
    assert forall|o1: int, i1: int, o2: int, i2: int|
        0 <= o1 < MAX_ORDER && 0 <= i1 < n[o1].len() && 0 <= o2 < MAX_ORDER && 0 <= i2
            < n[o2].len() && (o1 != o2 || i1 != i2) implies #[trigger] blocks_disjoint(
        n[o1][i1] as int,
        o1,
        n[o2][i2] as int,
        o2,
    ) by {
        let new1 = o1 == o && i1 == 0;
        let new2 = o2 == o && i2 == 0;
        let j1 = if o1 == o { i1 - 1 } else { i1 };
        let j2 = if o2 == o { i2 - 1 } else { i2 };
        if new1 {
            assert(n[o2][i2] == l[o2][j2]);
            assert(blocks_disjoint(l[o2][j2] as int, o2, pfn as int, o));
        } else if new2 {
            assert(n[o1][i1] == l[o1][j1]);
            assert(blocks_disjoint(l[o1][j1] as int, o1, pfn as int, o));
        } else {
            assert(n[o1][i1] == l[o1][j1]);
            assert(n[o2][i2] == l[o2][j2]);
            assert(blocks_disjoint(l[o1][j1] as int, o1, l[o2][j2] as int, o2));
        }
    }
}

/// What `alloc_block(order)` does to the free lists, and the frame it hands out:
/// the first block of the list of that order, or else the lower half of a
/// block split off the next order up, whose upper half joins this order.
pub open spec fn alloc_spec(l: Seq<Seq<usize>>, order: int) -> (Seq<Seq<usize>>, Option<usize>)
    decreases MAX_ORDER - order,
{
    if order < 0 || order >= MAX_ORDER {
        (l, None)
    } else if l[order].len() > 0 {
        (l.update(order, l[order].remove(0)), Some(l[order][0]))
    } else {
        let (l2, r) = alloc_spec(l, order + 1);
        match r {
            None => (l2, None),
            Some(p) => (push_block(l2, order, (p + block_pages(order)) as usize), Some(p)),
        }
    }
}

/// `alloc_spec` keeps the family well-formed and hands out an aligned block
/// that no free block overlaps afterwards.
pub(crate) proof fn lemma_alloc_spec(l: Seq<Seq<usize>>, order: int)
    requires
        lists_wf(l),
        l.len() == MAX_ORDER,
        0 <= order < MAX_ORDER,
    ensures
        lists_wf(alloc_spec(l, order).0),
        alloc_spec(l, order).0.len() == MAX_ORDER,
        alloc_spec(l, order).1 is Some <==> has_block_from(l, order),
        alloc_spec(l, order).1 is None ==> alloc_spec(l, order).0 == l,
        alloc_spec(l, order).1 matches Some(p) ==> block_ok(p as int, order) && block_is_unused(
            alloc_spec(l, order).0,
            p as int,
            order,
        ),
    decreases MAX_ORDER - order,
{
    if l[order].len() > 0 {
        lemma_remove_wf(l, order, 0);
        lemma_wf_block_ok(l, order, 0);
        let n = l.update(order, l[order].remove(0));
        let p = l[order][0];
        assert forall|o: int, i: int| 0 <= o < MAX_ORDER && 0 <= i < n[o].len() implies blocks_disjoint(
            #[trigger] n[o][i] as int,
            o,
            p as int,
            order,
        ) by {
            let j = if o == order { i + 1 } else { i };
            assert(n[o][i] == l[o][j]);
            reveal(lists_wf);
            assert(blocks_disjoint(l[o][j] as int, o, l[order][0] as int, order));
        }
    } else if order + 1 < MAX_ORDER {
        lemma_alloc_spec(l, order + 1);
        let (l2, r) = alloc_spec(l, order + 1);
        if r is Some {
            let p = r->0;
            let s = block_pages(order) as int;
            vstd::arithmetic::power2::lemma_pow2_unfold((order + 1) as nat);
            lemma_pow2_pos(order as nat);
            vstd::arithmetic::div_mod::lemma_mod_mod(p as int, s, 2);
            vstd::arithmetic::div_mod::lemma_mod_add_multiples_vanish(p as int, s);
            let q = (p + s) as usize;
            assert(block_ok(p as int, order + 1));
            assert(block_pages(order + 1) == s * 2);
            assert(p as int % (s * 2) == 0);
            vstd::arithmetic::div_mod::lemma_small_mod(0, s as nat);
            assert((p as int % (s * 2)) % s == 0);
            assert(p as int % s == 0);
            assert((s + p as int) % s == 0);
            assert(block_ok(q as int, order));
            assert forall|o: int, i: int| 0 <= o < MAX_ORDER && 0 <= i < l2[o].len() implies blocks_disjoint(
                #[trigger] l2[o][i] as int,
                o,
                q as int,
                order,
            ) by {
                assert(blocks_disjoint(l2[o][i] as int, o, p as int, order + 1));
            }
            lemma_push_wf(l2, order, q);
            let n = push_block(l2, order, q);
            assert(block_ok(p as int, order)) by {
                assert(p as int % s == 0);
            }
            assert forall|o: int, i: int| 0 <= o < MAX_ORDER && 0 <= i < n[o].len() implies blocks_disjoint(
                #[trigger] n[o][i] as int,
                o,
                p as int,
                order,
            ) by {
                if o == order && i == 0 {
                } else {
                    let j = if o == order { i - 1 } else { i };
                    assert(n[o][i] == l2[o][j]);
                    assert(blocks_disjoint(l2[o][j] as int, o, p as int, order + 1));
                }
            }
        }
        if has_block_from(l, order) {
            let o = choose|o: int| order <= o < MAX_ORDER && #[trigger] l[o].len() > 0;
            assert(o != order);
            assert(has_block_from(l, order + 1));
        }
        if has_block_from(l, order + 1) {
            let o = choose|o: int| order + 1 <= o < MAX_ORDER && #[trigger] l[o].len() > 0;
            assert(has_block_from(l, order));
        }
    } else {
        assert(!has_block_from(l, order));
    }
}

/// The smaller of two frame numbers.
pub open spec fn min_frame(a: usize, b: usize) -> usize {
    if a <= b {
        a
    } else {
        b
    }
}

/// What `free(pfn, order)` does to the free lists: while the buddy of the
/// block is free (below the top order), take the buddy out and continue
/// with the merged block one order up; then push the block.
pub open spec fn free_spec(l: Seq<Seq<usize>>, pfn: usize, order: int) -> Seq<Seq<usize>>
    decreases MAX_ORDER - order,
{
    if order < 0 || order >= MAX_ORDER - 1 {
        push_block(l, order, pfn)
    } else {
        let b = buddy_of(pfn, order as usize);
        if l[order].contains(b) {
            free_spec(
                l.update(order, l[order].remove(l[order].index_of(b))),
                min_frame(pfn, b),
                order + 1,
            )
        } else {
            push_block(l, order, pfn)
        }
    }
}

/// In a list without repeats, `index_of` finds the one position of a value.
pub(crate) proof fn lemma_index_of_unique(s: Seq<usize>, k: int)
    requires
        0 <= k < s.len(),
        forall|i: int, j: int| 0 <= i < s.len() && 0 <= j < s.len() && i != j ==> s[i] != s[j],
    ensures
        s.contains(s[k]),
        s.index_of(s[k]) == k,
{
    assert(s[k] == s[k]);
    let i = s.index_of(s[k]);
    assert(0 <= i < s.len() && s[i] == s[k]);
}

/// Distinct positions of one list of a well-formed family hold distinct
/// frames.
pub(crate) proof fn lemma_list_distinct(l: Seq<Seq<usize>>, o: int)
    requires
        lists_wf(l),
        0 <= o < MAX_ORDER,
    ensures
        forall|i: int, j: int|
            0 <= i < l[o].len() && 0 <= j < l[o].len() && i != j ==> l[o][i] != l[o][j],
{
    assert forall|i: int, j: int| 0 <= i < l[o].len() && 0 <= j < l[o].len() && i != j implies l[o][i]
        != l[o][j] by {
        lemma_wf_distinct(l, o, i, o, j);
    }
}

/// One merge step of `free`: when the buddy of an unused block is free,
/// taking the buddy out leaves a well-formed family in which the merged
/// block one order up is unused.
pub(crate) proof fn lemma_merge_step(l: Seq<Seq<usize>>, pfn: usize, order: int)
    requires
        lists_wf(l),
        l.len() == MAX_ORDER,
        0 <= order < MAX_ORDER - 1,
        block_ok(pfn as int, order),
        block_is_unused(l, pfn as int, order),
        l[order].contains(buddy_of(pfn, order as usize)),
    ensures
        ({
            let b = buddy_of(pfn, order as usize);
            let n = l.update(order, l[order].remove(l[order].index_of(b)));
            let m = min_frame(pfn, b);
            &&& lists_wf(n)
            &&& n.len() == MAX_ORDER
            &&& block_ok(m as int, order + 1)
            &&& block_is_unused(n, m as int, order + 1)
        }),
{
    let b = buddy_of(pfn, order as usize);
    let k = l[order].index_of(b);
    let n = l.update(order, l[order].remove(k));
    lemma_remove_wf(l, order, k);
    lemma_wf_block_ok(l, order, k);
    lemma_pow2_pos(order as nat);
    lemma_buddy(pfn, order as usize);
    let m = min_frame(pfn, b);
    assert(block_ok(m as int, order + 1));
    assert forall|o: int, i: int| 0 <= o < MAX_ORDER && 0 <= i < n[o].len() implies blocks_disjoint(
        #[trigger] n[o][i] as int,
        o,
        m as int,
        order + 1,
    ) by {
        let j = if o == order && i >= k { i + 1 } else { i };
        assert(n[o][i] == l[o][j]);
        lemma_pow2_pos(o as nat);
        assert(blocks_disjoint(l[o][j] as int, o, pfn as int, order));
        reveal(lists_wf);
        assert(blocks_disjoint(l[o][j] as int, o, l[order][k] as int, order));
    }
}

/// Freeing keeps the family well-formed.
pub(crate) proof fn lemma_free_spec(l: Seq<Seq<usize>>, pfn: usize, order: int)
    requires
        lists_wf(l),
        l.len() == MAX_ORDER,
        0 <= order < MAX_ORDER,
        block_ok(pfn as int, order),
        block_is_unused(l, pfn as int, order),
    ensures
        lists_wf(free_spec(l, pfn, order)),
        free_spec(l, pfn, order).len() == MAX_ORDER,
    decreases MAX_ORDER - order,
{
    if order >= MAX_ORDER - 1 {
        lemma_push_wf(l, order, pfn);
    } else {
        let b = buddy_of(pfn, order as usize);
        if l[order].contains(b) {
            lemma_merge_step(l, pfn, order);
            lemma_free_spec(
                l.update(order, l[order].remove(l[order].index_of(b))),
                min_frame(pfn, b),
                order + 1,
            );
        } else {
            lemma_push_wf(l, order, pfn);
        }
    }
}

/// Blocks with distinct frame numbers below `MAX_PAGES` number at most
/// `MAX_PAGES`.
pub(crate) proof fn lemma_distinct_frames_bounded(s: Seq<usize>)
    requires
        s.no_duplicates(),
        forall|i: int| 0 <= i < s.len() ==> s[i] < MAX_PAGES,
    ensures
        s.len() <= MAX_PAGES,
{
    s.unique_seq_to_set();
    let r = Set::<usize>::range(0usize, MAX_PAGES);
    <usize as vstd::set_lib::FiniteRange>::range_properties(0usize, MAX_PAGES);
    assert(s.to_set().subset_of(r));
    lemma_len_subset(s.to_set(), r);
}

/// A list of a well-formed free-list family holds distinct frames.
pub(crate) proof fn lemma_list_bounded(l: Seq<Seq<usize>>, o: int)
    requires
        lists_wf(l),
        0 <= o < MAX_ORDER,
    ensures
        l[o].len() <= MAX_PAGES,
{
    reveal(lists_wf);
    assert forall|i: int, j: int| 0 <= i < l[o].len() && 0 <= j < l[o].len() && i != j implies l[o][i]
        != l[o][j] by {
        lemma_pow2_pos(o as nat);
        assert(blocks_disjoint(l[o][i] as int, o, l[o][j] as int, o));
    }
    assert forall|i: int| 0 <= i < l[o].len() implies l[o][i] < MAX_PAGES by {
        lemma_pow2_pos(o as nat);
        assert(block_ok(l[o][i] as int, o));
    }
    lemma_distinct_frames_bounded(l[o]);
}


/// The frame number of the buddy of the block of the given order at `pfn`.
pub open spec fn buddy_of(pfn: usize, order: usize) -> usize {
    pfn ^ (1usize << order)
}

/// `1 << order` is `2^order` for the orders the allocator uses.
pub(crate) proof fn lemma_shift_is_pow2(order: usize)
    requires
        order <= MAX_ORDER,
    ensures
        (1usize << order) == block_pages(order as int),
        block_pages(order as int) <= 2048,
        block_pages(order as int) >= 1,
{
    lemma2_to64();
    lemma_usize_shl_is_mul(1usize, order);
    lemma_pow2_pos(order as nat);
    if order < MAX_ORDER {
        vstd::arithmetic::power2::lemma_pow2_strictly_increases(order as nat, MAX_ORDER as nat);
    }
}

/// Of a block and its buddy, one starts the block of the next order and
/// the other follows it directly.
pub(crate) proof fn lemma_buddy(pfn: usize, order: usize)
    requires
        order < MAX_ORDER,
        pfn < MAX_PAGES,
        pfn as int % (block_pages(order as int) as int) == 0,
    ensures
        ({
            let b = buddy_of(pfn, order) as int;
            let p = pfn as int;
            let s = block_pages(order as int) as int;
            ||| (p % (2 * s) == 0 && b == p + s)
            ||| (b % (2 * s) == 0 && p == b + s)
        }),
        block_pages(order as int + 1) == 2 * block_pages(order as int),
{
    lemma_shift_is_pow2(order);
    lemma_shift_is_pow2((order + 1) as usize);
    vstd::arithmetic::power2::lemma_pow2_unfold((order + 1) as nat);
    let o = order;
    let sz: usize = 1usize << o;
    let tz: usize = 1usize << ((o + 1) as usize);
    vstd::bits::lemma_usize_low_bits_mask_is_mod(pfn, o as nat);
    vstd::bits::lemma_usize_low_bits_mask_is_mod(pfn, (o + 1) as nat);
    vstd::bits::lemma_usize_low_bits_mask_is_mod(pfn ^ sz, (o + 1) as nat);
    let o1: usize = (o + 1) as usize;
    let szm: usize = (sz - 1) as usize;
    let tzm: usize = (tz - 1) as usize;
    assert(pfn & szm == 0usize);
    assert(((pfn & tzm) == 0usize && (pfn ^ sz) == pfn + sz) || (((pfn ^ sz) & tzm) == 0usize && pfn
        == (pfn ^ sz) + sz)) by (bit_vector)
        requires
            o < 11usize,
            o1 == o + 1,
            sz == 1usize << o,
            tz == 1usize << o1,
            szm + 1 == sz,
            tzm + 1 == tz,
            pfn < 0x100000usize,
            pfn & szm == 0usize,
    ;
}


/// The largest order, from `order` down, whose block fits at `addr`: it is
/// aligned to its size and ends by `end`.  Order 0 when none larger fits.
pub open spec fn fit_order(addr: int, end: int, order: int) -> int
    decreases order,
{
    if order <= 0 {
        0
    } else if addr % (PAGE_SIZE * block_pages(order)) as int == 0 && addr + PAGE_SIZE * block_pages(
        order,
    ) <= end {
        order
    } else {
        fit_order(addr, end, order - 1)
    }
}

/// What adding the page-aligned range `[addr, end)` does to the free lists:
/// from the start, the largest fitting block is pushed, until less than one
/// page remains.
pub open spec fn region_spec(l: Seq<Seq<usize>>, addr: int, end: int) -> Seq<Seq<usize>>
    decreases end - addr,
    via region_spec_decreases
{
    if addr + PAGE_SIZE > end {
        l
    } else {
        let o = fit_order(addr, end, MAX_ORDER - 1);
        region_spec(
            push_block(l, o, (addr / PAGE_SIZE as int) as usize),
            addr + PAGE_SIZE * block_pages(o),
            end,
        )
    }
}

#[via_fn]
pub(crate) proof fn region_spec_decreases(l: Seq<Seq<usize>>, addr: int, end: int) {
    let o = fit_order(addr, end, MAX_ORDER - 1);
    lemma_pow2_pos(o as nat);
    lemma_fit_order_fits(addr, end, MAX_ORDER - 1);
}

/// The block chosen by `fit_order` ends by `end` when a page does.
pub(crate) proof fn lemma_fit_order_fits(addr: int, end: int, order: int)
    ensures
        addr + PAGE_SIZE <= end ==> addr + PAGE_SIZE * block_pages(fit_order(addr, end, order))
            <= end,
    decreases order,
{
    lemma2_to64();
    if order > 0 {
        lemma_fit_order_fits(addr, end, order - 1);
    }
}

/// `addr` rounded up to a page boundary.
pub open spec fn page_align_up(addr: int) -> int {
    ((addr + PAGE_SIZE - 1) / PAGE_SIZE as int) * PAGE_SIZE
}

/// `addr` rounded down to a page boundary.
pub open spec fn page_align_down(addr: int) -> int {
    (addr / PAGE_SIZE as int) * PAGE_SIZE
}

/// No free block holds a page of the frame range `[lo, hi)`.
pub open spec fn range_is_unused(l: Seq<Seq<usize>>, lo: int, hi: int) -> bool {
    forall|o: int, i: int|
        0 <= o < MAX_ORDER && 0 <= i < l[o].len() ==> (hi <= lo || #[trigger] l[o][i] + block_pages(o)
            <= lo || hi <= l[o][i])
}

/// The requirement of `add_region(start, end)`: rounding `start` up does not
/// overflow, the pages lie below `MAX_PAGES`, and none of them is free yet.
pub open spec fn region_addable(l: Seq<Seq<usize>>, start: int, end: int) -> bool {
    let lo = page_align_up(start);
    let hi = page_align_down(end);
    &&& start + PAGE_SIZE <= usize::MAX
    &&& lo + PAGE_SIZE <= hi ==> hi <= MAX_PAGES * PAGE_SIZE
    &&& range_is_unused(l, lo / PAGE_SIZE as int, hi / PAGE_SIZE as int)
}

/// The block chosen by `fit_order` is aligned to its size, in range when the
/// range is, and ends by `end`.
pub(crate) proof fn lemma_fit_block(addr: int, end: int, order: int)
    requires
        0 <= order < MAX_ORDER,
        addr >= 0,
        addr % PAGE_SIZE as int == 0,
        addr + PAGE_SIZE <= end,
        end % PAGE_SIZE as int == 0,
        fit_order(addr, end, MAX_ORDER - 1) == order,
    ensures
        addr + PAGE_SIZE * block_pages(order) <= end,
        (addr / PAGE_SIZE as int) % (block_pages(order) as int) == 0,
        addr / PAGE_SIZE as int + block_pages(order) <= end / PAGE_SIZE as int,
{
    lemma_fit_order(addr, end, MAX_ORDER - 1);
    let b = block_pages(order) as int;
    lemma_pow2_pos(order as nat);
    vstd::arithmetic::div_mod::lemma_mod_breakdown(addr, PAGE_SIZE as int, b);
    vstd::arithmetic::div_mod::lemma_fundamental_div_mod(addr, PAGE_SIZE as int);
    vstd::arithmetic::div_mod::lemma_fundamental_div_mod(end, PAGE_SIZE as int);
    assert(addr % (PAGE_SIZE * b) == 0);
}

/// `fit_order` picks an order whose block fits, order 0 aside.
pub(crate) proof fn lemma_fit_order(addr: int, end: int, order: int)
    requires
        0 <= order,
        addr % PAGE_SIZE as int == 0,
        addr + PAGE_SIZE <= end,
    ensures
        0 <= fit_order(addr, end, order) <= order,
        addr % (PAGE_SIZE * block_pages(fit_order(addr, end, order))) as int == 0,
        addr + PAGE_SIZE * block_pages(fit_order(addr, end, order)) <= end,
    decreases order,
{
    lemma2_to64();
    if order > 0 && !(addr % (PAGE_SIZE * block_pages(order)) as int == 0 && addr + PAGE_SIZE
        * block_pages(order) <= end) {
        lemma_fit_order(addr, end, order - 1);
    }
}

/// With every list empty, no page is free.
pub(crate) proof fn lemma_pages_from_empty(l: Seq<Seq<usize>>, o: int)
    requires
        l.len() == MAX_ORDER,
        forall|j: int| 0 <= j < MAX_ORDER ==> #[trigger] l[j].len() == 0,
    ensures
        pages_from(l, o) == 0,
    decreases MAX_ORDER - o,
{
    if 0 <= o < MAX_ORDER {
        lemma_pages_from_empty(l, o + 1);
    }
}

/// Taking the `k`-th block of order `o` out frees exactly its pages from
/// the free set.
pub(crate) proof fn lemma_free_after_remove(l: Seq<Seq<usize>>, o: int, k: int)
    requires
        lists_wf(l),
        l.len() == MAX_ORDER,
        0 <= o < MAX_ORDER,
        0 <= k < l[o].len(),
    ensures
        forall|q: int|
            #[trigger] page_is_free(l.update(o, l[o].remove(k)), q) <==> page_is_free(l, q) && !in_block(
                q,
                l[o][k] as int,
                o,
            ),
{
    let n = l.update(o, l[o].remove(k));
    assert forall|q: int| #[trigger] page_is_free(n, q) <==> page_is_free(l, q) && !in_block(
        q,
        l[o][k] as int,
        o,
    ) by {
        if page_is_free(n, q) {
            let (o1, i1) = choose|o1: int, i1: int|
                0 <= o1 < MAX_ORDER && 0 <= i1 < n[o1].len() && #[trigger] in_block(q, n[o1][i1] as int, o1);
            let j1 = if o1 == o && i1 >= k { i1 + 1 } else { i1 };
            assert(n[o1][i1] == l[o1][j1]);
            assert(in_block(q, l[o1][j1] as int, o1));
            reveal(lists_wf);
            assert(blocks_disjoint(l[o1][j1] as int, o1, l[o][k] as int, o));
        }
        if page_is_free(l, q) && !in_block(q, l[o][k] as int, o) {
            let (o1, j1) = choose|o1: int, j1: int|
                0 <= o1 < MAX_ORDER && 0 <= j1 < l[o1].len() && #[trigger] in_block(q, l[o1][j1] as int, o1);
            assert(o1 != o || j1 != k);
            let i1 = if o1 == o && j1 > k { j1 - 1 } else { j1 };
            assert(n[o1][i1] == l[o1][j1]);
            assert(in_block(q, n[o1][i1] as int, o1));
        }
    }
}

/// Pushing a block adds exactly its pages to the free set.
pub(crate) proof fn lemma_free_after_push(l: Seq<Seq<usize>>, o: int, pfn: usize)
    requires
        l.len() == MAX_ORDER,
        0 <= o < MAX_ORDER,
    ensures
        forall|q: int|
            #[trigger] page_is_free(push_block(l, o, pfn), q) <==> page_is_free(l, q) || in_block(
                q,
                pfn as int,
                o,
            ),
{
    let n = push_block(l, o, pfn);
    assert forall|q: int| #[trigger] page_is_free(n, q) <==> page_is_free(l, q) || in_block(
        q,
        pfn as int,
        o,
    ) by {
        if page_is_free(n, q) {
            let (o1, i1) = choose|o1: int, i1: int|
                0 <= o1 < MAX_ORDER && 0 <= i1 < n[o1].len() && #[trigger] in_block(q, n[o1][i1] as int, o1);
            if !(o1 == o && i1 == 0) {
                let j1 = if o1 == o { i1 - 1 } else { i1 };
                assert(n[o1][i1] == l[o1][j1]);
                assert(in_block(q, l[o1][j1] as int, o1));
            }
        }
        if page_is_free(l, q) {
            let (o1, j1) = choose|o1: int, j1: int|
                0 <= o1 < MAX_ORDER && 0 <= j1 < l[o1].len() && #[trigger] in_block(q, l[o1][j1] as int, o1);
            let i1 = if o1 == o { j1 + 1 } else { j1 };
            assert(n[o1][i1] == l[o1][j1]);
            assert(in_block(q, n[o1][i1] as int, o1));
        }
        if in_block(q, pfn as int, o) {
            assert(n[o][0] == pfn);
            assert(in_block(q, n[o][0] as int, o));
        }
    }
}

/// Replacing the list of order `o` changes the page count by the change in
/// that list's length times the block size.
pub(crate) proof fn lemma_pages_update(l: Seq<Seq<usize>>, o: int, s: Seq<usize>, from: int)
    requires
        l.len() == MAX_ORDER,
        0 <= o < MAX_ORDER,
        0 <= from,
    ensures
        pages_from(l.update(o, s), from) + (if from <= o { l[o].len() * block_pages(o) } else { 0 })
            == pages_from(l, from) + (if from <= o { s.len() * block_pages(o) } else { 0 }),
    decreases MAX_ORDER - from,
{
    if from < MAX_ORDER {
        lemma_pages_update(l, o, s, from + 1);
    }
}

/// Taking one block out of the list of order `o` frees `2^o` fewer pages.
pub(crate) proof fn lemma_pages_remove(l: Seq<Seq<usize>>, o: int, k: int)
    requires
        l.len() == MAX_ORDER,
        0 <= o < MAX_ORDER,
        0 <= k < l[o].len(),
    ensures
        total_free_pages(l.update(o, l[o].remove(k))) + block_pages(o) == total_free_pages(l),
{
    let s = l[o].remove(k);
    lemma_pages_update(l, o, s, 0);
    vstd::arithmetic::mul::lemma_mul_is_distributive_add(block_pages(o) as int, s.len() as int, 1);
    assert(l[o].len() == s.len() + 1);
    assert(l[o].len() * block_pages(o) == s.len() * block_pages(o) + block_pages(o)) by (nonlinear_arith)
        requires
            l[o].len() == s.len() + 1,
    ;
}

/// Pushing a block of order `o` adds `2^o` free pages.
pub(crate) proof fn lemma_pages_push(l: Seq<Seq<usize>>, o: int, pfn: usize)
    requires
        l.len() == MAX_ORDER,
        0 <= o < MAX_ORDER,
    ensures
        total_free_pages(push_block(l, o, pfn)) == total_free_pages(l) + block_pages(o),
{
    let s = seq![pfn] + l[o];
    lemma_pages_update(l, o, s, 0);
    assert(s.len() == l[o].len() + 1);
    assert(s.len() * block_pages(o) == l[o].len() * block_pages(o) + block_pages(o)) by (nonlinear_arith)
        requires
            s.len() == l[o].len() + 1,
    ;
}

/// What `alloc_spec` does to the free pages: the block it hands out was
/// wholly free and leaves the free set, and nothing else changes.
pub(crate) proof fn lemma_alloc_pages(l: Seq<Seq<usize>>, order: int)
    requires
        lists_wf(l),
        l.len() == MAX_ORDER,
        0 <= order < MAX_ORDER,
    ensures
        alloc_spec(l, order).1 matches Some(p) ==> {
            &&& forall|q: int|
                #[trigger] page_is_free(alloc_spec(l, order).0, q) <==> page_is_free(l, q) && !in_block(
                    q,
                    p as int,
                    order,
                )
            &&& forall|q: int| in_block(q, p as int, order) ==> #[trigger] page_is_free(l, q)
            &&& total_free_pages(alloc_spec(l, order).0) + block_pages(order) == total_free_pages(l)
        },
    decreases MAX_ORDER - order,
{
    if l[order].len() > 0 {
        let p = l[order][0];
        lemma_free_after_remove(l, order, 0);
        lemma_pages_remove(l, order, 0);
        assert forall|q: int| in_block(q, p as int, order) implies #[trigger] page_is_free(l, q) by {
            assert(in_block(q, l[order][0] as int, order));
        }
    } else if order + 1 < MAX_ORDER {
        lemma_alloc_spec(l, order + 1);
        lemma_alloc_pages(l, order + 1);
        let (l2, r) = alloc_spec(l, order + 1);
        if r is Some {
            let p = r->0;
            let s = block_pages(order) as int;
            vstd::arithmetic::power2::lemma_pow2_unfold((order + 1) as nat);
            let b = (p + s) as usize;
            lemma_free_after_push(l2, order, b);
            lemma_pages_push(l2, order, b);
            assert forall|q: int| in_block(q, p as int, order) implies #[trigger] page_is_free(l, q) by {
                assert(in_block(q, p as int, order + 1));
            }
        }
    }
}

/// What `free_spec` does to the free pages: the pages of the freed block
/// join the free set, and nothing else changes.
pub(crate) proof fn lemma_free_pages(l: Seq<Seq<usize>>, pfn: usize, order: int)
    requires
        lists_wf(l),
        l.len() == MAX_ORDER,
        0 <= order < MAX_ORDER,
        block_ok(pfn as int, order),
        block_is_unused(l, pfn as int, order),
    ensures
        forall|q: int|
            #[trigger] page_is_free(free_spec(l, pfn, order), q) <==> page_is_free(l, q) || in_block(
                q,
                pfn as int,
                order,
            ),
        total_free_pages(free_spec(l, pfn, order)) == total_free_pages(l) + block_pages(order),
    decreases MAX_ORDER - order,
{
    if order >= MAX_ORDER - 1 {
        lemma_free_after_push(l, order, pfn);
        lemma_pages_push(l, order, pfn);
    } else {
        let b = buddy_of(pfn, order as usize);
        if l[order].contains(b) {
            let k = l[order].index_of(b);
            let n = l.update(order, l[order].remove(k));
            let m = min_frame(pfn, b);
            lemma_merge_step(l, pfn, order);
            lemma_free_after_remove(l, order, k);
            lemma_pages_remove(l, order, k);
            lemma_free_pages(n, m, order + 1);
            lemma_pow2_pos(order as nat);
            lemma_buddy(pfn, order as usize);
            lemma_wf_block_ok(l, order, k);
            vstd::arithmetic::power2::lemma_pow2_unfold((order + 1) as nat);
            assert forall|q: int| #[trigger] page_is_free(free_spec(l, pfn, order), q) <==> page_is_free(
                l,
                q,
            ) || in_block(q, pfn as int, order) by {
                if in_block(q, b as int, order) {
                    assert(in_block(q, l[order][k] as int, order));
                }
            }
        } else {
            lemma_free_after_push(l, order, pfn);
            lemma_pages_push(l, order, pfn);
        }
    }
}

/// What `region_spec` does: the family stays well-formed, exactly the pages
/// of the frame range `[addr / PAGE_SIZE, end / PAGE_SIZE)` join the free
/// set, and the free page count grows by their number.
pub(crate) proof fn lemma_region_pages(l: Seq<Seq<usize>>, addr: int, end: int)
    requires
        lists_wf(l),
        l.len() == MAX_ORDER,
        addr >= 0,
        addr % PAGE_SIZE as int == 0,
        end % PAGE_SIZE as int == 0,
        addr + PAGE_SIZE <= end ==> end <= MAX_PAGES * PAGE_SIZE,
        range_is_unused(l, addr / PAGE_SIZE as int, end / PAGE_SIZE as int),
    ensures
        lists_wf(region_spec(l, addr, end)),
        region_spec(l, addr, end).len() == MAX_ORDER,
        forall|q: int|
            #[trigger] page_is_free(region_spec(l, addr, end), q) <==> page_is_free(l, q) || (addr
                / PAGE_SIZE as int <= q < end / PAGE_SIZE as int),
        total_free_pages(region_spec(l, addr, end)) == total_free_pages(l) + (if addr <= end {
            (end - addr) / PAGE_SIZE as int
        } else {
            0
        }),
    decreases end - addr,
{
    vstd::arithmetic::div_mod::lemma_fundamental_div_mod(addr, PAGE_SIZE as int);
    vstd::arithmetic::div_mod::lemma_fundamental_div_mod(end, PAGE_SIZE as int);
    let a = addr / PAGE_SIZE as int;
    let h = end / PAGE_SIZE as int;
    if addr + PAGE_SIZE > end {
        assert(a >= h);
        if addr <= end {
            assert(addr == end);
            assert((end - addr) / PAGE_SIZE as int == 0);
        }
    } else {
        let o = fit_order(addr, end, MAX_ORDER - 1);
        lemma_fit_order(addr, end, MAX_ORDER - 1);
        lemma_fit_block(addr, end, o);
        lemma_pow2_pos(o as nat);
        let pfn = a as usize;
        let b = block_pages(o) as int;
        assert(block_ok(pfn as int, o));
        assert forall|o1: int, i1: int| 0 <= o1 < MAX_ORDER && 0 <= i1 < l[o1].len() implies blocks_disjoint(
            #[trigger] l[o1][i1] as int,
            o1,
            pfn as int,
            o,
        ) by {
            assert(l[o1][i1] + block_pages(o1) <= a || h <= l[o1][i1]);
        }
        lemma_push_wf(l, o, pfn);
        let n = push_block(l, o, pfn);
        let next = addr + PAGE_SIZE * b;
        assert(next / PAGE_SIZE as int == a + b) by {
            vstd::arithmetic::div_mod::lemma_div_multiples_vanish(a + b, PAGE_SIZE as int);
            assert(next == PAGE_SIZE * (a + b));
        }
        assert(next % PAGE_SIZE as int == 0) by {
            vstd::arithmetic::div_mod::lemma_mod_multiples_basic(a + b, PAGE_SIZE as int);
            assert(next == (a + b) * PAGE_SIZE);
        }
        assert forall|o1: int, i1: int| 0 <= o1 < MAX_ORDER && 0 <= i1 < n[o1].len() implies (#[trigger] n[o1][i1]
            + block_pages(o1) <= a + b || h <= n[o1][i1]) by {
            if !(o1 == o && i1 == 0) {
                let j1 = if o1 == o { i1 - 1 } else { i1 };
                assert(n[o1][i1] == l[o1][j1]);
                assert(l[o1][j1] + block_pages(o1) <= a || h <= l[o1][j1]);
            }
        }
        assert(range_is_unused(n, next / PAGE_SIZE as int, h));
        lemma_region_pages(n, next, end);
        lemma_free_after_push(l, o, pfn);
        lemma_pages_push(l, o, pfn);
        assert((end - addr) / PAGE_SIZE as int == h - a) by {
            vstd::arithmetic::div_mod::lemma_div_multiples_vanish(h - a, PAGE_SIZE as int);
            assert(end - addr == PAGE_SIZE * (h - a));
        }
        assert((end - next) / PAGE_SIZE as int == h - a - b) by {
            vstd::arithmetic::div_mod::lemma_div_multiples_vanish(h - a - b, PAGE_SIZE as int);
            assert(end - next == PAGE_SIZE * (h - a - b));
        }
    }
}

/// The address of an aligned block is aligned to the block's byte size.
pub(crate) proof fn lemma_frame_aligned(p: usize, o: int)
    requires
        0 <= o < MAX_ORDER,
        block_ok(p as int, o),
    ensures
        p * PAGE_SIZE <= usize::MAX,
        (p * PAGE_SIZE) as int % (PAGE_SIZE * block_pages(o)) as int == 0,
        (p * PAGE_SIZE) as int / PAGE_SIZE as int == p,
{
    lemma_pow2_pos(o as nat);
    let b = block_pages(o) as int;
    let k = p as int / b;
    vstd::arithmetic::div_mod::lemma_fundamental_div_mod(p as int, b);
    assert(p * PAGE_SIZE == (PAGE_SIZE * b) * k) by (nonlinear_arith)
        requires
            p == b * k + 0,
    ;
    vstd::arithmetic::div_mod::lemma_mod_multiples_basic(k, PAGE_SIZE * b);
    vstd::arithmetic::div_mod::lemma_div_multiples_vanish(p as int, PAGE_SIZE as int);
}

/// No page of a frame range being free means no free block overlaps it.
pub(crate) proof fn lemma_unused_from_pages(l: Seq<Seq<usize>>, lo: int, hi: int)
    requires
        l.len() == MAX_ORDER,
        forall|q: int| lo <= q < hi ==> !#[trigger] page_is_free(l, q),
    ensures
        range_is_unused(l, lo, hi),
{
    assert forall|o: int, i: int| 0 <= o < MAX_ORDER && 0 <= i < l[o].len() implies (hi <= lo || #[trigger] l[o][i]
        + block_pages(o) <= lo || hi <= l[o][i]) by {
        lemma_pow2_pos(o as nat);
        if !(hi <= lo || l[o][i] + block_pages(o) <= lo || hi <= l[o][i]) {
            let q = if l[o][i] >= lo { l[o][i] as int } else { lo };
            assert(in_block(q, l[o][i] as int, o));
            assert(page_is_free(l, q));
        }
    }
}

/// Freeing the block that an allocation has just handed out gives back
/// exactly the free pages, and the free page count, from before the
/// allocation.
pub proof fn law_alloc_then_free(l: Seq<Seq<usize>>, order: int)
    requires
        lists_wf(l),
        l.len() == MAX_ORDER,
        0 <= order < MAX_ORDER,
        alloc_spec(l, order).1 is Some,
    ensures
        ({
            let (after_alloc, p) = alloc_spec(l, order);
            let after_free = free_spec(after_alloc, p->0, order);
            &&& lists_wf(after_free)
            &&& forall|q: int| #[trigger] page_is_free(after_free, q) <==> page_is_free(l, q)
            &&& total_free_pages(after_free) == total_free_pages(l)
        }),
{
    let (a, p) = alloc_spec(l, order);
    let pfn = p->0;
    lemma_alloc_spec(l, order);
    lemma_alloc_pages(l, order);
    lemma_free_spec(a, pfn, order);
    lemma_free_pages(a, pfn, order);
    assert forall|q: int| #[trigger] page_is_free(free_spec(a, pfn, order), q) <==> page_is_free(l, q) by {
        if in_block(q, pfn as int, order) {
            assert(page_is_free(l, q));
        }
    }
}

/// No free block below the top order has its buddy free beside it in the
/// same list, as holds when every possible merge has been made.
pub open spec fn no_free_buddies(l: Seq<Seq<usize>>) -> bool {
    forall|o: int, i: int|
        0 <= o < MAX_ORDER - 1 && 0 <= i < l[o].len() ==> !l[o].contains(
            buddy_of(#[trigger] l[o][i], o as usize),
        )
}

/// Allocating leaves the lists below the requested order as they were.
proof fn lemma_alloc_keeps_below(l: Seq<Seq<usize>>, order: int, j: int)
    requires
        l.len() == MAX_ORDER,
        0 <= j < order,
    ensures
        alloc_spec(l, order).0.len() == MAX_ORDER,
        alloc_spec(l, order).0[j] == l[j],
    decreases MAX_ORDER - order,
{
    if 0 <= order < MAX_ORDER && l[order].len() == 0 {
        lemma_alloc_keeps_below(l, order + 1, j);
    }
}

/// Freeing the block an allocation has just handed out, when no two free
/// buddies sit side by side, gives back exactly the lists from before.
proof fn lemma_alloc_free_lists(l: Seq<Seq<usize>>, order: int)
    requires
        lists_wf(l),
        l.len() == MAX_ORDER,
        0 <= order < MAX_ORDER,
        no_free_buddies(l),
        alloc_spec(l, order).1 is Some,
    ensures
        free_spec(alloc_spec(l, order).0, alloc_spec(l, order).1->0, order) == l,
    decreases MAX_ORDER - order,
{
    let (a, r) = alloc_spec(l, order);
    let p = r->0;
    lemma_alloc_spec(l, order);
    if l[order].len() > 0 {
        assert(seq![p] + l[order].remove(0) =~= l[order]);
        if order < MAX_ORDER - 1 {
            let b = buddy_of(p, order as usize);
            assert(!l[order].contains(buddy_of(l[order][0], order as usize)));
            if a[order].contains(b) {
                let j = choose|j: int| 0 <= j < a[order].len() && a[order][j] == b;
                assert(l[order][j + 1] == b);
            }
        }
        assert(push_block(a, order, p) =~= l);
    } else {
        let l2 = alloc_spec(l, order + 1).0;
        lemma_alloc_spec(l, order + 1);
        lemma_alloc_keeps_below(l, order + 1, order);
        let s = block_pages(order) as int;
        lemma_shift_is_pow2(order as usize);
        assert(block_ok(p as int, order));
        assert(block_ok(p as int, order + 1));
        lemma_buddy(p, order as usize);
        let b = buddy_of(p, order as usize);
        assert(p as int % (2 * s) == 0);
        if b as int % (2 * s) == 0 && p == b + s {
            let bi = b as int;
            let pi = p as int;
            assert(false) by (nonlinear_arith)
                requires
                    s > 0,
                    pi % (2 * s) == 0,
                    bi % (2 * s) == 0,
                    pi == bi + s,
            ;
        }
        assert(b as int == p + s);
        assert(a[order][0] == b);
        lemma_list_distinct(a, order);
        lemma_index_of_unique(a[order], 0);
        assert(a == push_block(l2, order, b));
        assert(a[order].remove(0) =~= l2[order]);
        assert(a.update(order, a[order].remove(0)) =~= l2);
        assert(min_frame(p, b) == p);
        lemma_alloc_free_lists(l, order + 1);
    }
}

/// When no two free buddies sit side by side, freeing the block that an
/// allocation has just handed out gives back exactly the free lists from
/// before the allocation, so the same allocation hands out the same block
/// again.
pub proof fn law_alloc_then_free_lists(l: Seq<Seq<usize>>, order: int)
    requires
        lists_wf(l),
        l.len() == MAX_ORDER,
        0 <= order < MAX_ORDER,
        no_free_buddies(l),
        alloc_spec(l, order).1 is Some,
    ensures
        ({
            let (after_alloc, p) = alloc_spec(l, order);
            let after_free = free_spec(after_alloc, p->0, order);
            &&& after_free == l
            &&& alloc_spec(after_free, order) == alloc_spec(l, order)
        }),
{
    lemma_alloc_free_lists(l, order);
}

/// Buddies pair up: the buddy of the buddy is the block itself, and no
/// block is its own buddy.
proof fn lemma_buddy_pair(x: usize, o: usize)
    requires
        o < MAX_ORDER,
    ensures
        buddy_of(buddy_of(x, o), o) == x,
        buddy_of(x, o) != x,
{
    assert((x ^ (1usize << o)) ^ (1usize << o) == x) by (bit_vector);
    assert(x ^ (1usize << o) != x) by (bit_vector)
        requires
            o < 11usize,
    ;
}

/// Pushing a block whose buddy is not in its list keeps every list free
/// of buddy pairs.
proof fn lemma_push_no_free_buddies(l: Seq<Seq<usize>>, order: int, pfn: usize)
    requires
        l.len() == MAX_ORDER,
        0 <= order < MAX_ORDER,
        no_free_buddies(l),
        order < MAX_ORDER - 1 ==> !l[order].contains(buddy_of(pfn, order as usize)),
    ensures
        no_free_buddies(push_block(l, order, pfn)),
{
    let n = push_block(l, order, pfn);
    assert forall|o: int, i: int| 0 <= o < MAX_ORDER - 1 && 0 <= i < n[o].len() implies !n[o].contains(
        buddy_of(#[trigger] n[o][i], o as usize),
    ) by {
        if o == order {
            let x = n[o][i];
            let bx = buddy_of(x, o as usize);
            lemma_buddy_pair(x, o as usize);
            lemma_buddy_pair(pfn, o as usize);
            if n[o].contains(bx) {
                let j = choose|j: int| 0 <= j < n[o].len() && n[o][j] == bx;
                if i == 0 {
                    assert(x == pfn);
                    assert(j != 0);
                    assert(l[o][j - 1] == bx);
                } else {
                    assert(x == l[o][i - 1]);
                    assert(!l[o].contains(bx));
                    if j == 0 {
                        assert(bx == pfn);
                        assert(buddy_of(pfn, o as usize) == x);
                    } else {
                        assert(l[o][j - 1] == bx);
                    }
                }
            }
        } else {
            assert(n[o] == l[o]);
        }
    }
}

/// Freeing keeps every list free of buddy pairs: a freed block whose buddy
/// is free anywhere in its list merges with it.
proof fn lemma_free_no_free_buddies(l: Seq<Seq<usize>>, pfn: usize, order: int)
    requires
        lists_wf(l),
        l.len() == MAX_ORDER,
        0 <= order < MAX_ORDER,
        block_ok(pfn as int, order),
        block_is_unused(l, pfn as int, order),
        no_free_buddies(l),
    ensures
        no_free_buddies(free_spec(l, pfn, order)),
    decreases MAX_ORDER - order,
{
    if order >= MAX_ORDER - 1 {
        lemma_push_no_free_buddies(l, order, pfn);
    } else {
        let b = buddy_of(pfn, order as usize);
        if l[order].contains(b) {
            let k = l[order].index_of(b);
            let n = l.update(order, l[order].remove(k));
            lemma_merge_step(l, pfn, order);
            assert forall|o: int, i: int| 0 <= o < MAX_ORDER - 1 && 0 <= i < n[o].len() implies !n[o].contains(
                buddy_of(#[trigger] n[o][i], o as usize),
            ) by {
                let i0 = if o == order && i >= k { i + 1 } else { i };
                assert(n[o][i] == l[o][i0]);
                let bx = buddy_of(n[o][i], o as usize);
                assert(!l[o].contains(buddy_of(l[o][i0], o as usize)));
                if n[o].contains(bx) {
                    let j = choose|j: int| 0 <= j < n[o].len() && n[o][j] == bx;
                    let j0 = if o == order && j >= k { j + 1 } else { j };
                    assert(l[o][j0] == bx);
                }
            }
            lemma_free_no_free_buddies(n, min_frame(pfn, b), order + 1);
        } else {
            lemma_push_no_free_buddies(l, order, pfn);
        }
    }
}

/// Freeing keeps the free lists of lower orders as they were.
proof fn lemma_free_keeps_below(l: Seq<Seq<usize>>, pfn: usize, order: int, j: int)
    requires
        l.len() == MAX_ORDER,
        0 <= j < order < MAX_ORDER,
    ensures
        free_spec(l, pfn, order)[j] == l[j],
        free_spec(l, pfn, order).len() == MAX_ORDER,
    decreases MAX_ORDER - order,
{
    if order < MAX_ORDER - 1 {
        let b = buddy_of(pfn, order as usize);
        if l[order].contains(b) {
            lemma_free_keeps_below(l.update(order, l[order].remove(l[order].index_of(b))), min_frame(pfn, b), order + 1, j);
        }
    }
}

/// Freeing a block whose buddy is free anywhere in the list of its order
/// merges the two: neither stays in that list, and when no list held a
/// buddy pair before, none does afterwards.
pub proof fn law_free_merges_with_free_buddy(l: Seq<Seq<usize>>, pfn: usize, order: int)
    requires
        lists_wf(l),
        l.len() == MAX_ORDER,
        0 <= order < MAX_ORDER,
        block_ok(pfn as int, order),
        block_is_unused(l, pfn as int, order),
    ensures
        order < MAX_ORDER - 1 && l[order].contains(buddy_of(pfn, order as usize)) ==> {
            let f = free_spec(l, pfn, order);
            &&& !f[order].contains(pfn)
            &&& !f[order].contains(buddy_of(pfn, order as usize))
            &&& f[order].len() + 1 == l[order].len()
        },
        no_free_buddies(l) ==> no_free_buddies(free_spec(l, pfn, order)),
{
    if no_free_buddies(l) {
        lemma_free_no_free_buddies(l, pfn, order);
    }
    let b = buddy_of(pfn, order as usize);
    if order < MAX_ORDER - 1 && l[order].contains(b) {
        let k = l[order].index_of(b);
        let n = l.update(order, l[order].remove(k));
        lemma_merge_step(l, pfn, order);
        lemma_free_keeps_below(n, min_frame(pfn, b), order + 1, order);
        lemma_list_distinct(l, order);
        let f = free_spec(l, pfn, order);
        assert(f[order] == l[order].remove(k));
        if f[order].contains(b) {
            let j = choose|j: int| 0 <= j < f[order].len() && f[order][j] == b;
            let j0 = if j >= k { j + 1 } else { j };
            assert(l[order][j0] == b);
        }
        if f[order].contains(pfn) {
            let j = choose|j: int| 0 <= j < f[order].len() && f[order][j] == pfn;
            let j0 = if j >= k { j + 1 } else { j };
            assert(l[order][j0] == pfn);
            lemma_pow2_pos(order as nat);
            assert(blocks_disjoint(l[order][j0] as int, order, pfn as int, order));
        }
    }
}

/// No two free blocks share a page, and every free block is aligned to
/// its size and lies below `MAX_PAGES`.
pub proof fn law_free_blocks_disjoint(l: Seq<Seq<usize>>, o1: int, i1: int, o2: int, i2: int)
    requires
        lists_wf(l),
        0 <= o1 < MAX_ORDER,
        0 <= i1 < l[o1].len(),
        0 <= o2 < MAX_ORDER,
        0 <= i2 < l[o2].len(),
    ensures
        block_ok(l[o1][i1] as int, o1),
        (o1 != o2 || i1 != i2) ==> blocks_disjoint(l[o1][i1] as int, o1, l[o2][i2] as int, o2),
{
    reveal(lists_wf);
}

} // verus!
