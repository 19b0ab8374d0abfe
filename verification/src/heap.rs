//! Per-core heap management.
//!
//! Each CPU core owns one `Heap`, backed by a fixed arena of mapped
//! memory. The heap is a first-fit free-list allocator with block
//! splitting and a consolidation pass that merges adjacent free blocks.
//! The arena is modelled as an address range and the block list as a
//! sequence of block descriptors: a descriptor's position in the
//! sequence is its position in the heap's single-linked block list,
//! while `addr` is the physical position of the block in the arena.
//!
//! Any core may free a block belonging to any arena: freeing only flips
//! the block's tag, which is why the allocation adapter (`kAllocator`)
//! routes a free to the heap whose arena contains the pointer.

use vstd::prelude::*;

use crate::error::Cause;

verus! {

broadcast use vstd::layout::layout_of_primitives;

/// Blocks are carved in multiples of this many bytes, header included,
/// to bound fragmentation.
pub const HEAP_BLOCK_SIZE: u64 = 64;

/// Bytes reserved at the start of every block for its header (link,
/// size and tag words); callers never see them.
pub const HEAP_HEADER_SIZE: u64 = 24;

/// Tag word of a block that is free.
pub const HEAP_MAGIC_FREE: u64 = 0x0deadded;

/// Tag word of a block that is in use.
pub const HEAP_MAGIC_IN_USE: u64 = 0x0d10c0de;

/// One node of a heap's block list: a contiguous span of the arena.
/// `size` counts the whole span, header included.
#[derive(Clone, Copy, Debug, PartialEq, Eq, Structural)]
pub struct HeapBlock {
    /// Lowest address of the block (its header) inside the arena.
    pub addr: u64,
    /// Total bytes of the block, including the header.
    pub size: u64,
    /// Tag word: `HEAP_MAGIC_FREE` or `HEAP_MAGIC_IN_USE`.
    pub magic: u64,
}

/// Does address `p` fall inside block `b`?
pub open spec fn in_span(b: HeapBlock, p: int) -> bool {
    b.addr <= p < b.addr + b.size
}

/// The spans of `a` and `b` do not overlap.
pub open spec fn spans_disjoint(a: HeapBlock, b: HeapBlock) -> bool {
    a.addr + a.size <= b.addr || b.addr + b.size <= a.addr
}

/// Block `b` is a well-formed span of the arena `[base, base + size)`.
pub open spec fn block_ok(b: HeapBlock, base: u64, size: u64) -> bool {
    &&& base <= b.addr
    &&& b.addr + b.size <= base + size
    &&& HEAP_BLOCK_SIZE <= b.size
    &&& b.size as int % (HEAP_BLOCK_SIZE as int) == 0
    &&& b.magic == HEAP_MAGIC_FREE || b.magic == HEAP_MAGIC_IN_USE
}

/// Every block of `bs` is a well-formed span of the arena.
pub open spec fn seq_valid(bs: Seq<HeapBlock>, base: u64, size: u64) -> bool {
    forall|i: int| 0 <= i < bs.len() ==> block_ok(#[trigger] bs[i], base, size)
}

/// No two blocks of `bs` overlap.
pub open spec fn seq_disjoint(bs: Seq<HeapBlock>) -> bool {
    forall|i: int, j: int|
        #![trigger bs[i], bs[j]]
        0 <= i < bs.len() && 0 <= j < bs.len() && i != j ==> spans_disjoint(bs[i], bs[j])
}

/// Some block of `bs` contains address `p`.
pub open spec fn covered(bs: Seq<HeapBlock>, p: int) -> bool {
    exists|i: int| 0 <= i < bs.len() && in_span(#[trigger] bs[i], p)
}

/// The blocks of `bs` cover every address of the arena.
pub open spec fn seq_cover(bs: Seq<HeapBlock>, base: u64, size: u64) -> bool {
    forall|p: int| base <= p < base + size ==> #[trigger] covered(bs, p)
}

/// Block `b` occurs in `bs`.
pub open spec fn has_block(bs: Seq<HeapBlock>, b: HeapBlock) -> bool {
    exists|i: int| 0 <= i < bs.len() && (#[trigger] bs[i]) == b
}

/// `a` and `b` hold exactly the same in-use blocks. Allocation is the
/// only operation that may add one, and freeing the only one that may
/// take one away; consolidation touches free blocks alone.
pub open spec fn same_in_use(a: Seq<HeapBlock>, b: Seq<HeapBlock>) -> bool {
    &&& forall|i: int|
        0 <= i < a.len() && a[i].magic == HEAP_MAGIC_IN_USE ==> has_block(b, #[trigger] a[i])
    &&& forall|i: int|
        0 <= i < b.len() && b[i].magic == HEAP_MAGIC_IN_USE ==> has_block(a, #[trigger] b[i])
}

/// Some free block of `bs` can hold a request of `size_req` bytes.
pub open spec fn fits(bs: Seq<HeapBlock>, size_req: int) -> bool {
    exists|i: int|
        0 <= i < bs.len() && (#[trigger] bs[i]).magic == HEAP_MAGIC_FREE && size_req <= bs[i].size
}

/// The block size that serves a request of `bytes` payload-plus-header
/// bytes: `bytes` rounded up to the nearest whole multiple of
/// `HEAP_BLOCK_SIZE` (left unchanged when already a multiple).
pub open spec fn spec_size_req(bytes: int) -> int {
    ((bytes + HEAP_BLOCK_SIZE - 1) / (HEAP_BLOCK_SIZE as int)) * (HEAP_BLOCK_SIZE as int)
}

/// A request always rounds to a whole number of granularity units and
/// to at least the bytes asked for, so a block serving it holds the
/// payload and the header.
pub proof fn lemma_size_req_granularity(bytes: int)
    requires
        0 < bytes,
    ensures
        spec_size_req(bytes) % (HEAP_BLOCK_SIZE as int) == 0,
        bytes <= spec_size_req(bytes),
        HEAP_BLOCK_SIZE <= spec_size_req(bytes),
        spec_size_req(bytes) < bytes + HEAP_BLOCK_SIZE,
{
    let g = HEAP_BLOCK_SIZE as int;
    let q = (bytes + g - 1) / g;
    vstd::arithmetic::div_mod::lemma_fundamental_div_mod(bytes + g - 1, g);
    vstd::arithmetic::div_mod::lemma_mod_bound(bytes + g - 1, g);
    assert(bytes + g - 1 == g * q + (bytes + g - 1) % g);
    assert(spec_size_req(bytes) == q * g);
    assert(g * q == q * g) by (nonlinear_arith);
    vstd::arithmetic::div_mod::lemma_mod_multiples_basic(q, g);
    assert(1 <= q) by {
        vstd::arithmetic::div_mod::lemma_div_is_ordered(g, bytes + g - 1, g);
        vstd::arithmetic::div_mod::lemma_div_multiples_vanish(1, g);
    }
    assert(g <= q * g) by (nonlinear_arith)
        requires
            1 <= q && g == 64,
    ;
}

/// The list-order pair at `a`, `a + 1` is two free, physically
/// adjacent blocks, in ascending address order.
pub open spec fn adj_free_pair(bs: Seq<HeapBlock>, a: int) -> bool {
    &&& bs[a].magic == HEAP_MAGIC_FREE
    &&& bs[a + 1].magic == HEAP_MAGIC_FREE
    &&& bs[a].addr + bs[a].size == bs[a + 1].addr
}

/// Some free block of `bs` has exactly size `s`.
pub open spec fn has_free_of_size(bs: Seq<HeapBlock>, s: u64) -> bool {
    exists|j: int|
        0 <= j < bs.len() && (#[trigger] bs[j]).magic == HEAP_MAGIC_FREE && bs[j].size == s
}

/// Every free block of `a` still fits in `b`: for each of them, `b`
/// holds a free block at least as large. Consolidation only merges
/// free blocks, so no free capacity is ever lost.
pub open spec fn free_grew(a: Seq<HeapBlock>, b: Seq<HeapBlock>) -> bool {
    forall|k: int|
        0 <= k < a.len() && (#[trigger] a[k]).magic == HEAP_MAGIC_FREE ==> fits(b, a[k].size as int)
}

/// A fit for a larger request is also a fit for a smaller one.
pub proof fn lemma_fits_mono(bs: Seq<HeapBlock>, s1: int, s2: int)
    requires
        fits(bs, s2),
        s1 <= s2,
    ensures
        fits(bs, s1),
{
    let i = choose|i: int|
        0 <= i < bs.len() && (#[trigger] bs[i]).magic == HEAP_MAGIC_FREE && s2 <= bs[i].size;
    assert(0 <= i < bs.len() && bs[i].magic == HEAP_MAGIC_FREE && s1 <= bs[i].size);
}

/// If every free block of `a` still fits in `b`, any request that fits
/// in `a` fits in `b`.
pub proof fn lemma_fits_preserved(a: Seq<HeapBlock>, b: Seq<HeapBlock>, s: int)
    requires
        free_grew(a, b),
        fits(a, s),
    ensures
        fits(b, s),
{
    let i = choose|i: int|
        0 <= i < a.len() && (#[trigger] a[i]).magic == HEAP_MAGIC_FREE && s <= a[i].size;
    assert(fits(b, a[i].size as int));
    lemma_fits_mono(b, s, a[i].size as int);
}

/// `free_grew` composes across consecutive heap states.
pub proof fn lemma_free_grew_trans(a: Seq<HeapBlock>, b: Seq<HeapBlock>, c: Seq<HeapBlock>)
    requires
        free_grew(a, b),
        free_grew(b, c),
    ensures
        free_grew(a, c),
{
    assert forall|k: int|
        0 <= k < a.len() && (#[trigger] a[k]).magic == HEAP_MAGIC_FREE implies fits(
        c,
        a[k].size as int,
    ) by {
        assert(fits(b, a[k].size as int));
        lemma_fits_preserved(b, c, a[k].size as int);
    }
}

/// `same_in_use` composes across consecutive heap states.
pub proof fn lemma_same_in_use_trans(a: Seq<HeapBlock>, b: Seq<HeapBlock>, c: Seq<HeapBlock>)
    requires
        same_in_use(a, b),
        same_in_use(b, c),
    ensures
        same_in_use(a, c),
{
    assert forall|i: int|
        0 <= i < a.len() && a[i].magic == HEAP_MAGIC_IN_USE implies has_block(
        c,
        #[trigger] a[i],
    ) by {
        assert(has_block(b, a[i]));
        let j = choose|j: int| 0 <= j < b.len() && (#[trigger] b[j]) == a[i];
        assert(has_block(c, b[j]));
    }
    assert forall|i: int|
        0 <= i < c.len() && c[i].magic == HEAP_MAGIC_IN_USE implies has_block(
        a,
        #[trigger] c[i],
    ) by {
        assert(has_block(b, c[i]));
        let j = choose|j: int| 0 <= j < b.len() && (#[trigger] b[j]) == c[i];
        assert(has_block(a, b[j]));
    }
}

/// Flipping tags never moves a block: a list with the same spans,
/// entry for entry, stays disjoint and keeps covering the arena.
pub proof fn lemma_same_spans(bs1: Seq<HeapBlock>, bs2: Seq<HeapBlock>, base: u64, size: u64)
    requires
        bs1.len() == bs2.len(),
        forall|i: int|
            0 <= i < bs1.len() ==> (#[trigger] bs2[i]).addr == bs1[i].addr && bs2[i].size
                == bs1[i].size,
        seq_disjoint(bs1),
        seq_cover(bs1, base, size),
    ensures
        seq_disjoint(bs2),
        seq_cover(bs2, base, size),
{
    assert forall|i: int, j: int|
        #![trigger bs2[i], bs2[j]]
        0 <= i < bs2.len() && 0 <= j < bs2.len() && i != j implies spans_disjoint(
        bs2[i],
        bs2[j],
    ) by {
        assert(spans_disjoint(bs1[i], bs1[j]));
    }
    assert forall|p: int| base <= p < base + size implies #[trigger] covered(bs2, p) by {
        assert(covered(bs1, p));
        let i = choose|i: int| 0 <= i < bs1.len() && in_span(#[trigger] bs1[i], p);
        assert(in_span(bs2[i], p));
    }
}

/// Some free block of `bs` spans the whole range `[lo, hi)`.
pub open spec fn free_span_covering(bs: Seq<HeapBlock>, lo: int, hi: int) -> bool {
    exists|j: int|
        0 <= j < bs.len() && (#[trigger] bs[j]).magic == HEAP_MAGIC_FREE && bs[j].addr <= lo && hi
            <= bs[j].addr + bs[j].size
}

/// What one consolidation pass promises about a free, physically
/// adjacent pair standing at the head of the list: the pass merges the
/// two (no earlier merge can disturb the head pair), so the reported
/// largest merged size is at least their sum and some free block now
/// spans both.
pub open spec fn head_pair_merged(bs1: Seq<HeapBlock>, bs2: Seq<HeapBlock>, r: u64) -> bool {
    bs1.len() >= 2 && adj_free_pair(bs1, 0) ==> r as int >= bs1[0].size + bs1[1].size
        && free_span_covering(bs2, bs1[0].addr as int, bs1[1].addr + bs1[1].size)
}

/// The list head and its list successor are both free and contiguous
/// in the reverse of list order: the one adjacency a forward pass
/// cannot merge, checked separately at the end of the pass.
pub open spec fn corner_pair(bs: Seq<HeapBlock>) -> bool {
    &&& bs.len() >= 2
    &&& bs[0].magic == HEAP_MAGIC_FREE
    &&& bs[1].magic == HEAP_MAGIC_FREE
    &&& bs[1].addr + bs[1].size == bs[0].addr
}

/// What one consolidation pass promises about a corner pair: the two
/// blocks merge into the new list head, whose size is exactly their
/// sum, and the reported largest merged size is at least that sum.
pub open spec fn corner_pair_merged(bs1: Seq<HeapBlock>, bs2: Seq<HeapBlock>, r: u64) -> bool {
    corner_pair(bs1) ==> r as int >= bs1[0].size + bs1[1].size && bs2.len() >= 1 && bs2[0]
        == (HeapBlock {
        addr: bs1[1].addr,
        size: (bs1[0].size + bs1[1].size) as u64,
        magic: HEAP_MAGIC_FREE,
    })
}

/// Nothing is left for a consolidation pass to do: no two
/// list-adjacent blocks are both free and physically contiguous, in
/// the forward order the pass merges, and the head corner pair is
/// not mergeable either. A heap in this state is as consolidated as
/// passes can make it without reordering the list.
pub open spec fn no_mergeable_pair(bs: Seq<HeapBlock>) -> bool {
    &&& forall|a: int| 0 <= a < bs.len() - 1 ==> !adj_free_pair(bs, a)
    &&& !corner_pair(bs)
}

/// Merging two free, physically adjacent blocks into one — growing
/// the one at list position `g` over the span of both and dropping
/// the one at list position `r` — preserves every part of the heap
/// invariant, keeps the in-use blocks untouched, and loses no free
/// capacity.
pub proof fn lemma_merge_step(
    pre: Seq<HeapBlock>,
    base: u64,
    size: u64,
    g: int,
    r: int,
    m: HeapBlock,
)
    requires
        seq_valid(pre, base, size),
        seq_disjoint(pre),
        seq_cover(pre, base, size),
        0 <= g < pre.len(),
        0 <= r < pre.len(),
        g != r,
        pre[g].magic == HEAP_MAGIC_FREE,
        pre[r].magic == HEAP_MAGIC_FREE,
        m.magic == HEAP_MAGIC_FREE,
        m.size == pre[g].size + pre[r].size,
        (m.addr == pre[g].addr && pre[g].addr + pre[g].size == pre[r].addr) || (m.addr
            == pre[r].addr && pre[r].addr + pre[r].size == pre[g].addr),
    ensures
        seq_valid(pre.update(g, m).remove(r), base, size),
        seq_disjoint(pre.update(g, m).remove(r)),
        seq_cover(pre.update(g, m).remove(r), base, size),
        same_in_use(pre, pre.update(g, m).remove(r)),
        free_grew(pre, pre.update(g, m).remove(r)),
{
    let post = pre.update(g, m).remove(r);
    let gp = if r < g {
        g - 1
    } else {
        g
    };
    assert(post.len() == pre.len() - 1);
    assert(post[gp] == m);
    // The merged block is a well-formed span covering both halves.
    assert(block_ok(m, base, size)) by {
        assert(block_ok(pre[g], base, size));
        assert(block_ok(pre[r], base, size));
        let bs = HEAP_BLOCK_SIZE as int;
        assert((pre[g].size as int + pre[r].size as int) % bs == 0) by {
            vstd::arithmetic::div_mod::lemma_add_mod_noop(
                pre[g].size as int,
                pre[r].size as int,
                bs,
            );
        }
    }
    assert forall|x: int| 0 <= x < post.len() implies block_ok(#[trigger] post[x], base, size) by {
        if x != gp {
            let k = if x < r {
                x
            } else {
                x + 1
            };
            assert(post[x] == pre[k]);
        }
    }
    // The merged span stays clear of every other block.
    assert forall|x: int, y: int|
        #![trigger post[x], post[y]]
        0 <= x < post.len() && 0 <= y < post.len() && x != y implies spans_disjoint(
        post[x],
        post[y],
    ) by {
        let kx = if x == gp {
            g
        } else if x < r {
            x
        } else {
            x + 1
        };
        let ky = if y == gp {
            g
        } else if y < r {
            y
        } else {
            y + 1
        };
        assert(kx != ky);
        assert(spans_disjoint(pre[kx], pre[ky]));
        if x == gp || y == gp {
            let k = if x == gp {
                ky
            } else {
                kx
            };
            assert(k != g && k != r);
            assert(spans_disjoint(pre[k], pre[g]));
            assert(spans_disjoint(pre[k], pre[r]));
            assert(block_ok(pre[k], base, size));
            assert(block_ok(pre[g], base, size));
            assert(block_ok(pre[r], base, size));
        }
    }
    // Every arena address is still covered.
    assert forall|p: int| base <= p < base + size implies #[trigger] covered(post, p) by {
        assert(covered(pre, p));
        let w = choose|w: int| 0 <= w < pre.len() && in_span(#[trigger] pre[w], p);
        if w == g || w == r {
            assert(in_span(m, p));
            assert(in_span(post[gp], p));
        } else {
            let x = if w < r {
                w
            } else {
                w - 1
            };
            assert(in_span(post[x], p));
        }
    }
    // In-use blocks are exactly preserved.
    assert forall|i: int|
        0 <= i < pre.len() && pre[i].magic == HEAP_MAGIC_IN_USE implies has_block(
        post,
        #[trigger] pre[i],
    ) by {
        let x = if i < r {
            i
        } else {
            i - 1
        };
        assert(post[x] == pre[i]);
    }
    assert forall|x: int|
        0 <= x < post.len() && post[x].magic == HEAP_MAGIC_IN_USE implies has_block(
        pre,
        #[trigger] post[x],
    ) by {
        let k = if x < r {
            x
        } else {
            x + 1
        };
        assert(post[x] == pre[k]);
    }
    // No free capacity is lost: both halves fit inside the merged one.
    assert forall|k: int|
        0 <= k < pre.len() && (#[trigger] pre[k]).magic == HEAP_MAGIC_FREE implies fits(
        post,
        pre[k].size as int,
    ) by {
        if k == g || k == r {
            assert(post[gp].magic == HEAP_MAGIC_FREE && pre[k].size as int <= post[gp].size);
        } else {
            let x = if k < r {
                k
            } else {
                k - 1
            };
            assert(post[x] == pre[k]);
            assert(post[x].magic == HEAP_MAGIC_FREE && pre[k].size as int <= post[x].size);
        }
    }
}

/// Bookkeeping for one merge of the main consolidation pass, at list
/// position `i`: the reported largest merged size keeps naming a live
/// free block, the list keeps shrinking, the head corner pair is never
/// disturbed (the pass cannot merge it), and a free adjacent pair at
/// the head stays merged once merged.
proof fn lemma_merge_bookkeeping(
    bs0: Seq<HeapBlock>,
    mid: Seq<HeapBlock>,
    base: u64,
    size: u64,
    i: int,
    m: HeapBlock,
    old_largest: u64,
    new_largest: u64,
)
    requires
        seq_valid(mid, base, size),
        seq_disjoint(mid),
        seq_cover(mid, base, size),
        0 <= i,
        i + 1 < mid.len(),
        mid[i].magic == HEAP_MAGIC_FREE,
        mid[i + 1].magic == HEAP_MAGIC_FREE,
        mid[i].addr + mid[i].size == mid[i + 1].addr,
        mid[i].size + mid[i + 1].size <= u64::MAX,
        m == (HeapBlock {
            addr: mid[i].addr,
            size: (mid[i].size + mid[i + 1].size) as u64,
            magic: HEAP_MAGIC_FREE,
        }),
        new_largest == if m.size > old_largest {
            m.size
        } else {
            old_largest
        },
        old_largest == 0 ==> mid == bs0,
        old_largest != 0 ==> 2 * HEAP_BLOCK_SIZE <= old_largest && has_free_of_size(
            mid,
            old_largest,
        ) && mid.len() < bs0.len(),
        corner_pair(bs0) ==> mid.len() >= 2 && mid[0] == bs0[0] && mid[1] == bs0[1],
        i == 0 ==> mid == bs0 && old_largest == 0,
        bs0.len() >= 2 && adj_free_pair(bs0, 0) ==> ((i == 0 && mid == bs0) || (old_largest as int
            >= bs0[0].size + bs0[1].size && free_span_covering(
            mid,
            bs0[0].addr as int,
            bs0[1].addr + bs0[1].size,
        ))),
    ensures
        2 * HEAP_BLOCK_SIZE <= new_largest,
        has_free_of_size(mid.update(i, m).remove(i + 1), new_largest),
        mid.update(i, m).remove(i + 1).len() < bs0.len(),
        corner_pair(bs0) ==> mid.update(i, m).remove(i + 1).len() >= 2 && mid.update(i, m).remove(
            i + 1,
        )[0] == bs0[0] && mid.update(i, m).remove(i + 1)[1] == bs0[1],
        bs0.len() >= 2 && adj_free_pair(bs0, 0) ==> new_largest as int >= bs0[0].size
            + bs0[1].size && free_span_covering(
            mid.update(i, m).remove(i + 1),
            bs0[0].addr as int,
            bs0[1].addr + bs0[1].size,
        ),
{
    let post = mid.update(i, m).remove(i + 1);
    assert(block_ok(mid[i], base, size));
    assert(block_ok(mid[i + 1], base, size));
    assert(post[i] == m);
    assert(post.len() == mid.len() - 1);
    // The reported size keeps naming a live free block.
    if m.size > old_largest {
        assert(post[i].magic == HEAP_MAGIC_FREE && post[i].size == new_largest);
    } else {
        assert(old_largest != 0);
        let j = choose|j: int|
            0 <= j < mid.len() && (#[trigger] mid[j]).magic == HEAP_MAGIC_FREE && mid[j].size
                == old_largest;
        assert(j != i && j != i + 1);
        let x = if j < i + 1 {
            j
        } else {
            j - 1
        };
        assert(post[x] == mid[j]);
    }
    // The head corner pair is never disturbed by the pass.
    if corner_pair(bs0) {
        if i == 0 {
            assert(false);
        }
        if i == 1 {
            assert(mid[1].addr + mid[1].size == mid[2].addr);
            assert(spans_disjoint(mid[0], mid[2]));
            assert(block_ok(mid[0], base, size));
            assert(block_ok(mid[2], base, size));
            assert(false);
        }
        assert(post[0] == mid[0]);
        assert(post[1] == mid[1]);
    }
    // A free adjacent pair at the head stays merged once merged.
    if bs0.len() >= 2 && adj_free_pair(bs0, 0) {
        if i == 0 {
            assert(mid == bs0);
            assert(post[0] == m);
            assert(m.addr == bs0[0].addr);
            assert(bs0[1].addr + bs0[1].size <= m.addr + m.size);
        } else {
            assert(old_largest as int >= bs0[0].size + bs0[1].size);
            let j = choose|j: int|
                0 <= j < mid.len() && (#[trigger] mid[j]).magic == HEAP_MAGIC_FREE && mid[j].addr
                    <= bs0[0].addr as int && bs0[1].addr + bs0[1].size <= mid[j].addr + mid[j].size;
            if j == i || j == i + 1 {
                assert(m.addr <= mid[j].addr && mid[j].addr + mid[j].size <= m.addr + m.size);
                assert(post[i] == m);
            } else {
                let x = if j < i + 1 {
                    j
                } else {
                    j - 1
                };
                assert(post[x] == mid[j]);
            }
        }
    }
}

/// Bookkeeping for the corner merge at the end of a consolidation
/// pass, where the list successor of the head is physically just
/// before the head: the merged block becomes the new head, the
/// reported size keeps naming a live free block, and a free adjacent
/// pair at the head stays merged.
proof fn lemma_corner_bookkeeping(
    bs0: Seq<HeapBlock>,
    mid: Seq<HeapBlock>,
    base: u64,
    size: u64,
    m: HeapBlock,
    old_largest: u64,
    new_largest: u64,
)
    requires
        seq_valid(mid, base, size),
        seq_disjoint(mid),
        seq_cover(mid, base, size),
        mid.len() >= 2,
        mid[0].magic == HEAP_MAGIC_FREE,
        mid[1].magic == HEAP_MAGIC_FREE,
        mid[1].addr + mid[1].size == mid[0].addr,
        mid[0].size + mid[1].size <= u64::MAX,
        m == (HeapBlock {
            addr: mid[1].addr,
            size: (mid[1].size + mid[0].size) as u64,
            magic: HEAP_MAGIC_FREE,
        }),
        new_largest == if m.size > old_largest {
            m.size
        } else {
            old_largest
        },
        old_largest == 0 ==> mid == bs0,
        old_largest != 0 ==> 2 * HEAP_BLOCK_SIZE <= old_largest && has_free_of_size(
            mid,
            old_largest,
        ) && mid.len() < bs0.len(),
        bs0.len() >= 2 && adj_free_pair(bs0, 0) ==> old_largest as int >= bs0[0].size
            + bs0[1].size && free_span_covering(
            mid,
            bs0[0].addr as int,
            bs0[1].addr + bs0[1].size,
        ),
    ensures
        2 * HEAP_BLOCK_SIZE <= new_largest,
        has_free_of_size(mid.update(1, m).remove(0), new_largest),
        mid.update(1, m).remove(0).len() < bs0.len(),
        mid.update(1, m).remove(0)[0] == m,
        bs0.len() >= 2 && adj_free_pair(bs0, 0) ==> new_largest as int >= bs0[0].size
            + bs0[1].size && free_span_covering(
            mid.update(1, m).remove(0),
            bs0[0].addr as int,
            bs0[1].addr + bs0[1].size,
        ),
{
    let post = mid.update(1, m).remove(0);
    assert(block_ok(mid[0], base, size));
    assert(block_ok(mid[1], base, size));
    assert(post[0] == m);
    assert(post.len() == mid.len() - 1);
    if m.size > old_largest {
        assert(post[0].magic == HEAP_MAGIC_FREE && post[0].size == new_largest);
    } else {
        assert(old_largest != 0);
        let j = choose|j: int|
            0 <= j < mid.len() && (#[trigger] mid[j]).magic == HEAP_MAGIC_FREE && mid[j].size
                == old_largest;
        assert(j != 0 && j != 1);
        assert(post[j - 1] == mid[j]);
    }
    if bs0.len() >= 2 && adj_free_pair(bs0, 0) {
        let j = choose|j: int|
            0 <= j < mid.len() && (#[trigger] mid[j]).magic == HEAP_MAGIC_FREE && mid[j].addr
                <= bs0[0].addr as int && bs0[1].addr + bs0[1].size <= mid[j].addr + mid[j].size;
        if j == 0 || j == 1 {
            assert(m.addr <= mid[j].addr && mid[j].addr + mid[j].size <= m.addr + m.size);
            assert(post[0] == m);
        } else {
            assert(post[j - 1] == mid[j]);
        }
    }
}

/// Going from `pre` to `post`, the set of in-use blocks gained exactly
/// the new block `nb` and kept everything else: every other in-use
/// block of `post` was already in `pre`, every in-use block of `pre`
/// survives in `post`, and no in-use block of `pre` sat at `nb`'s
/// address.
pub open spec fn in_use_extended_by(
    pre: Seq<HeapBlock>,
    post: Seq<HeapBlock>,
    nb: HeapBlock,
) -> bool {
    &&& forall|j: int|
        0 <= j < post.len() && (#[trigger] post[j]).magic == HEAP_MAGIC_IN_USE && post[j] != nb
            ==> has_block(pre, post[j])
    &&& forall|k: int|
        0 <= k < pre.len() && (#[trigger] pre[k]).magic == HEAP_MAGIC_IN_USE ==> has_block(
            post,
            pre[k],
        )
    &&& forall|k: int|
        0 <= k < pre.len() && (#[trigger] pre[k]).magic == HEAP_MAGIC_IN_USE ==> pre[k].addr
            != nb.addr
}

/// Carving the tail of a free block into a new in-use block — the
/// split block keeps its start address and shrinks, the carved
/// block is prepended to the list head — preserves every part of the
/// heap invariant and adds exactly one in-use block, at an address
/// that held no in-use block before.
pub proof fn lemma_split_step(
    pre: Seq<HeapBlock>,
    base: u64,
    size: u64,
    i: int,
    keep: HeapBlock,
    carved: HeapBlock,
)
    requires
        seq_valid(pre, base, size),
        seq_disjoint(pre),
        seq_cover(pre, base, size),
        0 <= i < pre.len(),
        pre[i].magic == HEAP_MAGIC_FREE,
        keep.magic == HEAP_MAGIC_FREE,
        carved.magic == HEAP_MAGIC_IN_USE,
        keep.addr == pre[i].addr,
        carved.addr == keep.addr + keep.size,
        keep.size + carved.size == pre[i].size,
        HEAP_BLOCK_SIZE <= keep.size,
        HEAP_BLOCK_SIZE <= carved.size,
        keep.size as int % (HEAP_BLOCK_SIZE as int) == 0,
        carved.size as int % (HEAP_BLOCK_SIZE as int) == 0,
    ensures
        seq_valid(pre.update(i, keep).insert(0, carved), base, size),
        seq_disjoint(pre.update(i, keep).insert(0, carved)),
        seq_cover(pre.update(i, keep).insert(0, carved), base, size),
        in_use_extended_by(pre, pre.update(i, keep).insert(0, carved), carved),
{
    let post = pre.update(i, keep).insert(0, carved);
    assert(post.len() == pre.len() + 1);
    assert(post[0] == carved);
    assert(post[i + 1] == keep);
    assert forall|x: int| 1 <= x < post.len() && x != i + 1 implies post[x] == pre[x - 1] by {}
    assert(block_ok(pre[i], base, size));
    assert(block_ok(keep, base, size));
    assert(block_ok(carved, base, size));
    // The two halves stay clear of every other block and each other.
    assert forall|x: int, y: int|
        #![trigger post[x], post[y]]
        0 <= x < post.len() && 0 <= y < post.len() && x != y implies spans_disjoint(
        post[x],
        post[y],
    ) by {
        let kx = if x == 0 {
            i
        } else {
            x - 1
        };
        let ky = if y == 0 {
            i
        } else {
            y - 1
        };
        if kx != ky {
            assert(spans_disjoint(pre[kx], pre[ky]));
            assert(block_ok(pre[kx], base, size));
            assert(block_ok(pre[ky], base, size));
        }
    }
    // Both halves together cover exactly what the split block did.
    assert forall|p: int| base <= p < base + size implies #[trigger] covered(post, p) by {
        assert(covered(pre, p));
        let w = choose|w: int| 0 <= w < pre.len() && in_span(#[trigger] pre[w], p);
        if w == i {
            if p < keep.addr + keep.size {
                assert(in_span(post[i + 1], p));
            } else {
                assert(in_span(post[0], p));
            }
        } else {
            assert(in_span(post[w + 1], p));
        }
    }
    // In-use blocks: everything but the carved block is carried over.
    assert forall|j: int|
        0 <= j < post.len() && (#[trigger] post[j]).magic == HEAP_MAGIC_IN_USE && post[j]
            != carved implies has_block(pre, post[j]) by {
        assert(j != 0);
        assert(j != i + 1);
        assert(post[j] == pre[j - 1]);
    }
    assert forall|k: int|
        0 <= k < pre.len() && (#[trigger] pre[k]).magic == HEAP_MAGIC_IN_USE implies has_block(
        post,
        pre[k],
    ) by {
        assert(k != i);
        assert(post[k + 1] == pre[k]);
    }
    // No in-use block ever sat at the carved address: it lies strictly
    // inside the split block's span.
    assert forall|k: int|
        0 <= k < pre.len() && (#[trigger] pre[k]).magic == HEAP_MAGIC_IN_USE implies pre[k].addr
            != carved.addr by {
        assert(k != i);
        assert(spans_disjoint(pre[k], pre[i]));
        assert(block_ok(pre[k], base, size));
        assert(in_span(pre[i], carved.addr as int));
    }
}

/// The block size that serves an allocation of `num` objects of type
/// `T`: payload plus header, rounded to granularity.
pub open spec fn spec_alloc_size_req<T>(num: int) -> int {
    spec_size_req(vstd::layout::size_of::<T>() as int * num + HEAP_HEADER_SIZE as int)
}

/// A successful allocation of `size_req` bytes returning pointer `p`:
/// the new list holds an in-use block whose payload starts at `p`,
/// which is large enough for the request and a whole number of
/// granularity units, and the in-use blocks are otherwise exactly the
/// old ones.
pub open spec fn alloc_success(
    pre: Seq<HeapBlock>,
    post: Seq<HeapBlock>,
    p: u64,
    size_req: int,
) -> bool {
    exists|b: HeapBlock|
        {
            &&& #[trigger] has_block(post, b)
            &&& b.magic == HEAP_MAGIC_IN_USE
            &&& b.addr + HEAP_HEADER_SIZE == p
            &&& size_req <= b.size
            &&& b.size as int % (HEAP_BLOCK_SIZE as int) == 0
            &&& in_use_extended_by(pre, post, b)
        }
}

/// The position of the first free block at or after `from` that can
/// hold `size_req` bytes, or the list length when none can.
pub open spec fn first_fit_from(bs: Seq<HeapBlock>, size_req: int, from: int) -> int
    decreases bs.len() - from,
{
    if from < 0 || from >= bs.len() {
        bs.len() as int
    } else if bs[from].magic == HEAP_MAGIC_FREE && size_req <= bs[from].size {
        from
    } else {
        first_fit_from(bs, size_req, from + 1)
    }
}

/// A block that fits, preceded by none that does, is the first fit.
pub proof fn lemma_first_fit_at(bs: Seq<HeapBlock>, size_req: int, from: int, i: int)
    requires
        0 <= from <= i < bs.len(),
        forall|j: int|
            from <= j < i ==> !((#[trigger] bs[j]).magic == HEAP_MAGIC_FREE && size_req
                <= bs[j].size),
        bs[i].magic == HEAP_MAGIC_FREE,
        size_req <= bs[i].size,
    ensures
        first_fit_from(bs, size_req, from) == i,
    decreases i - from,
{
    if from < i {
        lemma_first_fit_at(bs, size_req, from + 1, i);
    }
}

/// What serving a request of `size_req` bytes does when a fit already
/// exists: the first fitting free block in list order is chosen. If
/// the leftover would be smaller than one granularity unit the block
/// is taken whole; otherwise the request is carved from its tail and
/// the carved block is prepended to the list head, so the remainder
/// keeps its start address.
pub open spec fn serves_first_fit(
    bs1: Seq<HeapBlock>,
    bs2: Seq<HeapBlock>,
    p: u64,
    size_req: int,
) -> bool {
    let fi = first_fit_from(bs1, size_req, 0);
    let b = bs1[fi];
    &&& 0 <= fi < bs1.len()
    &&& if b.size - size_req < HEAP_BLOCK_SIZE {
        &&& p == b.addr + HEAP_HEADER_SIZE
        &&& bs2 == bs1.update(
            fi,
            HeapBlock { addr: b.addr, size: b.size, magic: HEAP_MAGIC_IN_USE },
        )
    } else {
        &&& p == b.addr + (b.size - size_req) + HEAP_HEADER_SIZE
        &&& bs2 == bs1.update(
            fi,
            HeapBlock { addr: b.addr, size: (b.size - size_req) as u64, magic: HEAP_MAGIC_FREE },
        ).insert(
            0,
            HeapBlock {
                addr: (b.addr + b.size - size_req) as u64,
                size: size_req as u64,
                magic: HEAP_MAGIC_IN_USE,
            },
        )
    }
}

/// Every successful allocation serves the first fit of the list it
/// scanned: either the list at call time, or the list after the
/// consolidation passes that the failed scans triggered — an
/// intermediate state whose in-use blocks are exactly the caller's
/// and which lost no free capacity.
pub open spec fn alloc_via_consolidation(
    bs1: Seq<HeapBlock>,
    bs2: Seq<HeapBlock>,
    p: u64,
    size_req: int,
) -> bool {
    exists|bsm: Seq<HeapBlock>|
        {
            &&& #[trigger] serves_first_fit(bsm, bs2, p, size_req)
            &&& same_in_use(bs1, bsm)
            &&& free_grew(bs1, bsm)
        }
}

/// Adding one in-use block on top of an in-use-preserving step still
/// adds exactly that one block with respect to the earliest state.
pub proof fn lemma_in_use_extend_compose(
    a: Seq<HeapBlock>,
    b: Seq<HeapBlock>,
    c: Seq<HeapBlock>,
    nb: HeapBlock,
)
    requires
        same_in_use(a, b),
        in_use_extended_by(b, c, nb),
    ensures
        in_use_extended_by(a, c, nb),
{
    assert forall|j: int|
        0 <= j < c.len() && (#[trigger] c[j]).magic == HEAP_MAGIC_IN_USE && c[j] != nb implies
        has_block(a, c[j]) by {
        assert(has_block(b, c[j]));
        let w = choose|w: int| 0 <= w < b.len() && (#[trigger] b[w]) == c[j];
        assert(has_block(a, b[w]));
    }
    assert forall|k: int|
        0 <= k < a.len() && (#[trigger] a[k]).magic == HEAP_MAGIC_IN_USE implies has_block(c, a[k])
        && a[k].addr != nb.addr by {
        assert(has_block(b, a[k]));
        let w = choose|w: int| 0 <= w < b.len() && (#[trigger] b[w]) == a[k];
        assert(has_block(c, b[w]));
        assert(b[w].addr != nb.addr);
    }
}

/// One per-core heap: the block list for one arena.
pub struct Heap {
    /// The block list; entry 0 is the list head.
    blocks: Vec<HeapBlock>,
    /// Lowest address of this heap's arena.
    arena_base: u64,
    /// Total bytes of this heap's arena.
    arena_size: u64,
    /// Cached size of a block header.
    block_header_size: u64,
}

impl Heap {
    /// The block list, in list order.
    pub closed spec fn spec_blocks(&self) -> Seq<HeapBlock> {
        self.blocks@
    }

    /// Lowest address of the arena.
    pub closed spec fn spec_arena_base(&self) -> u64 {
        self.arena_base
    }

    /// Total bytes of the arena.
    pub closed spec fn spec_arena_size(&self) -> u64 {
        self.arena_size
    }

    /// Cached block header size.
    pub closed spec fn spec_header_size(&self) -> u64 {
        self.block_header_size
    }

    /// The heap invariant: the blocks never overlap and together cover
    /// the arena exactly, each is a well-formed span, and every tag is
    /// one of the two magic words.
    pub open spec fn wf(&self) -> bool {
        &&& self.spec_header_size() == HEAP_HEADER_SIZE
        &&& self.spec_arena_base() + self.spec_arena_size() <= u64::MAX
        &&& 1 <= self.spec_blocks().len()
        &&& seq_valid(self.spec_blocks(), self.spec_arena_base(), self.spec_arena_size())
        &&& seq_disjoint(self.spec_blocks())
        &&& seq_cover(self.spec_blocks(), self.spec_arena_base(), self.spec_arena_size())
    }

    /// A heap that manages nothing yet; `init` must run before any
    /// allocation or free.
    pub fn new() -> (h: Heap)
        ensures
            h.spec_blocks() == Seq::<HeapBlock>::empty(),
            h.spec_arena_base() == 0,
            h.spec_arena_size() == 0,
    {
        Heap { blocks: Vec::new(), arena_base: 0, arena_size: 0, block_header_size: HEAP_HEADER_SIZE }
    }

    /// Install one giant free block spanning the whole arena, from
    /// which all other blocks will be carved.
    ///
    /// The arena is page-backed mapped memory handed out by the
    /// platform, so its size is a whole number of granularity units;
    /// every block size being a multiple of the granularity rests on
    /// that.
    pub fn init(&mut self, arena_base: u64, arena_size: u64)
        requires
            arena_base + arena_size <= u64::MAX,
            HEAP_BLOCK_SIZE <= arena_size,
            arena_size as int % (HEAP_BLOCK_SIZE as int) == 0,
        ensures
            final(self).wf(),
            final(self).spec_arena_base() == arena_base,
            final(self).spec_arena_size() == arena_size,
            final(self).spec_blocks() == seq![
                HeapBlock { addr: arena_base, size: arena_size, magic: HEAP_MAGIC_FREE },
            ],
    {
        let block = HeapBlock { addr: arena_base, size: arena_size, magic: HEAP_MAGIC_FREE };
        let mut blocks: Vec<HeapBlock> = Vec::new();
        blocks.push(block);
        self.blocks = blocks;
        self.arena_base = arena_base;
        self.arena_size = arena_size;
        self.block_header_size = HEAP_HEADER_SIZE;
        proof {
            assert(self.spec_blocks() =~= seq![block]);
            assert forall|p: int|
                arena_base <= p < arena_base + arena_size implies #[trigger] covered(
                self.spec_blocks(),
                p,
            ) by {
                assert(in_span(self.spec_blocks()[0], p));
            }
        }
    }

    /// Free a previously allocated block: find the block whose header
    /// sits `HEAP_HEADER_SIZE` bytes before the given pointer and mark
    /// it free. Succeeds exactly when that block exists and is in use;
    /// a block already free is a double free (`HeapNotInUse`), a
    /// pointer matching no block at all is corruption (`HeapBadBlock`).
    /// Safe from any core: nothing but the one tag changes.
    pub fn free(&mut self, to_free: u64) -> (r: Result<(), Cause>)
        requires
            old(self).wf(),
        ensures
            final(self).wf(),
            final(self).spec_arena_base() == old(self).spec_arena_base(),
            final(self).spec_arena_size() == old(self).spec_arena_size(),
            final(self).spec_header_size() == old(self).spec_header_size(),
            match r {
                Ok(()) => exists|i: int|
                    0 <= i < old(self).spec_blocks().len() && (#[trigger] old(
                        self,
                    ).spec_blocks()[i]).addr + HEAP_HEADER_SIZE == to_free && old(
                        self,
                    ).spec_blocks()[i].magic == HEAP_MAGIC_IN_USE && final(self).spec_blocks()
                        == old(self).spec_blocks().update(
                        i,
                        HeapBlock {
                            addr: old(self).spec_blocks()[i].addr,
                            size: old(self).spec_blocks()[i].size,
                            magic: HEAP_MAGIC_FREE,
                        },
                    ),
                Err(Cause::HeapNotInUse) => final(self).spec_blocks() == old(self).spec_blocks()
                    && exists|i: int|
                    0 <= i < old(self).spec_blocks().len() && (#[trigger] old(
                        self,
                    ).spec_blocks()[i]).addr + HEAP_HEADER_SIZE == to_free && old(
                        self,
                    ).spec_blocks()[i].magic == HEAP_MAGIC_FREE,
                Err(Cause::HeapBadBlock) => final(self).spec_blocks() == old(self).spec_blocks()
                    && forall|i: int|
                    0 <= i < old(self).spec_blocks().len() ==> (#[trigger] old(
                        self,
                    ).spec_blocks()[i]).addr + HEAP_HEADER_SIZE != to_free,
                _ => false,
            },
    {
        let n = self.blocks.len();
        let mut i: usize = 0;
        while i < n
            invariant
                self == old(self),
                n == self.spec_blocks().len(),
                i <= n,
                old(self).wf(),
                forall|j: int|
                    0 <= j < i ==> (#[trigger] self.spec_blocks()[j]).addr + HEAP_HEADER_SIZE
                        != to_free,
            decreases n - i,
        {
            let b = self.blocks[i];
            proof {
                assert(block_ok(b, self.spec_arena_base(), self.spec_arena_size()));
            }
            if b.addr + HEAP_HEADER_SIZE == to_free {
                if b.magic == HEAP_MAGIC_IN_USE {
                    let freed = HeapBlock { addr: b.addr, size: b.size, magic: HEAP_MAGIC_FREE };
                    self.blocks[i] = freed;
                    proof {
                        let bs1 = old(self).spec_blocks();
                        let bs2 = self.spec_blocks();
                        assert forall|k: int| 0 <= k < bs1.len() implies (#[trigger] bs2[k]).addr
                            == bs1[k].addr && bs2[k].size == bs1[k].size by {}
                        lemma_same_spans(
                            bs1,
                            bs2,
                            self.spec_arena_base(),
                            self.spec_arena_size(),
                        );
                    }
                    return Ok(());
                } else if b.magic == HEAP_MAGIC_FREE {
                    return Err(Cause::HeapNotInUse);
                } else {
                    proof {
                        assert(false);
                    }
                    return Err(Cause::HeapBadBlock);
                }
            }
            i = i + 1;
        }
        Err(Cause::HeapBadBlock)
    }

    /// Allocate memory for `num` objects of type `T`, returning the
    /// address just past the new block's header, as `malloc` would.
    ///
    /// The request is rounded up to whole granularity units (header
    /// included) and served by a first-fit scan of the block list. A
    /// free block barely larger than the request is taken whole, to
    /// avoid unusably small fragments; a larger one has the request
    /// carved from its tail, and the carved block joins the list at
    /// its head. When the scan runs off the end of the list, one
    /// consolidation pass runs; the scan restarts whenever
    /// consolidation freed up at least one granularity unit, and the
    /// call fails with `HeapNoFreeMem` once it no longer does.
    /// `num == 0` fails with `HeapBadSize`.
    pub fn allocate<T>(&mut self, num: usize) -> (r: Result<u64, Cause>)
        requires
            old(self).wf(),
            vstd::layout::size_of::<T>() * num + HEAP_HEADER_SIZE + HEAP_BLOCK_SIZE <= u64::MAX,
        ensures
            final(self).wf(),
            final(self).spec_arena_base() == old(self).spec_arena_base(),
            final(self).spec_arena_size() == old(self).spec_arena_size(),
            final(self).spec_header_size() == old(self).spec_header_size(),
            (num == 0) <==> (r == Err::<u64, Cause>(Cause::HeapBadSize)),
            num == 0 ==> final(self).spec_blocks() == old(self).spec_blocks(),
            r.is_err() ==> r == Err::<u64, Cause>(Cause::HeapBadSize) || r == Err::<u64, Cause>(
                Cause::HeapNoFreeMem,
            ),
            r == Err::<u64, Cause>(Cause::HeapNoFreeMem) ==> !fits(
                final(self).spec_blocks(),
                spec_alloc_size_req::<T>(num as int),
            ) && no_mergeable_pair(final(self).spec_blocks()) && same_in_use(
                old(self).spec_blocks(),
                final(self).spec_blocks(),
            ),
            num != 0 && fits(old(self).spec_blocks(), spec_alloc_size_req::<T>(num as int))
                ==> r.is_ok(),
            vstd::layout::size_of::<T>() * num + HEAP_HEADER_SIZE <= spec_alloc_size_req::<T>(
                num as int,
            ),
            num != 0 && fits(old(self).spec_blocks(), spec_alloc_size_req::<T>(num as int)) ==> (
            forall|p: u64|
                r == Ok::<u64, Cause>(p) ==> serves_first_fit(
                    old(self).spec_blocks(),
                    final(self).spec_blocks(),
                    p,
                    spec_alloc_size_req::<T>(num as int),
                )),
            forall|p: u64|
                r == Ok::<u64, Cause>(p) ==> alloc_success(
                    old(self).spec_blocks(),
                    final(self).spec_blocks(),
                    p,
                    spec_alloc_size_req::<T>(num as int),
                ),
            forall|p: u64|
                r == Ok::<u64, Cause>(p) ==> alloc_via_consolidation(
                    old(self).spec_blocks(),
                    final(self).spec_blocks(),
                    p,
                    spec_alloc_size_req::<T>(num as int),
                ),
    {
        proof {
            lemma_size_req_granularity(
                vstd::layout::size_of::<T>() as int * num as int + HEAP_HEADER_SIZE as int,
            );
        }
        if num == 0 {
            return Err(Cause::HeapBadSize);
        }
        let item_size: u64 = core::mem::size_of::<T>() as u64;
        let bytes: u64 = item_size * (num as u64) + HEAP_HEADER_SIZE;
        proof {
            lemma_size_req_granularity(bytes as int);
        }
        let size_req: u64 = ((bytes + (HEAP_BLOCK_SIZE - 1)) / HEAP_BLOCK_SIZE) * HEAP_BLOCK_SIZE;
        proof {
            assert(size_req as int == spec_size_req(bytes as int));
            assert(size_req as int == spec_alloc_size_req::<T>(num as int));
        }
        let ghost bs0 = self.spec_blocks();
        let ghost base0 = self.spec_arena_base();
        let ghost size0 = self.spec_arena_size();
        let mut i: usize = 0;
        loop
            invariant
                old(self).wf(),
                bs0 == old(self).spec_blocks(),
                base0 == old(self).spec_arena_base(),
                size0 == old(self).spec_arena_size(),
                self.spec_arena_base() == base0,
                self.spec_arena_size() == size0,
                self.spec_header_size() == old(self).spec_header_size(),
                1 <= self.spec_blocks().len(),
                i <= self.spec_blocks().len(),
                seq_valid(self.spec_blocks(), base0, size0),
                seq_disjoint(self.spec_blocks()),
                seq_cover(self.spec_blocks(), base0, size0),
                same_in_use(bs0, self.spec_blocks()),
                free_grew(bs0, self.spec_blocks()),
                num != 0,
                size_req as int == spec_alloc_size_req::<T>(num as int),
                HEAP_BLOCK_SIZE <= size_req,
                size_req as int % (HEAP_BLOCK_SIZE as int) == 0,
                fits(bs0, size_req as int) ==> self.spec_blocks() == bs0,
                forall|j: int|
                    0 <= j < i ==> !((#[trigger] self.spec_blocks()[j]).magic == HEAP_MAGIC_FREE
                        && size_req <= self.spec_blocks()[j].size),
            decreases self.spec_blocks().len(), self.spec_blocks().len() - i,
        {
            if i < self.blocks.len() {
                let b = self.blocks[i];
                proof {
                    assert(block_ok(self.spec_blocks()[i as int], base0, size0));
                }
                if b.magic == HEAP_MAGIC_FREE && size_req <= b.size {
                    if b.size - size_req < HEAP_BLOCK_SIZE {
                        // The leftover would be an unusable fragment:
                        // take the whole block as it is.
                        let taken = HeapBlock {
                            addr: b.addr,
                            size: b.size,
                            magic: HEAP_MAGIC_IN_USE,
                        };
                        let ghost mid = self.spec_blocks();
                        self.blocks[i] = taken;
                        proof {
                            let post = self.spec_blocks();
                            assert(post == mid.update(i as int, taken));
                            lemma_same_spans(mid, post, base0, size0);
                            assert forall|j: int|
                                0 <= j < post.len() && (#[trigger] post[j]).magic
                                    == HEAP_MAGIC_IN_USE && post[j] != taken implies has_block(
                                mid,
                                post[j],
                            ) by {
                                assert(j != i as int);
                                assert(post[j] == mid[j]);
                            }
                            assert forall|k: int|
                                0 <= k < mid.len() && (#[trigger] mid[k]).magic
                                    == HEAP_MAGIC_IN_USE implies has_block(post, mid[k])
                                && mid[k].addr != taken.addr by {
                                assert(k != i as int);
                                assert(post[k] == mid[k]);
                                assert(spans_disjoint(mid[k], mid[i as int]));
                                assert(block_ok(mid[k], base0, size0));
                            }
                            assert(in_use_extended_by(mid, post, taken));
                            lemma_in_use_extend_compose(bs0, mid, post, taken);
                            assert(has_block(post, taken)) by {
                                assert(post[i as int] == taken);
                            }
                            lemma_first_fit_at(mid, size_req as int, 0, i as int);
                            assert(serves_first_fit(
                                mid,
                                post,
                                (b.addr + HEAP_HEADER_SIZE) as u64,
                                size_req as int,
                            ));
                        }
                        return Ok(b.addr + HEAP_HEADER_SIZE);
                    } else {
                        // Carve the tail of the free block off into
                        // the new block and put it at the list head,
                        // leaving the shrunken free block in place.
                        let keep = HeapBlock {
                            addr: b.addr,
                            size: b.size - size_req,
                            magic: HEAP_MAGIC_FREE,
                        };
                        let carved = HeapBlock {
                            addr: b.addr + (b.size - size_req),
                            size: size_req,
                            magic: HEAP_MAGIC_IN_USE,
                        };
                        let ghost mid = self.spec_blocks();
                        proof {
                            assert((keep.size as int) % (HEAP_BLOCK_SIZE as int) == 0) by {
                                vstd::arithmetic::div_mod::lemma_sub_mod_noop(
                                    b.size as int,
                                    size_req as int,
                                    HEAP_BLOCK_SIZE as int,
                                );
                            }
                            lemma_split_step(mid, base0, size0, i as int, keep, carved);
                        }
                        self.blocks[i] = keep;
                        self.blocks.insert(0, carved);
                        proof {
                            let post = self.spec_blocks();
                            assert(post == mid.update(i as int, keep).insert(0, carved));
                            lemma_in_use_extend_compose(bs0, mid, post, carved);
                            assert(has_block(post, carved)) by {
                                assert(post[0] == carved);
                            }
                            lemma_first_fit_at(mid, size_req as int, 0, i as int);
                            assert(serves_first_fit(
                                mid,
                                post,
                                (carved.addr + HEAP_HEADER_SIZE) as u64,
                                size_req as int,
                            ));
                        }
                        return Ok(carved.addr + HEAP_HEADER_SIZE);
                    }
                }
                i = i + 1;
            } else {
                // End of the list without a fit: consolidate once and
                // retry only if it recovered at least one granularity
                // unit of contiguous space.
                let ghost mid = self.spec_blocks();
                proof {
                    if fits(bs0, size_req as int) {
                        let w = choose|w: int|
                            0 <= w < bs0.len() && (#[trigger] bs0[w]).magic == HEAP_MAGIC_FREE
                                && size_req as int <= bs0[w].size;
                        assert(self.spec_blocks()[w] == bs0[w]);
                        assert(false);
                    }
                }
                let merged = self.consolidate();
                proof {
                    lemma_same_in_use_trans(bs0, mid, self.spec_blocks());
                    lemma_free_grew_trans(bs0, mid, self.spec_blocks());
                }
                if merged < HEAP_BLOCK_SIZE {
                    proof {
                        assert(merged == 0);
                        assert(self.spec_blocks() == mid);
                        assert(!fits(self.spec_blocks(), size_req as int));
                        if fits(bs0, size_req as int) {
                            lemma_fits_preserved(bs0, self.spec_blocks(), size_req as int);
                            assert(false);
                        }
                    }
                    return Err(Cause::HeapNoFreeMem);
                }
                i = 0;
            }
        }
    }

    /// Pass once over the block list and merge each pair of
    /// list-adjacent blocks that are both free and physically
    /// contiguous. List order need not match address order, so the
    /// head and its list successor may be contiguous the other way
    /// round; that one pair is checked and merged separately after the
    /// pass. Returns the largest merged block size seen, in bytes
    /// including headers, or 0 when nothing merged; `alloc` uses it to
    /// decide whether a retry is worthwhile. One pass does not fully
    /// defragment chains of three or more blocks.
    ///
    /// In-use blocks are never touched, and no free capacity is lost.
    #[verifier::rlimit(100)]
    pub fn consolidate(&mut self) -> (r: u64)
        requires
            old(self).wf(),
        ensures
            final(self).wf(),
            final(self).spec_arena_base() == old(self).spec_arena_base(),
            final(self).spec_arena_size() == old(self).spec_arena_size(),
            final(self).spec_header_size() == old(self).spec_header_size(),
            same_in_use(old(self).spec_blocks(), final(self).spec_blocks()),
            free_grew(old(self).spec_blocks(), final(self).spec_blocks()),
            r == 0 ==> final(self).spec_blocks() == old(self).spec_blocks(),
            r != 0 ==> 2 * HEAP_BLOCK_SIZE <= r && has_free_of_size(final(self).spec_blocks(), r)
                && final(self).spec_blocks().len() < old(self).spec_blocks().len(),
            head_pair_merged(old(self).spec_blocks(), final(self).spec_blocks(), r),
            corner_pair_merged(old(self).spec_blocks(), final(self).spec_blocks(), r),
            r == 0 <==> no_mergeable_pair(old(self).spec_blocks()),
    {
        let ghost bs0 = self.spec_blocks();
        let ghost base0 = self.spec_arena_base();
        let ghost size0 = self.spec_arena_size();
        let mut largest: u64 = 0;
        let mut i: usize = 0;
        while i < self.blocks.len() - 1
            invariant
                old(self).wf(),
                bs0 == old(self).spec_blocks(),
                base0 == old(self).spec_arena_base(),
                size0 == old(self).spec_arena_size(),
                self.spec_arena_base() == base0,
                self.spec_arena_size() == size0,
                self.spec_header_size() == old(self).spec_header_size(),
                1 <= self.spec_blocks().len(),
                i <= self.spec_blocks().len(),
                seq_valid(self.spec_blocks(), base0, size0),
                seq_disjoint(self.spec_blocks()),
                seq_cover(self.spec_blocks(), base0, size0),
                same_in_use(bs0, self.spec_blocks()),
                free_grew(bs0, self.spec_blocks()),
                i == 0 ==> self.spec_blocks() == bs0 && largest == 0,
                largest == 0 ==> self.spec_blocks() == bs0 && (forall|a: int|
                    0 <= a < i ==> !adj_free_pair(self.spec_blocks(), a)),
                largest != 0 ==> 2 * HEAP_BLOCK_SIZE <= largest && has_free_of_size(
                    self.spec_blocks(),
                    largest,
                ) && self.spec_blocks().len() < bs0.len() && !no_mergeable_pair(bs0),
                (bs0.len() >= 2 && bs0[0].magic == HEAP_MAGIC_FREE && bs0[1].magic
                    == HEAP_MAGIC_FREE && bs0[1].addr + bs0[1].size == bs0[0].addr) ==> (
                self.spec_blocks().len() >= 2 && self.spec_blocks()[0] == bs0[0]
                    && self.spec_blocks()[1] == bs0[1]),
                (bs0.len() >= 2 && adj_free_pair(bs0, 0)) ==> ((i == 0 && self.spec_blocks()
                    == bs0) || (largest as int >= bs0[0].size + bs0[1].size && free_span_covering(
                    self.spec_blocks(),
                    bs0[0].addr as int,
                    bs0[1].addr + bs0[1].size,
                ))),
            decreases self.spec_blocks().len() - i,
        {
            let b = self.blocks[i];
            let n = self.blocks[i + 1];
            proof {
                assert(block_ok(self.spec_blocks()[i as int], base0, size0));
                assert(block_ok(self.spec_blocks()[i as int + 1], base0, size0));
                assert(spans_disjoint(
                    self.spec_blocks()[i as int],
                    self.spec_blocks()[i as int + 1],
                ));
            }
            if b.magic == HEAP_MAGIC_FREE && n.magic == HEAP_MAGIC_FREE && b.addr + b.size
                == n.addr {
                let merged_size = b.size + n.size;
                let m = HeapBlock { addr: b.addr, size: merged_size, magic: HEAP_MAGIC_FREE };
                let ghost mid = self.spec_blocks();
                proof {
                    lemma_merge_step(mid, base0, size0, i as int, i as int + 1, m);
                    if largest == 0 {
                        assert(adj_free_pair(bs0, i as int));
                    }
                }
                self.blocks[i] = m;
                self.blocks.remove(i + 1);
                let ghost old_largest = largest;
                if merged_size > largest {
                    largest = merged_size;
                }
                proof {
                    assert(self.spec_blocks() == mid.update(i as int, m).remove(i as int + 1));
                    lemma_same_in_use_trans(bs0, mid, self.spec_blocks());
                    lemma_free_grew_trans(bs0, mid, self.spec_blocks());
                    lemma_merge_bookkeeping(
                        bs0,
                        mid,
                        base0,
                        size0,
                        i as int,
                        m,
                        old_largest,
                        largest,
                    );
                }
            }
            i = i + 1;
        }
        proof {
            // The loop exits past the head, so its head-pair promise is
            // already resolved: a merge happened and was recorded.
            if bs0.len() >= 2 && adj_free_pair(bs0, 0) {
                if i == 0 {
                    assert(self.spec_blocks() == bs0);
                    assert(false);
                }
                assert(largest as int >= bs0[0].size + bs0[1].size);
                assert(free_span_covering(
                    self.spec_blocks(),
                    bs0[0].addr as int,
                    bs0[1].addr + bs0[1].size,
                ));
            }
        }
        if self.blocks.len() >= 2 {
            let h = self.blocks[0];
            let nx = self.blocks[1];
            proof {
                assert(block_ok(self.spec_blocks()[0], base0, size0));
                assert(block_ok(self.spec_blocks()[1], base0, size0));
            }
            if h.magic == HEAP_MAGIC_FREE && nx.magic == HEAP_MAGIC_FREE && nx.addr + nx.size
                == h.addr {
                let merged_size = nx.size + h.size;
                let m = HeapBlock { addr: nx.addr, size: merged_size, magic: HEAP_MAGIC_FREE };
                let ghost mid = self.spec_blocks();
                proof {
                    lemma_merge_step(mid, base0, size0, 1, 0, m);
                    if largest == 0 {
                        assert(corner_pair(bs0));
                    }
                }
                self.blocks[1] = m;
                self.blocks.remove(0);
                let ghost old_largest = largest;
                if merged_size > largest {
                    largest = merged_size;
                }
                proof {
                    assert(self.spec_blocks() == mid.update(1, m).remove(0));
                    lemma_same_in_use_trans(bs0, mid, self.spec_blocks());
                    lemma_free_grew_trans(bs0, mid, self.spec_blocks());
                    lemma_corner_bookkeeping(bs0, mid, base0, size0, m, old_largest, largest);
                }
            }
        }
        largest
    }

    /// Coverage invariant: in a well-formed heap the blocks, free and
    /// in-use together, cover every address of the arena and never
    /// overlap. Every operation's contract preserves `wf`, so this
    /// holds at every observation point of any sequence of
    /// allocations and frees.
    pub proof fn lemma_blocks_tile_arena(&self)
        requires
            self.wf(),
        ensures
            seq_cover(self.spec_blocks(), self.spec_arena_base(), self.spec_arena_size()),
            seq_disjoint(self.spec_blocks()),
    {
    }

    /// Exhaustion can never hand out memory: a request larger than
    /// the whole arena fits no free block of any well-formed heap, so
    /// `allocate` is bound by its contract to report `HeapNoFreeMem`
    /// for it rather than a pointer.
    pub proof fn lemma_oversized_request_never_fits(&self, size_req: int)
        requires
            self.wf(),
            self.spec_arena_size() < size_req,
        ensures
            !fits(self.spec_blocks(), size_req),
    {
        if fits(self.spec_blocks(), size_req) {
            let i = choose|i: int|
                0 <= i < self.spec_blocks().len() && (#[trigger] self.spec_blocks()[i]).magic
                    == HEAP_MAGIC_FREE && size_req <= self.spec_blocks()[i].size;
            assert(block_ok(
                self.spec_blocks()[i],
                self.spec_arena_base(),
                self.spec_arena_size(),
            ));
        }
    }

    /// How many blocks the list holds right now.
    pub fn block_count(&self) -> (n: usize)
        ensures
            n == self.spec_blocks().len(),
    {
        self.blocks.len()
    }

    /// The `i`-th block descriptor, in list order.
    pub fn block_at(&self, i: usize) -> (b: HeapBlock)
        requires
            i < self.spec_blocks().len(),
        ensures
            b == self.spec_blocks()[i as int],
    {
        self.blocks[i]
    }

    /// Lowest address of the arena.
    pub fn arena_base(&self) -> (b: u64)
        ensures
            b == self.spec_arena_base(),
    {
        self.arena_base
    }

    /// Total bytes of the arena.
    pub fn arena_size(&self) -> (s: u64)
        ensures
            s == self.spec_arena_size(),
    {
        self.arena_size
    }
}

/// Pointer `ptr` lies inside heap `h`'s arena.
pub open spec fn arena_contains(h: Heap, ptr: u64) -> bool {
    h.spec_arena_base() <= ptr < h.spec_arena_base() + h.spec_arena_size()
}

/// The arenas of the heaps in `hs` never overlap: a pointer names at
/// most one owning heap.
pub open spec fn arenas_disjoint(hs: Seq<Heap>) -> bool {
    forall|i: int, j: int|
        #![trigger hs[i], hs[j]]
        0 <= i < hs.len() && 0 <= j < hs.len() && i != j ==> (hs[i].spec_arena_base()
            + hs[i].spec_arena_size() <= hs[j].spec_arena_base() || hs[j].spec_arena_base()
            + hs[j].spec_arena_size() <= hs[i].spec_arena_base())
}

/// What a free through the adapter does to the owning heap's block
/// list: the in-use block whose payload starts at `ptr` is marked
/// free; if there is no such block the list is left untouched (the
/// failure is only logged — the ambient interface has no richer error
/// channel).
pub open spec fn free_outcome(pre: Seq<HeapBlock>, post: Seq<HeapBlock>, ptr: u64) -> bool {
    ||| exists|i: int|
        0 <= i < pre.len() && (#[trigger] pre[i]).addr + HEAP_HEADER_SIZE == ptr && pre[i].magic
            == HEAP_MAGIC_IN_USE && post == pre.update(
            i,
            HeapBlock { addr: pre[i].addr, size: pre[i].size, magic: HEAP_MAGIC_FREE },
        )
    ||| (post == pre && forall|i: int|
        0 <= i < pre.len() ==> !((#[trigger] pre[i]).addr + HEAP_HEADER_SIZE == ptr && pre[i].magic
            == HEAP_MAGIC_IN_USE))
}

/// The kernel's general-purpose allocation adapter: the hook through
/// which the rest of the kernel allocates, routing every request to
/// the calling core's private heap. Which core is "current" is an
/// injected capability, so a single-threaded harness can simulate
/// several cores. A free is routed by the pointer itself, to the heap
/// whose arena contains it: in the machine this is one tag write in
/// shared memory, so it succeeds from any core, not only the
/// allocating one.
#[allow(non_camel_case_types)]
pub struct kAllocator {
    /// One private heap per physical core.
    heaps: Vec<Heap>,
    /// The core whose heap serves allocations right now.
    current: usize,
}

impl kAllocator {
    /// The per-core heaps, in core order.
    pub closed spec fn spec_heaps(&self) -> Seq<Heap> {
        self.heaps@
    }

    /// Which core's heap serves allocations right now.
    pub closed spec fn spec_current(&self) -> usize {
        self.current
    }

    /// The adapter invariant: at least one core, a valid current core,
    /// every heap well-formed, and no two arenas overlapping.
    pub open spec fn wf(&self) -> bool {
        &&& 1 <= self.spec_heaps().len()
        &&& self.spec_current() < self.spec_heaps().len()
        &&& forall|i: int| 0 <= i < self.spec_heaps().len() ==> (#[trigger] self.spec_heaps()[i]).wf()
        &&& arenas_disjoint(self.spec_heaps())
    }

    /// An adapter with no cores yet; `add_core` must run, once per
    /// core, before any allocation.
    pub fn new() -> (a: kAllocator)
        ensures
            a.spec_heaps() == Seq::<Heap>::empty(),
            a.spec_current() == 0,
    {
        kAllocator { heaps: Vec::new(), current: 0 }
    }

    /// Register one core's private heap, over the arena the platform
    /// assigned to that core. The arena must not overlap any arena
    /// already registered, and, being page-backed mapped memory, is a
    /// whole number of granularity units long.
    pub fn add_core(&mut self, arena_base: u64, arena_size: u64)
        requires
            arena_base + arena_size <= u64::MAX,
            HEAP_BLOCK_SIZE <= arena_size,
            arena_size as int % (HEAP_BLOCK_SIZE as int) == 0,
            forall|i: int|
                0 <= i < old(self).spec_heaps().len() ==> ((#[trigger] old(
                    self,
                ).spec_heaps()[i]).spec_arena_base() + old(self).spec_heaps()[i].spec_arena_size()
                    <= arena_base || arena_base + arena_size <= old(
                    self,
                ).spec_heaps()[i].spec_arena_base()),
        ensures
            final(self).spec_current() == old(self).spec_current(),
            final(self).spec_heaps().len() == old(self).spec_heaps().len() + 1,
            forall|i: int|
                0 <= i < old(self).spec_heaps().len() ==> final(self).spec_heaps()[i] == old(
                    self,
                ).spec_heaps()[i],
            ({
                let h = final(self).spec_heaps().last();
                &&& h.wf()
                &&& h.spec_arena_base() == arena_base
                &&& h.spec_arena_size() == arena_size
                &&& h.spec_blocks() == seq![
                    HeapBlock { addr: arena_base, size: arena_size, magic: HEAP_MAGIC_FREE },
                ]
            }),
            old(self).spec_current() <= old(self).spec_heaps().len() && (forall|i: int|
                0 <= i < old(self).spec_heaps().len() ==> (#[trigger] old(self).spec_heaps()[i]).wf())
                && arenas_disjoint(old(self).spec_heaps()) ==> final(self).wf(),
    {
        let mut heap = Heap::new();
        heap.init(arena_base, arena_size);
        self.heaps.push(heap);
        proof {
            let pre = old(self).spec_heaps();
            let post = self.spec_heaps();
            if self.spec_current() <= pre.len() && (forall|i: int|
                0 <= i < pre.len() ==> (#[trigger] pre[i]).wf()) && arenas_disjoint(pre) {
                assert forall|i: int, j: int|
                    #![trigger post[i], post[j]]
                    0 <= i < post.len() && 0 <= j < post.len() && i != j implies (
                post[i].spec_arena_base() + post[i].spec_arena_size()
                    <= post[j].spec_arena_base() || post[j].spec_arena_base()
                    + post[j].spec_arena_size() <= post[i].spec_arena_base()) by {
                    if i < pre.len() && j < pre.len() {
                        assert(post[i] == pre[i] && post[j] == pre[j]);
                    }
                }
            }
        }
    }

    /// Resolve which core is calling: all following allocations come
    /// from this core's heap.
    pub fn set_current(&mut self, core: usize)
        requires
            core < old(self).spec_heaps().len(),
        ensures
            final(self).spec_current() == core,
            final(self).spec_heaps() == old(self).spec_heaps(),
    {
        self.current = core;
    }

    /// How many cores have registered a heap.
    pub fn core_count(&self) -> (n: usize)
        ensures
            n == self.spec_heaps().len(),
    {
        self.heaps.len()
    }

    /// The heap belonging to one core.
    pub fn heap_of(&self, core: usize) -> (h: &Heap)
        requires
            core < self.spec_heaps().len(),
        ensures
            *h == self.spec_heaps()[core as int],
    {
        &self.heaps[core]
    }

    /// Serve the ambient allocation interface: allocate `bytes` bytes
    /// from the current core's heap and return the payload address,
    /// or 0 (a null pointer) on any failure — the ambient interface
    /// has no richer error channel.
    pub fn allocate(&mut self, bytes: usize) -> (p: u64)
        requires
            old(self).wf(),
        ensures
            final(self).wf(),
            final(self).spec_current() == old(self).spec_current(),
            final(self).spec_heaps().len() == old(self).spec_heaps().len(),
            forall|j: int|
                0 <= j < old(self).spec_heaps().len() && j != old(self).spec_current()
                    ==> final(self).spec_heaps()[j] == old(self).spec_heaps()[j],
            p != 0 ==> alloc_success(
                old(self).spec_heaps()[old(self).spec_current() as int].spec_blocks(),
                final(self).spec_heaps()[old(self).spec_current() as int].spec_blocks(),
                p,
                spec_size_req(bytes + HEAP_HEADER_SIZE as int),
            ),
            bytes == 0 ==> p == 0,
            bytes + HEAP_HEADER_SIZE + HEAP_BLOCK_SIZE > u64::MAX ==> p == 0,
            p == 0 ==> bytes == 0 || bytes + HEAP_HEADER_SIZE + HEAP_BLOCK_SIZE > u64::MAX
                || !fits(
                final(self).spec_heaps()[old(self).spec_current() as int].spec_blocks(),
                spec_size_req(bytes + HEAP_HEADER_SIZE as int),
            ),
            bytes != 0 && bytes + HEAP_HEADER_SIZE + HEAP_BLOCK_SIZE <= u64::MAX && fits(
                old(self).spec_heaps()[old(self).spec_current() as int].spec_blocks(),
                spec_size_req(bytes + HEAP_HEADER_SIZE as int),
            ) ==> p != 0,
    {
        if bytes as u64 > u64::MAX - HEAP_HEADER_SIZE - HEAP_BLOCK_SIZE {
            return 0;
        }
        let cur = self.current;
        let r = self.heaps[cur].allocate::<u8>(bytes);
        match r {
            Ok(p) => {
                proof {
                    let pre = old(self).spec_heaps()[cur as int].spec_blocks();
                    let post = self.spec_heaps()[cur as int].spec_blocks();
                    assert(alloc_success(pre, post, p, spec_alloc_size_req::<u8>(bytes as int)));
                    let b = choose|b: HeapBlock|
                        {
                            &&& #[trigger] has_block(post, b)
                            &&& b.magic == HEAP_MAGIC_IN_USE
                            &&& b.addr + HEAP_HEADER_SIZE == p
                            &&& spec_alloc_size_req::<u8>(bytes as int) <= b.size
                            &&& in_use_extended_by(pre, post, b)
                        };
                    let w = choose|w: int| 0 <= w < post.len() && (#[trigger] post[w]) == b;
                    assert(block_ok(
                        post[w],
                        self.spec_heaps()[cur as int].spec_arena_base(),
                        self.spec_heaps()[cur as int].spec_arena_size(),
                    ));
                    assert(p != 0);
                }
                p
            },
            Err(_) => 0,
        }
    }

    /// Serve the ambient deallocation interface: find the heap whose
    /// arena contains the pointer — any core may free any block — and
    /// mark the block free there. A pointer inside no registered arena,
    /// or naming no live block, changes nothing.
    pub fn deallocate(&mut self, ptr: u64)
        requires
            old(self).wf(),
        ensures
            final(self).wf(),
            final(self).spec_current() == old(self).spec_current(),
            final(self).spec_heaps().len() == old(self).spec_heaps().len(),
            forall|j: int|
                0 <= j < old(self).spec_heaps().len() && !arena_contains(
                    #[trigger] old(self).spec_heaps()[j],
                    ptr,
                ) ==> final(self).spec_heaps()[j] == old(self).spec_heaps()[j],
            forall|j: int|
                0 <= j < old(self).spec_heaps().len() && arena_contains(
                    #[trigger] old(self).spec_heaps()[j],
                    ptr,
                ) ==> free_outcome(
                    old(self).spec_heaps()[j].spec_blocks(),
                    final(self).spec_heaps()[j].spec_blocks(),
                    ptr,
                ) && final(self).spec_heaps()[j].spec_arena_base() == old(
                    self,
                ).spec_heaps()[j].spec_arena_base() && final(self).spec_heaps()[j].spec_arena_size()
                    == old(self).spec_heaps()[j].spec_arena_size(),
    {
        let n = self.heaps.len();
        let mut i: usize = 0;
        while i < n
            invariant
                old(self).wf(),
                self == old(self),
                n == self.spec_heaps().len(),
                i <= n,
                forall|j: int|
                    0 <= j < i ==> !arena_contains(#[trigger] self.spec_heaps()[j], ptr),
            decreases n - i,
        {
            let base = self.heaps[i].arena_base();
            let size = self.heaps[i].arena_size();
            if base <= ptr && ptr - base < size {
                let r = self.heaps[i].free(ptr);
                proof {
                    if r is Err {
                        assert(final(self).spec_heaps()[i as int].spec_blocks() == old(
                            self,
                        ).spec_heaps()[i as int].spec_blocks());
                    }
                }
                return ;
            }
            i = i + 1;
        }
    }
}

} // verus!
