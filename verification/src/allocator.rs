//! The free-list heap allocator: first-fit allocation over a singly-linked,
//! unordered (LIFO, no coalescing) list of free blocks.
//!
//! On the target each free block stores its header — a size word and a link
//! to the next free block — in place, inside the block's own memory. Here
//! the raw in-place linking is replaced by a list the allocator owns, each
//! entry describing one free block by its address and size; the header's
//! footprint and alignment still govern which regions can become blocks and
//! how requests are adjusted. All operations run under the spinlock mutex;
//! the allocator itself is not reentrant-safe without it.

use vstd::arithmetic::div_mod::{
    lemma_add_mod_noop, lemma_fundamental_div_mod, lemma_fundamental_div_mod_converse,
    lemma_mod_bound,
    lemma_mod_multiples_basic, lemma_small_mod,
};
use vstd::prelude::*;

verus! {

/// Bytes of a free-block header on the target: a size word and a next link.
pub const NODE_SIZE: usize = 8;

/// Alignment the target requires of a free-block header.
pub const NODE_ALIGN: usize = 4;

/// Distance from `addr` up to the next multiple of `align`.
pub open spec fn align_pad(addr: int, align: int) -> int {
    (align - addr % align) % align
}

/// `addr` rounded up to the next multiple of `align`.
pub open spec fn spec_align_addr(addr: int, align: int) -> int {
    addr + align_pad(addr, align)
}

pub proof fn lemma_align_addr(addr: int, align: int)
    requires
        0 <= addr,
        1 <= align,
    ensures
        spec_align_addr(addr, align) % align == 0,
        addr <= spec_align_addr(addr, align) < addr + align,
        addr % align == 0 ==> spec_align_addr(addr, align) == addr,
{
    let r = addr % align;
    let q = addr / align;
    lemma_mod_bound(addr, align);
    lemma_fundamental_div_mod(addr, align);
    if r == 0 {
        lemma_mod_multiples_basic(1, align);
        assert(align_pad(addr, align) == 0);
        lemma_mod_multiples_basic(q, align);
        assert(q * align == align * q) by (nonlinear_arith);
    } else {
        lemma_small_mod((align - r) as nat, align as nat);
        assert(align_pad(addr, align) == align - r);
        assert(spec_align_addr(addr, align) == (q + 1) * align) by (nonlinear_arith)
            requires
                addr == align * q + r,
                spec_align_addr(addr, align) == addr + (align - r),
        ;
        lemma_mod_multiples_basic(q + 1, align);
    }
}

/// The round-up written with division, as the target computes it, equals
/// the round-up written with the padding distance.
pub proof fn lemma_align_addr_div_form(addr: int, align: int)
    requires
        0 <= addr,
        1 <= align,
    ensures
        (addr + align - 1) / align * align == spec_align_addr(addr, align),
{
    let q = addr / align;
    let r = addr % align;
    lemma_fundamental_div_mod(addr, align);
    lemma_mod_bound(addr, align);
    lemma_align_addr(addr, align);
    if r == 0 {
        lemma_mod_multiples_basic(1, align);
        assert(addr + align - 1 == q * align + (align - 1)) by (nonlinear_arith)
            requires
                addr == align * q,
        ;
        lemma_fundamental_div_mod_converse(addr + align - 1, align, q, align - 1);
        assert(q * align == align * q) by (nonlinear_arith);
    } else {
        lemma_small_mod((align - r) as nat, align as nat);
        assert(addr + align - 1 == (q + 1) * align + (r - 1)) by (nonlinear_arith)
            requires
                addr == align * q + r,
        ;
        lemma_fundamental_div_mod_converse(addr + align - 1, align, q + 1, r - 1);
        assert((q + 1) * align == addr + (align - r)) by (nonlinear_arith)
            requires
                addr == align * q + r,
        ;
    }
}

/// Divisibility carries down to a divisor of the modulus: if `x` is a
/// multiple of `a` and `a` is a multiple of `b`, then `x` is a multiple of
/// `b`.
pub proof fn lemma_mod_transfer(x: int, a: int, b: int)
    requires
        0 <= x,
        1 <= a,
        1 <= b,
        x % a == 0,
        a % b == 0,
    ensures
        x % b == 0,
{
    lemma_fundamental_div_mod(x, a);
    lemma_fundamental_div_mod(a, b);
    assert(x == (b * (a / b)) * (x / a));
    assert(x == ((a / b) * (x / a)) * b) by (nonlinear_arith)
        requires
            x == (b * (a / b)) * (x / a),
    ;
    lemma_mod_multiples_basic((a / b) * (x / a), b);
}

/// One free block: `size` bytes starting at `addr`, the header included in
/// the size, as the target stores it in place at the block's start.
#[derive(Clone, Copy, PartialEq, Eq, Structural, Debug)]
pub struct ListNode {
    pub addr: usize,
    pub size: usize,
}

impl ListNode {
    /// One past the block's last address.
    pub open spec fn end(self) -> int {
        self.addr + self.size
    }

    /// The block can host its header: aligned for it, big enough for it,
    /// and inside the address space.
    pub open spec fn wf(self) -> bool {
        &&& self.addr % NODE_ALIGN == 0
        &&& NODE_SIZE <= self.size
        &&& self.addr + self.size <= usize::MAX
    }

    pub fn new(addr: usize, size: usize) -> (n: ListNode)
        ensures
            n.addr == addr,
            n.size == size,
    {
        ListNode { addr, size }
    }
}

/// The blocks cover no common address.
pub open spec fn nodes_disjoint(a: ListNode, b: ListNode) -> bool {
    a.end() <= b.addr || b.end() <= a.addr
}

/// The region of `size` bytes at `addr` shares no address with block `n`.
pub open spec fn region_disjoint(addr: int, size: int, n: ListNode) -> bool {
    addr + size <= n.addr || n.end() <= addr
}

/// Every block of the list can host its header.
pub open spec fn all_wf(al: Seq<ListNode>) -> bool {
    forall|i: int| 0 <= i < al.len() ==> (#[trigger] al[i]).wf()
}

/// The blocks of the list are pairwise disjoint.
pub open spec fn all_disjoint(al: Seq<ListNode>) -> bool {
    forall|i: int, j: int|
        0 <= i < al.len() && 0 <= j < al.len() && i != j ==> nodes_disjoint(
            #[trigger] al[i],
            #[trigger] al[j],
        )
}

/// The free list after the region of `size` bytes at `start` is handed to
/// the allocator: the start is aligned up for a header, and the region
/// becomes a new block at the front of the list — unless what remains after
/// the alignment loss cannot hold a header, in which case the region is
/// discarded.
pub open spec fn spec_add_region(al: Seq<ListNode>, start: int, size: int) -> Seq<ListNode> {
    let aligned = spec_align_addr(start, NODE_ALIGN as int);
    if aligned + NODE_SIZE <= start + size {
        seq![
            ListNode { addr: aligned as usize, size: (start + size - aligned) as usize },
        ] + al
    } else {
        al
    }
}

/// A request for `size` bytes, adjusted as the allocator carves blocks: at
/// least a header's worth (so the region can return to the free list
/// whole), rounded up to the header's alignment (so the split-off remainder
/// starts aligned).
pub open spec fn adjusted_size(size: int) -> int {
    spec_align_addr(
        if size < NODE_SIZE {
            NODE_SIZE as int
        } else {
            size
        },
        NODE_ALIGN as int,
    )
}

/// A request alignment the allocator serves: positive and, like every
/// power of two, comparable with the header's alignment — one divides the
/// other.
pub open spec fn valid_align(align: int) -> bool {
    &&& 1 <= align
    &&& (NODE_ALIGN as int % align == 0 || align % NODE_ALIGN as int == 0)
}

/// Block `n` can serve an allocation of `size` bytes at alignment `align`:
/// after aligning the block's start up, the adjusted request still lies
/// inside the block.
pub open spec fn fits(n: ListNode, size: int, align: int) -> bool {
    spec_align_addr(n.addr as int, align) + adjusted_size(size) <= n.end()
}

/// The position of the first block at or after position `i` that can serve
/// the request, if any: the first-fit search order is list order.
pub open spec fn first_fit_from(al: Seq<ListNode>, size: int, align: int, i: int) -> Option<int>
    decreases al.len() - i,
{
    if i < 0 || i >= al.len() {
        None
    } else if fits(al[i], size, align) {
        Some(i)
    } else {
        first_fit_from(al, size, align, i + 1)
    }
}

/// The position of the first block of the list that can serve the request.
pub open spec fn spec_first_fit(al: Seq<ListNode>, size: int, align: int) -> Option<int> {
    first_fit_from(al, size, align, 0)
}

/// The address an allocation of `size` bytes at alignment `align` from
/// free list `al` returns: the aligned start of the first fitting block,
/// or nothing when no block fits.
pub open spec fn spec_alloc_addr(al: Seq<ListNode>, size: int, align: int) -> Option<int> {
    match spec_first_fit(al, size, align) {
        Some(i) => Some(spec_align_addr(al[i].addr as int, align)),
        None => None,
    }
}

/// The free list after that allocation: the first fitting block leaves the
/// list, and whatever the adjusted request leaves of it is handed back as
/// a region — becoming a new block if it can host a header, wasted
/// otherwise.
pub open spec fn spec_alloc_list(al: Seq<ListNode>, size: int, align: int) -> Seq<ListNode> {
    match spec_first_fit(al, size, align) {
        Some(i) => {
            let aend = spec_align_addr(al[i].addr as int, align) + adjusted_size(size);
            spec_add_region(al.remove(i), aend, al[i].end() - aend)
        },
        None => al,
    }
}

pub proof fn lemma_first_fit_from_finds(al: Seq<ListNode>, size: int, align: int, i: int, j: int)
    requires
        0 <= i <= j < al.len(),
        fits(al[j], size, align),
    ensures
        first_fit_from(al, size, align, i) is Some,
    decreases j - i,
{
    if i < j && !fits(al[i], size, align) {
        lemma_first_fit_from_finds(al, size, align, i + 1, j);
    }
}

pub proof fn lemma_first_fit_from_some(al: Seq<ListNode>, size: int, align: int, i: int)
    requires
        first_fit_from(al, size, align, i) is Some,
    ensures
        ({
            let k = first_fit_from(al, size, align, i)->0;
            &&& i <= k < al.len()
            &&& fits(al[k], size, align)
            &&& forall|j: int| i <= j < k ==> !fits(#[trigger] al[j], size, align)
        }),
    decreases al.len() - i,
{
    if 0 <= i < al.len() && !fits(al[i], size, align) {
        lemma_first_fit_from_some(al, size, align, i + 1);
    }
}

/// The free-list allocator.
pub struct SimpleAllocator {
    nodes: Vec<ListNode>,
}

impl View for SimpleAllocator {
    type V = Seq<ListNode>;

    closed spec fn view(&self) -> Seq<ListNode> {
        self.nodes@
    }
}

/// `addr` rounded up to the next multiple of `align`, as the target
/// computes it.
pub fn align_addr(addr: usize, align: usize) -> (r: usize)
    requires
        1 <= align,
        addr + align <= usize::MAX,
    ensures
        r == spec_align_addr(addr as int, align as int),
{
    proof {
        lemma_align_addr(addr as int, align as int);
        lemma_align_addr_div_form(addr as int, align as int);
    }
    (addr + align - 1) / align * align
}

impl SimpleAllocator {
    /// Every block is a valid header host and no two blocks overlap.
    pub open spec fn wf(self) -> bool {
        all_wf(self@) && all_disjoint(self@)
    }

    /// An allocator with an empty free list; regions are handed to it
    /// afterwards, both to seed the heap and to return freed memory.
    pub fn new() -> (a: SimpleAllocator)
        ensures
            a.wf(),
            a@ == Seq::<ListNode>::empty(),
    {
        SimpleAllocator { nodes: Vec::new() }
    }

    /// Hands the region of `size` bytes at `start_addr` to the allocator:
    /// aligns the start up for a header, and prepends a block describing
    /// what remains — or discards the region if that cannot hold a header.
    /// No coalescing: the block stays separate even if it is physically
    /// contiguous with a neighbour.
    ///
    /// The caller owns the region and it overlaps no free block; both seed
    /// regions and freed allocations satisfy that.
    pub fn add_new_node(&mut self, start_addr: usize, size: usize)
        requires
            old(self).wf(),
            start_addr + size <= usize::MAX,
            forall|i: int|
                0 <= i < old(self)@.len() ==> region_disjoint(
                    start_addr as int,
                    size as int,
                    #[trigger] old(self)@[i],
                ),
        ensures
            final(self).wf(),
            final(self)@ == spec_add_region(old(self)@, start_addr as int, size as int),
    {
        proof {
            lemma_align_addr(start_addr as int, NODE_ALIGN as int);
        }
        if size < NODE_SIZE {
            return ;
        }
        let aligned = align_addr(start_addr, NODE_ALIGN);
        let end_addr = start_addr + size;
        if aligned > end_addr || end_addr - aligned < NODE_SIZE {
            return ;
        }
        let node = ListNode::new(aligned, end_addr - aligned);
        self.nodes.insert(0, node);
        proof {
            let r = self@;
            let o = old(self)@;
            assert(r =~= spec_add_region(o, start_addr as int, size as int));
            assert forall|i: int, j: int|
                0 <= i < r.len() && 0 <= j < r.len() && i != j implies nodes_disjoint(
                #[trigger] r[i],
                #[trigger] r[j],
            ) by {
                if i != 0 && j != 0 {
                    assert(r[i] == o[i - 1] && r[j] == o[j - 1]);
                }
            }
        }
    }

    /// First-fit allocation of `size` bytes at alignment `align`: scans the
    /// free list in order for the first block that can serve the adjusted
    /// request, removes that block, and hands whatever the request leaves
    /// of it back to the free list. Returns the aligned address served, or
    /// `None` exactly when no block fits — on the target an allocation
    /// failure is fatal, since a process cannot proceed without memory.
    pub fn allocate(&mut self, size: usize, align: usize) -> (r: Option<usize>)
        requires
            old(self).wf(),
            1 <= size,
            size + NODE_ALIGN <= usize::MAX,
            valid_align(align as int),
        ensures
            final(self).wf(),
            final(self)@ == spec_alloc_list(old(self)@, size as int, align as int),
            (match r {
                Some(p) => spec_alloc_addr(old(self)@, size as int, align as int) == Some(
                    p as int,
                ),
                None => spec_alloc_addr(old(self)@, size as int, align as int) is None,
            }),
            r is None <==> (forall|i: int|
                0 <= i < old(self)@.len() ==> !fits(
                    #[trigger] old(self)@[i],
                    size as int,
                    align as int,
                )),
    {
        let ghost s = size as int;
        let ghost a = align as int;
        let base = if size < NODE_SIZE {
            NODE_SIZE
        } else {
            size
        };
        let asize = align_addr(base, NODE_ALIGN);
        proof {
            lemma_align_addr(base as int, NODE_ALIGN as int);
            assert(asize == adjusted_size(s));
        }
        let n = self.nodes.len();
        let mut i: usize = 0;
        let mut found = false;
        let mut faddr: usize = 0;
        while i < n && !found
            invariant
                self@ == old(self)@,
                old(self).wf(),
                n == self@.len(),
                i <= n,
                a == align,
                s == size,
                valid_align(a),
                asize == adjusted_size(s),
                NODE_SIZE <= asize,
                !found ==> first_fit_from(self@, s, a, 0) == first_fit_from(self@, s, a, i as int),
                found ==> ({
                    &&& i < n
                    &&& fits(self@[i as int], s, a)
                    &&& first_fit_from(self@, s, a, 0) == Some(i as int)
                    &&& faddr == spec_align_addr(self@[i as int].addr as int, a)
                    &&& faddr + asize <= self@[i as int].end()
                }),
            decreases n - i + (if found {
                0int
            } else {
                1int
            }),
        {
            let node = self.nodes[i];
            proof {
                assert(node.wf());
            }
            let end = node.addr + node.size;
            let rem = node.addr % align;
            let pad = if rem == 0 {
                0
            } else {
                align - rem
            };
            proof {
                lemma_mod_bound(node.addr as int, a);
                if rem == 0 {
                    lemma_mod_multiples_basic(1, a);
                } else {
                    lemma_small_mod((align - rem) as nat, align as nat);
                }
                assert(pad == align_pad(node.addr as int, a));
            }
            if pad <= usize::MAX - node.addr {
                let astart = node.addr + pad;
                proof {
                    assert(astart == spec_align_addr(node.addr as int, a));
                }
                if astart <= end && end - astart >= asize {
                    found = true;
                    faddr = astart;
                } else {
                    proof {
                        assert(!fits(self@[i as int], s, a));
                    }
                    i = i + 1;
                }
            } else {
                proof {
                    assert(spec_align_addr(node.addr as int, a) > usize::MAX);
                    assert(!fits(self@[i as int], s, a));
                }
                i = i + 1;
            }
        }
        if !found {
            proof {
                assert(first_fit_from(self@, s, a, n as int) is None);
                if spec_first_fit(old(self)@, s, a) is Some {
                    lemma_first_fit_from_some(old(self)@, s, a, 0);
                }
                assert forall|j: int| 0 <= j < old(self)@.len() implies !fits(
                    #[trigger] old(self)@[j],
                    s,
                    a,
                ) by {
                    if fits(old(self)@[j], s, a) {
                        lemma_first_fit_from_finds(old(self)@, s, a, 0, j);
                    }
                }
            }
            return None;
        }
        let node = self.nodes.remove(i);
        let aend = faddr + asize;
        let leftover = node.addr + node.size - aend;
        proof {
            let o = old(self)@;
            let m = self@;
            assert(m =~= o.remove(i as int));
            assert forall|k: int| 0 <= k < m.len() implies (#[trigger] m[k]).wf() by {
                if k < i {
                    assert(m[k] == o[k]);
                } else {
                    assert(m[k] == o[k + 1]);
                }
            }
            assert forall|k: int, l: int|
                0 <= k < m.len() && 0 <= l < m.len() && k != l implies nodes_disjoint(
                #[trigger] m[k],
                #[trigger] m[l],
            ) by {
                let ko: int = if k < i {
                    k
                } else {
                    k + 1
                };
                let lo: int = if l < i {
                    l
                } else {
                    l + 1
                };
                assert(m[k] == o[ko] && m[l] == o[lo]);
            }
            assert forall|k: int| 0 <= k < m.len() implies region_disjoint(
                aend as int,
                leftover as int,
                #[trigger] m[k],
            ) by {
                let ko: int = if k < i {
                    k
                } else {
                    k + 1
                };
                assert(m[k] == o[ko]);
                assert(nodes_disjoint(o[ko], node));
            }
        }
        self.add_new_node(aend, leftover);
        proof {
            assert(self@ == spec_alloc_list(old(self)@, s, a));
        }
        Some(faddr)
    }

    /// Returns the `size`-byte allocation at `ptr` to the free list,
    /// applying the same request adjustment as `alloc`, so that exactly the
    /// block the allocation consumed comes back. No coalescing with
    /// adjacent free blocks takes place.
    ///
    /// The caller returns only memory it was handed by `alloc` and has not
    /// returned since; such a region overlaps no free block.
    pub fn deallocate(&mut self, ptr: usize, size: usize)
        requires
            old(self).wf(),
            1 <= size,
            size + NODE_ALIGN <= usize::MAX,
            ptr + adjusted_size(size as int) <= usize::MAX,
            forall|i: int|
                0 <= i < old(self)@.len() ==> region_disjoint(
                    ptr as int,
                    adjusted_size(size as int),
                    #[trigger] old(self)@[i],
                ),
        ensures
            final(self).wf(),
            final(self)@ == spec_add_region(old(self)@, ptr as int, adjusted_size(size as int)),
    {
        let base = if size < NODE_SIZE {
            NODE_SIZE
        } else {
            size
        };
        let asize = align_addr(base, NODE_ALIGN);
        self.add_new_node(ptr, asize);
    }

    /// How many blocks the free list holds.
    pub fn free_block_count(&self) -> (n: usize)
        ensures
            n == self@.len(),
    {
        self.nodes.len()
    }

    /// Read access to the block at list position `i`.
    pub fn get_node(&self, i: usize) -> (n: &ListNode)
        requires
            i < self@.len(),
        ensures
            *n == self@[i as int],
    {
        &self.nodes[i]
    }
}

/// Some free block of `al` covers address `x`.
pub open spec fn in_free(al: Seq<ListNode>, x: int) -> bool {
    exists|i: int| 0 <= i < al.len() && (#[trigger] al[i]).addr <= x < al[i].end()
}

/// The adjusted request is at least the request, at least a header's worth,
/// and header-aligned.
pub proof fn lemma_adjusted_size(size: int)
    requires
        1 <= size,
    ensures
        size <= adjusted_size(size),
        NODE_SIZE <= adjusted_size(size),
        adjusted_size(size) % NODE_ALIGN as int == 0,
{
    lemma_align_addr(
        if size < NODE_SIZE {
            NODE_SIZE as int
        } else {
            size
        },
        NODE_ALIGN as int,
    );
}

/// Law: an allocation never serves a region smaller than requested, and
/// carves it out of the free space. Whenever an allocation from a
/// well-formed free list returns address `p`, the served region — the
/// adjusted request, at least `size` bytes — is aligned as asked, was free
/// before the call, and is free no longer: the new free list covers only
/// addresses that were free before, minus the served region, and is itself
/// well-formed again.
pub proof fn lemma_allocation_sound(al: Seq<ListNode>, size: int, align: int)
    requires
        all_wf(al),
        all_disjoint(al),
        1 <= size,
        valid_align(align),
        spec_alloc_addr(al, size, align) is Some,
    ensures
        ({
            let p = spec_alloc_addr(al, size, align)->0;
            let adj = adjusted_size(size);
            let rl = spec_alloc_list(al, size, align);
            &&& size <= adj
            &&& NODE_SIZE <= adj
            &&& adj % NODE_ALIGN as int == 0
            &&& 0 <= p
            &&& p + adj <= usize::MAX
            &&& p % align == 0
            &&& p % NODE_ALIGN as int == 0
            &&& forall|x: int| p <= x < p + adj ==> in_free(al, x)
            &&& all_wf(rl)
            &&& all_disjoint(rl)
            &&& forall|x: int| in_free(rl, x) ==> in_free(al, x) && !(p <= x < p + adj)
        }),
{
    let p = spec_alloc_addr(al, size, align)->0;
    let adj = adjusted_size(size);
    let rl = spec_alloc_list(al, size, align);
    lemma_first_fit_from_some(al, size, align, 0);
    let k = spec_first_fit(al, size, align)->0;
    let nd = al[k];
    assert(nd.wf());
    lemma_align_addr(nd.addr as int, align);
    assert(p == spec_align_addr(nd.addr as int, align));
    lemma_align_addr(
        if size < NODE_SIZE {
            NODE_SIZE as int
        } else {
            size
        },
        NODE_ALIGN as int,
    );
    assert(size <= adj && adj % NODE_ALIGN as int == 0);
    assert(nd.addr <= p && p + adj <= nd.end());
    if align % NODE_ALIGN as int == 0 {
        lemma_mod_transfer(p, align, NODE_ALIGN as int);
    } else {
        lemma_mod_transfer(nd.addr as int, NODE_ALIGN as int, align);
        assert(p == nd.addr);
    }
    assert forall|x: int| p <= x < p + adj implies in_free(al, x) by {
        assert(nd.addr <= x < nd.end());
    }
    let aend = p + adj;
    let leftover = nd.end() - aend;
    let rem = al.remove(k);
    lemma_add_mod_noop(p, adj, NODE_ALIGN as int);
    assert(aend % NODE_ALIGN as int == 0);
    lemma_align_addr(aend, NODE_ALIGN as int);
    assert(spec_align_addr(aend, NODE_ALIGN as int) == aend);
    assert(rl == spec_add_region(rem, aend, leftover));
    assert(forall|j: int|
        0 <= j < rem.len() ==> #[trigger] rem[j] == al[if j < k {
            j
        } else {
            j + 1
        }]);
    if NODE_SIZE <= leftover {
        let n0 = ListNode { addr: aend as usize, size: leftover as usize };
        assert(rl =~= seq![n0] + rem);
        assert(n0.wf());
        assert forall|i: int, j: int|
            0 <= i < rl.len() && 0 <= j < rl.len() && i != j implies nodes_disjoint(
            #[trigger] rl[i],
            #[trigger] rl[j],
        ) by {
            if i != 0 && j != 0 {
                assert(rl[i] == rem[i - 1] && rl[j] == rem[j - 1]);
            } else if i == 0 {
                assert(rl[j] == rem[j - 1]);
                assert(nodes_disjoint(rem[j - 1], nd));
            } else {
                assert(rl[i] == rem[i - 1]);
                assert(nodes_disjoint(rem[i - 1], nd));
            }
        }
    } else {
        assert(rl == rem);
    }
    assert forall|x: int| in_free(rl, x) implies in_free(al, x) && !(p <= x < p + adj) by {
        let i = choose|i: int| 0 <= i < rl.len() && (#[trigger] rl[i]).addr <= x < rl[i].end();
        if NODE_SIZE <= leftover && i == 0 {
            assert(nd.addr <= x < nd.end());
            assert(in_free(al, x));
        } else {
            let j = if NODE_SIZE <= leftover {
                i - 1
            } else {
                i
            };
            let jo: int = if j < k {
                j
            } else {
                j + 1
            };
            assert(rl[i] == al[jo]);
            assert(in_free(al, x));
            assert(nodes_disjoint(al[jo], nd));
        }
    }
}

/// Law: no two simultaneously live allocations overlap. For any free list
/// reached through any interleaving of allocations and deallocations of
/// live regions — every such list is well-formed, since each operation
/// preserves well-formedness — two back-to-back successful allocations
/// return regions with no common address, however the sizes and alignments
/// differ.
pub proof fn lemma_allocations_disjoint(
    al: Seq<ListNode>,
    s1: int,
    a1: int,
    p1: int,
    s2: int,
    a2: int,
    p2: int,
)
    requires
        all_wf(al),
        all_disjoint(al),
        1 <= s1,
        1 <= s2,
        valid_align(a1),
        valid_align(a2),
        spec_alloc_addr(al, s1, a1) == Some(p1),
        spec_alloc_addr(spec_alloc_list(al, s1, a1), s2, a2) == Some(p2),
    ensures
        p1 + s1 <= p2 || p2 + s2 <= p1,
{
    lemma_allocation_sound(al, s1, a1);
    let al1 = spec_alloc_list(al, s1, a1);
    lemma_allocation_sound(al1, s2, a2);
    if !(p1 + s1 <= p2 || p2 + s2 <= p1) {
        let x = if p1 >= p2 {
            p1
        } else {
            p2
        };
        assert(p2 <= x < p2 + adjusted_size(s2));
        assert(in_free(al1, x));
        assert(p1 <= x < p1 + adjusted_size(s1));
        assert(false);
    }
}

/// Law: one allocate/deallocate cycle leaks nothing. Deallocating exactly
/// what an allocation served restores a free list that satisfies the same
/// request again — at the very same address.
pub proof fn lemma_alloc_dealloc_restores(al: Seq<ListNode>, size: int, align: int)
    requires
        all_wf(al),
        all_disjoint(al),
        1 <= size,
        valid_align(align),
        spec_alloc_addr(al, size, align) is Some,
    ensures
        ({
            let p = spec_alloc_addr(al, size, align)->0;
            let al2 = spec_add_region(
                spec_alloc_list(al, size, align),
                p,
                adjusted_size(size),
            );
            spec_alloc_addr(al2, size, align) == Some(p)
        }),
{
    lemma_allocation_sound(al, size, align);
    let p = spec_alloc_addr(al, size, align)->0;
    let adj = adjusted_size(size);
    let al1 = spec_alloc_list(al, size, align);
    let al2 = spec_add_region(al1, p, adj);
    lemma_align_addr(p, NODE_ALIGN as int);
    assert(spec_align_addr(p, NODE_ALIGN as int) == p);
    assert(al2 == seq![ListNode { addr: p as usize, size: adj as usize }] + al1);
    let n0 = al2[0];
    assert(n0.addr == p && n0.size == adj);
    lemma_align_addr(p, align);
    assert(spec_align_addr(n0.addr as int, align) == p);
    assert(fits(al2[0], size, align));
    assert(spec_first_fit(al2, size, align) == Some(0int));
}

/// One allocation a caller still holds: the address the allocator returned
/// and the size that was requested; the region it occupies is the adjusted
/// request.
pub ghost struct LiveAlloc {
    pub addr: int,
    pub size: int,
}

impl LiveAlloc {
    /// One past the region's last address.
    pub open spec fn end(self) -> int {
        self.addr + adjusted_size(self.size)
    }

    /// The shape every region served by the allocator has.
    pub open spec fn wf(self) -> bool {
        &&& 1 <= self.size
        &&& 0 <= self.addr
        &&& self.addr % NODE_ALIGN as int == 0
        &&& self.end() <= usize::MAX
    }
}

/// The allocator's whole world at one instant: its free list and the
/// allocations its callers hold.
pub ghost struct HeapState {
    pub free: Seq<ListNode>,
    pub live: Seq<LiveAlloc>,
}

/// One call a caller can make: request a region, or return a region it
/// holds (named by its position among the live allocations).
pub ghost enum HeapOp {
    Allocate { size: int, align: int },
    Deallocate { index: int },
}

/// The heap after one call. A malformed request, a failed allocation and a
/// deallocation of nothing leave it unchanged; a served allocation moves
/// the region from the free list to the live set, and a deallocation moves
/// it back, exactly as `allocate` and `deallocate` do.
pub open spec fn heap_step(st: HeapState, op: HeapOp) -> HeapState {
    match op {
        HeapOp::Allocate { size, align } => {
            if 1 <= size && valid_align(align) {
                match spec_alloc_addr(st.free, size, align) {
                    Some(p) => HeapState {
                        free: spec_alloc_list(st.free, size, align),
                        live: st.live.push(LiveAlloc { addr: p, size }),
                    },
                    None => st,
                }
            } else {
                st
            }
        },
        HeapOp::Deallocate { index } => {
            if 0 <= index < st.live.len() {
                HeapState {
                    free: spec_add_region(
                        st.free,
                        st.live[index].addr,
                        adjusted_size(st.live[index].size),
                    ),
                    live: st.live.remove(index),
                }
            } else {
                st
            }
        },
    }
}

/// The heap after a whole sequence of calls.
pub open spec fn heap_run(st: HeapState, ops: Seq<HeapOp>) -> HeapState
    decreases ops.len(),
{
    if ops.len() == 0 {
        st
    } else {
        heap_run(heap_step(st, ops[0]), ops.drop_first())
    }
}

/// Everything that stays true of the heap: the free list is well-formed,
/// every live region has the served shape, no two live regions share an
/// address, and no live region shares an address with a free block.
pub open spec fn heap_inv(st: HeapState) -> bool {
    &&& all_wf(st.free)
    &&& all_disjoint(st.free)
    &&& forall|j: int| 0 <= j < st.live.len() ==> (#[trigger] st.live[j]).wf()
    &&& forall|j: int, k: int|
        0 <= j < st.live.len() && 0 <= k < st.live.len() && j != k ==> ((#[trigger] st.live[j]).end()
            <= (#[trigger] st.live[k]).addr || st.live[k].end() <= st.live[j].addr)
    &&& forall|j: int, i: int|
        0 <= j < st.live.len() && 0 <= i < st.free.len() ==> region_disjoint(
            (#[trigger] st.live[j]).addr,
            adjusted_size(st.live[j].size),
            #[trigger] st.free[i],
        )
}

/// A freshly seeded heap — free blocks handed over, nothing yet allocated —
/// satisfies the invariant.
pub proof fn lemma_heap_inv_seeded(free: Seq<ListNode>)
    requires
        all_wf(free),
        all_disjoint(free),
    ensures
        heap_inv(HeapState { free, live: Seq::empty() }),
{
}

pub proof fn lemma_heap_step_inv(st: HeapState, op: HeapOp)
    requires
        heap_inv(st),
    ensures
        heap_inv(heap_step(st, op)),
{
    match op {
        HeapOp::Allocate { size, align } => {
            if 1 <= size && valid_align(align) && spec_alloc_addr(st.free, size, align) is Some {
                let p = spec_alloc_addr(st.free, size, align)->0;
                let adj = adjusted_size(size);
                let rl = spec_alloc_list(st.free, size, align);
                let r = LiveAlloc { addr: p, size };
                lemma_allocation_sound(st.free, size, align);
                let st1 = heap_step(st, op);
                assert(st1.free == rl && st1.live == st.live.push(r));
                assert(r.wf());
                assert forall|j: int|
                    0 <= j < st.live.len() implies (#[trigger] st.live[j]).end() <= r.addr
                    || r.end() <= st.live[j].addr by {
                    let l = st.live[j];
                    if !(l.end() <= r.addr || r.end() <= l.addr) {
                        let x = if l.addr >= r.addr {
                            l.addr
                        } else {
                            r.addr
                        };
                        assert(l.addr <= x < l.end() && r.addr <= x < r.end());
                        assert(in_free(st.free, x));
                        let m = choose|m: int|
                            0 <= m < st.free.len() && (#[trigger] st.free[m]).addr <= x
                                < st.free[m].end();
                        assert(region_disjoint(l.addr, adjusted_size(l.size), st.free[m]));
                        assert(false);
                    }
                }
                assert forall|j: int, i: int|
                    0 <= j < st1.live.len() && 0 <= i < st1.free.len() implies region_disjoint(
                    (#[trigger] st1.live[j]).addr,
                    adjusted_size(st1.live[j].size),
                    #[trigger] st1.free[i],
                ) by {
                    let l = st1.live[j];
                    let b = st1.free[i];
                    if !region_disjoint(l.addr, adjusted_size(l.size), b) {
                        assert(b.wf());
                        assert(l.wf());
                        let x = if l.addr >= b.addr {
                            l.addr
                        } else {
                            b.addr as int
                        };
                        assert(b.addr <= x < b.end() && l.addr <= x < l.end());
                        assert(in_free(rl, x));
                        assert(in_free(st.free, x) && !(p <= x < p + adj));
                        if j < st.live.len() {
                            assert(l == st.live[j]);
                            let m = choose|m: int|
                                0 <= m < st.free.len() && (#[trigger] st.free[m]).addr <= x
                                    < st.free[m].end();
                            assert(region_disjoint(l.addr, adjusted_size(l.size), st.free[m]));
                        } else {
                            assert(l == r);
                        }
                        assert(false);
                    }
                }
            }
        },
        HeapOp::Deallocate { index } => {
            if 0 <= index < st.live.len() {
                let r = st.live[index];
                let adj = adjusted_size(r.size);
                lemma_adjusted_size(r.size);
                lemma_align_addr(r.addr, NODE_ALIGN as int);
                let b = ListNode { addr: r.addr as usize, size: adj as usize };
                let st1 = heap_step(st, op);
                assert(st1.free =~= seq![b] + st.free);
                assert(b.wf());
                assert(forall|j: int|
                    0 <= j < st1.live.len() ==> #[trigger] st1.live[j] == st.live[if j < index {
                        j
                    } else {
                        j + 1
                    }]);
                assert forall|i: int, k: int|
                    0 <= i < st1.free.len() && 0 <= k < st1.free.len() && i != k
                    implies nodes_disjoint(#[trigger] st1.free[i], #[trigger] st1.free[k]) by {
                    if i != 0 && k != 0 {
                        assert(st1.free[i] == st.free[i - 1] && st1.free[k] == st.free[k - 1]);
                    } else if i == 0 {
                        assert(st1.free[k] == st.free[k - 1]);
                        assert(region_disjoint(r.addr, adj, st.free[k - 1]));
                    } else {
                        assert(st1.free[i] == st.free[i - 1]);
                        assert(region_disjoint(r.addr, adj, st.free[i - 1]));
                    }
                }
                assert forall|j: int, i: int|
                    0 <= j < st1.live.len() && 0 <= i < st1.free.len() implies region_disjoint(
                    (#[trigger] st1.live[j]).addr,
                    adjusted_size(st1.live[j].size),
                    #[trigger] st1.free[i],
                ) by {
                    let jo: int = if j < index {
                        j
                    } else {
                        j + 1
                    };
                    assert(st1.live[j] == st.live[jo]);
                    if i == 0 {
                        assert(st1.free[0] == b);
                        assert(st.live[jo].end() <= r.addr || r.end() <= st.live[jo].addr);
                    } else {
                        assert(st1.free[i] == st.free[i - 1]);
                    }
                }
            }
        },
    }
}

pub proof fn lemma_heap_run_inv(st: HeapState, ops: Seq<HeapOp>)
    requires
        heap_inv(st),
    ensures
        heap_inv(heap_run(st, ops)),
    decreases ops.len(),
{
    if ops.len() > 0 {
        lemma_heap_step_inv(st, ops[0]);
        lemma_heap_run_inv(heap_step(st, ops[0]), ops.drop_first());
    }
}

/// Law: over any sequence of interleaved allocate and deallocate calls on a
/// well-formed heap, no allocation is served a region smaller than its
/// requested size, and no two allocations held at the same time overlap.
pub proof fn lemma_interleaved_allocations_disjoint(
    st: HeapState,
    ops: Seq<HeapOp>,
    j: int,
    k: int,
)
    requires
        heap_inv(st),
        0 <= j < heap_run(st, ops).live.len(),
        0 <= k < heap_run(st, ops).live.len(),
        j != k,
    ensures
        ({
            let a = heap_run(st, ops).live[j];
            let b = heap_run(st, ops).live[k];
            &&& a.size <= a.end() - a.addr
            &&& a.addr + a.size <= b.addr || b.addr + b.size <= a.addr
        }),
{
    lemma_heap_run_inv(st, ops);
    let a = heap_run(st, ops).live[j];
    let b = heap_run(st, ops).live[k];
    lemma_adjusted_size(a.size);
    lemma_adjusted_size(b.size);
    assert(a.end() <= b.addr || b.end() <= a.addr);
}

} // verus!
