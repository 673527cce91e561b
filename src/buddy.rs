//! A buddy-block heap allocator.
//!
//! The heap splits and merges power-of-two blocks across an array of free
//! lists indexed by order: order `k` holds blocks of `min_block_size << k`
//! bytes. Every block starts at an address aligned to its own size, so two
//! blocks of one order are buddies when their addresses differ only in the
//! bit of that size.
use vstd::prelude::*;
use vstd::arithmetic::div_mod::{lemma_fundamental_div_mod, lemma_mod_multiples_basic};
use crate::frame::{frame_ok, AllocErr, Frame, FrameAllocator};
use crate::list::List;
use crate::log2::{
    is_pow2, is_power_of_two, lemma_divides_trans, lemma_pow2_divides, lemma_pow2_pos, lemma_pow2_split, lemma_pow2_strict,
    lemma_pow2_gt, lemma_round_up_is_pow2, next_power_of_two, pow2, round_up_pow2, Log2,
};

verus! {

/// A free block header: the address and size of a block of the heap that
/// is not allocated.
#[derive(Clone, Copy, Debug, PartialEq, Eq, Structural)]
pub struct FreeBlock {
    /// The address of the block.
    pub addr: usize,
    /// The size of the block (in bytes).
    pub size: usize,
}

/// The sum of the integers in `s`.
pub open spec fn sum(s: Seq<int>) -> int
    decreases s.len(),
{
    if s.len() == 0 {
        0
    } else {
        sum(s.drop_last()) + s.last()
    }
}

/// The number of bytes in the blocks of `blocks`.
pub open spec fn list_bytes(blocks: Seq<FreeBlock>) -> int {
    sum(blocks.map_values(|b: FreeBlock| b.size as int))
}

/// The number of bytes in the blocks of all the lists of `lists`.
pub open spec fn free_bytes(lists: Seq<Seq<FreeBlock>>) -> int {
    sum(lists.map_values(|l: Seq<FreeBlock>| list_bytes(l)))
}

/// The number of bytes in the allocated blocks `held`, given as
/// `(address, size)` pairs.
pub open spec fn held_bytes(held: Seq<(int, int)>) -> int {
    sum(held.map_values(|b: (int, int)| b.1))
}

pub proof fn lemma_sum_push(s: Seq<int>, x: int)
    ensures
        sum(s.push(x)) == sum(s) + x,
{
    assert(s.push(x).drop_last() =~= s);
}

/// A sum of zeros is zero.
pub proof fn lemma_sum_zero(s: Seq<int>)
    requires
        forall|i: int| 0 <= i < s.len() ==> s[i] == 0,
    ensures
        sum(s) == 0,
    decreases s.len(),
{
    if s.len() > 0 {
        lemma_sum_zero(s.drop_last());
    }
}

pub proof fn lemma_sum_update(s: Seq<int>, i: int, x: int)
    requires
        0 <= i < s.len(),
    ensures
        sum(s.update(i, x)) == sum(s) - s[i] + x,
    decreases s.len(),
{
    if i == s.len() - 1 {
        assert(s.update(i, x).drop_last() =~= s.drop_last());
    } else {
        lemma_sum_update(s.drop_last(), i, x);
        assert(s.update(i, x).drop_last() =~= s.drop_last().update(i, x));
    }
}

pub proof fn lemma_sum_remove(s: Seq<int>, i: int)
    requires
        0 <= i < s.len(),
    ensures
        sum(s.remove(i)) == sum(s) - s[i],
    decreases s.len(),
{
    if i == s.len() - 1 {
        assert(s.remove(i) =~= s.drop_last());
    } else {
        lemma_sum_remove(s.drop_last(), i);
        assert(s.remove(i).drop_last() =~= s.drop_last().remove(i));
    }
}

pub proof fn lemma_sum_prepend(x: int, s: Seq<int>)
    ensures
        sum(seq![x] + s) == x + sum(s),
    decreases s.len(),
{
    if s.len() > 0 {
        lemma_sum_prepend(x, s.drop_last());
        assert((seq![x] + s).drop_last() =~= seq![x] + s.drop_last());
        assert((seq![x] + s).last() == s.last());
    } else {
        assert(seq![x] + s =~= seq![x]);
        assert(seq![x].drop_last() =~= Seq::<int>::empty());
        assert(sum(seq![x]) == sum(Seq::<int>::empty()) + x);
    }
}

/// A sum of non-negative integers is non-negative.
pub proof fn lemma_sum_nonneg(s: Seq<int>)
    requires
        forall|i: int| 0 <= i < s.len() ==> s[i] >= 0,
    ensures
        sum(s) >= 0,
    decreases s.len(),
{
    if s.len() > 0 {
        lemma_sum_nonneg(s.drop_last());
    }
}

pub proof fn lemma_free_bytes_nonneg(fv: Seq<Seq<FreeBlock>>)
    ensures
        free_bytes(fv) >= 0,
{
    let f = |l: Seq<FreeBlock>| list_bytes(l);
    let g = |b: FreeBlock| b.size as int;
    assert forall|j: int| 0 <= j < fv.len() implies fv.map_values(f)[j] >= 0 by {
        lemma_sum_nonneg(fv[j].map_values(g));
    }
    lemma_sum_nonneg(fv.map_values(f));
}

pub proof fn lemma_held_bytes_nonneg(h: Seq<(int, int)>)
    requires
        forall|j: int| 0 <= j < h.len() ==> h[j].1 >= 0,
    ensures
        held_bytes(h) >= 0,
{
    lemma_sum_nonneg(h.map_values(|b: (int, int)| b.1));
}

pub proof fn lemma_free_update(v: Seq<Seq<FreeBlock>>, o: int, t: Seq<FreeBlock>)
    requires
        0 <= o < v.len(),
    ensures
        free_bytes(v.update(o, t)) == free_bytes(v) - list_bytes(v[o]) + list_bytes(t),
{
    let f = |l: Seq<FreeBlock>| list_bytes(l);
    assert(v.update(o, t).map_values(f) =~= v.map_values(f).update(o, list_bytes(t)));
    lemma_sum_update(v.map_values(f), o, list_bytes(t));
}

pub proof fn lemma_list_prepend(b: FreeBlock, l: Seq<FreeBlock>)
    ensures
        list_bytes(seq![b] + l) == b.size + list_bytes(l),
{
    let g = |b: FreeBlock| b.size as int;
    assert((seq![b] + l).map_values(g) =~= seq![b.size as int] + l.map_values(g));
    lemma_sum_prepend(b.size as int, l.map_values(g));
}

pub proof fn lemma_list_remove(l: Seq<FreeBlock>, i: int)
    requires
        0 <= i < l.len(),
    ensures
        list_bytes(l.remove(i)) == list_bytes(l) - l[i].size,
{
    let g = |b: FreeBlock| b.size as int;
    assert(l.remove(i).map_values(g) =~= l.map_values(g).remove(i));
    lemma_sum_remove(l.map_values(g), i);
}

pub proof fn lemma_held_push(h: Seq<(int, int)>, x: (int, int))
    ensures
        held_bytes(h.push(x)) == held_bytes(h) + x.1,
{
    let g = |b: (int, int)| b.1;
    assert(h.push(x).map_values(g) =~= h.map_values(g).push(x.1));
    lemma_sum_push(h.map_values(g), x.1);
}

pub proof fn lemma_held_remove(h: Seq<(int, int)>, i: int)
    requires
        0 <= i < h.len(),
    ensures
        held_bytes(h.remove(i)) == held_bytes(h) - h[i].1,
{
    let g = |b: (int, int)| b.1;
    assert(h.remove(i).map_values(g) =~= h.map_values(g).remove(i));
    lemma_sum_remove(h.map_values(g), i);
}

/// The size of a block of order `order` in a heap whose smallest block is
/// `pow2(min_log2)` bytes.
pub open spec fn order_size(min_log2: nat, order: nat) -> nat {
    pow2(min_log2 + order)
}

/// The rounded size of a request: the least power of two that is at least
/// the requested size, the requested alignment and the smallest block.
pub open spec fn request_size(size: nat, align: nat, min_block: nat) -> nat {
    let m = if size >= align { size } else { align };
    let m = if m >= min_block { m } else { min_block };
    round_up_pow2(m)
}

/// The address of the buddy of the block of `size` bytes at `addr`: the
/// block of the same size whose address differs only in the bit of `size`.
pub open spec fn buddy_of(addr: int, size: int) -> int {
    if (addr / size) % 2 == 0 {
        addr + size
    } else {
        addr - size
    }
}

/// The largest value a `usize` can hold, plus one, is a power of two.
proof fn lemma_usize_bound() -> (w: nat)
    ensures
        usize::MAX + 1 == pow2(w),
{
    reveal_with_fuel(pow2, 65);
    if usize::MAX == 0xffff_ffff {
        32
    } else {
        64
    }
}

/// A block aligned to its size lies inside the address space.
pub proof fn lemma_aligned_fits(a: int, k: nat)
    requires
        0 <= a <= usize::MAX,
        pow2(k) <= usize::MAX,
        a % (pow2(k) as int) == 0,
    ensures
        a + pow2(k) <= usize::MAX + 1,
{
    let w = lemma_usize_bound();
    let s = pow2(k) as int;
    lemma_pow2_pos(k);
    if k >= w {
        if k > w {
            lemma_pow2_strict(w, k);
        }
    }
    assert(k < w);
    lemma_pow2_split(k, w);
    let m = pow2((w - k) as nat) as int;
    lemma_fundamental_div_mod(a, s);
    let q = a / s;
    assert(a == s * q);
    assert(q + 1 <= m) by (nonlinear_arith)
        requires
            a == s * q,
            a < s * m,
            s > 0,
    ;
    assert(a + s <= s * m) by (nonlinear_arith)
        requires
            a == s * q,
            q + 1 <= m,
            s > 0,
    ;
}

/// The buddy of an aligned block is an aligned block of the same size
/// beside it, the two merge into a block aligned to twice the size, and
/// the buddy of the buddy is the block itself.
pub proof fn lemma_buddy(a: int, k: nat)
    requires
        0 <= a <= usize::MAX,
        pow2(k) <= usize::MAX,
        a % (pow2(k) as int) == 0,
    ensures
        ({
            let s = pow2(k) as int;
            let b = buddy_of(a, s);
            &&& 0 <= b <= usize::MAX
            &&& b % s == 0
            &&& (b == a + s || b == a - s)
            &&& buddy_of(b, s) == a
            &&& (if a < b { a } else { b }) % (2 * s) == 0
        }),
{
    let s = pow2(k) as int;
    lemma_pow2_pos(k);
    assert(pow2(k + 1) == 2 * pow2(k));
    lemma_fundamental_div_mod(a, s);
    let q = a / s;
    assert(a == s * q);
    let b = buddy_of(a, s);
    lemma_fundamental_div_mod(q, 2);
    let h = q / 2;
    if q % 2 == 0 {
        assert(b == a + s);
        assert(a == (2 * s) * h) by (nonlinear_arith)
            requires
                a == s * q,
                q == 2 * h,
        ;
        lemma_mod_multiples_basic(h, 2 * s);
        assert(a % (2 * s) == 0) by {
            assert(h * (2 * s) == (2 * s) * h) by (nonlinear_arith);
        }
        lemma_aligned_fits(a, k);
        if a + s == usize::MAX + 1 {
            let w = lemma_usize_bound();
            if k >= w {
                if k > w {
                    lemma_pow2_strict(w, k);
                }
            }
            lemma_pow2_split(k + 1, w);
            let m = pow2((w - (k + 1)) as nat) as int;
            assert(a + s == (2 * s) * m);
            assert(false) by (nonlinear_arith)
                requires
                    s > 0,
                    a == (2 * s) * h,
                    a + s == (2 * s) * m,
            ;
        }
        assert(b == s * (q + 1)) by (nonlinear_arith)
            requires
                a == s * q,
                b == a + s,
        ;
        assert(b / s == q + 1) by (nonlinear_arith)
            requires
                b == s * (q + 1),
                s > 0,
        ;
        lemma_mod_multiples_basic(q + 1, s);
        assert(b % s == 0) by {
            assert((q + 1) * s == s * (q + 1)) by (nonlinear_arith);
        }
    } else {
        assert(b == a - s);
        assert(q >= 1);
        assert(b == s * (q - 1)) by (nonlinear_arith)
            requires
                a == s * q,
                b == a - s,
        ;
        assert(b >= 0) by (nonlinear_arith)
            requires
                b == s * (q - 1),
                q >= 1,
                s > 0,
        ;
        assert(b / s == q - 1) by (nonlinear_arith)
            requires
                b == s * (q - 1),
                s > 0,
        ;
        lemma_mod_multiples_basic(q - 1, s);
        assert(b % s == 0) by {
            assert((q - 1) * s == s * (q - 1)) by (nonlinear_arith);
        }
        assert(b == (2 * s) * h) by (nonlinear_arith)
            requires
                b == s * (q - 1),
                q == 2 * h + 1,
        ;
        lemma_mod_multiples_basic(h, 2 * s);
        assert(b % (2 * s) == 0) by {
            assert(h * (2 * s) == (2 * s) * h) by (nonlinear_arith);
        }
    }
}

/// The free lists `fv` after the first block of order `k`, at `addr`, is
/// taken and split down to order `m`: each split keeps the lower half, and
/// the upper half joins the front of the free list of its order.
pub open spec fn split_view(fv: Seq<Seq<FreeBlock>>, k: int, m: int, addr: int, min_log2: nat) -> Seq<Seq<FreeBlock>> {
    Seq::new(
        fv.len(),
        |j: int|
            if j == k {
                fv[k].drop_first()
            } else if m <= j < k {
                seq![FreeBlock { addr: (addr + order_size(min_log2, j as nat)) as usize, size: order_size(min_log2, j as nat) as usize }]
                    + fv[j]
            } else {
                fv[j]
            },
    )
}

/// The free block of `size` bytes at `base`.
pub open spec fn whole_block(base: usize, size: nat) -> FreeBlock {
    FreeBlock { addr: base, size: size as usize }
}

/// The free lists `fv` after the frame of `size` bytes at `base` joins the
/// front of the free list of order `order`, with empty lists added for the
/// new orders up to `len` lists in all.
pub open spec fn with_frame(fv: Seq<Seq<FreeBlock>>, order: int, base: usize, size: nat, len: nat) -> Seq<Seq<FreeBlock>> {
    Seq::new(
        len,
        |k: int|
            if k < fv.len() {
                if k == order {
                    seq![whole_block(base, size)] + fv[k]
                } else {
                    fv[k]
                }
            } else {
                Seq::<FreeBlock>::empty()
            },
    )
}

/// A heap can be made with a smallest block of `min_block_size` bytes over
/// frames of `frame_size` bytes.
pub open spec fn config_ok(min_block_size: nat, frame_size: nat) -> bool {
    is_pow2(min_block_size as int) && is_pow2(frame_size as int) && min_block_size <= frame_size
}

/// `k` is the lowest order at or above `m` whose free list holds a block.
pub open spec fn first_free(fv: Seq<Seq<FreeBlock>>, m: int, k: int) -> bool {
    &&& m <= k < fv.len()
    &&& fv[k].len() > 0
    &&& forall|j: int| m <= j < k ==> (#[trigger] fv[j]).len() == 0
}

/// Both halves of an aligned block are aligned blocks inside the address
/// space.
proof fn lemma_halves(a: int, k: nat)
    requires
        0 <= a <= usize::MAX,
        pow2(k + 1) <= usize::MAX,
        a % (pow2(k + 1) as int) == 0,
    ensures
        a % (pow2(k) as int) == 0,
        (a + pow2(k)) % (pow2(k) as int) == 0,
        a + pow2(k + 1) <= usize::MAX + 1,
        pow2(k + 1) == 2 * pow2(k),
{
    let s = pow2(k) as int;
    lemma_pow2_pos(k);
    assert(pow2(k + 1) == 2 * pow2(k));
    lemma_aligned_fits(a, k + 1);
    lemma_mod_multiples_basic(2, s);
    assert((2 * s) % s == 0) by {
        assert(2 * s == s * 2);
    }
    lemma_divides_trans(a, 2 * s, s);
    lemma_fundamental_div_mod(a, s);
    let q = a / s;
    assert(a + s == (q + 1) * s) by (nonlinear_arith)
        requires
            a == s * q,
    ;
    lemma_mod_multiples_basic(q + 1, s);
}

/// The position of the first free block at `addr` in `blocks`.
pub open spec fn first_at(blocks: Seq<FreeBlock>, addr: int) -> int {
    choose|i: int|
        0 <= i < blocks.len() && blocks[i].addr == addr && forall|j: int| 0 <= j < i ==> (#[trigger] blocks[j]).addr != addr
}

/// Some free block in `blocks` is at `addr`.
pub open spec fn has_block_at(blocks: Seq<FreeBlock>, addr: int) -> bool {
    exists|i: int| 0 <= i < blocks.len() && (#[trigger] blocks[i]).addr == addr
}

/// The free lists `fv` after the block of order `order` at `addr` is
/// freed: while the block is below the largest order and its buddy is free,
/// the buddy leaves its free list and the two merge into the block of the
/// next order at the lower address; the final block joins the front of the
/// free list of its order.
pub open spec fn freed(fv: Seq<Seq<FreeBlock>>, addr: int, order: nat, min_log2: nat) -> Seq<Seq<FreeBlock>>
    decreases fv.len() - order,
{
    let size = order_size(min_log2, order) as int;
    let b = buddy_of(addr, size);
    if order + 1 < fv.len() && has_block_at(fv[order as int], b) {
        let i = first_at(fv[order as int], b);
        freed(
            fv.update(order as int, fv[order as int].remove(i)),
            if addr < b { addr } else { b },
            order + 1,
            min_log2,
        )
    } else {
        fv.update(order as int, seq![FreeBlock { addr: addr as usize, size: size as usize }] + fv[order as int])
    }
}

/// `e`, as `(address, size)`, is an aligned block of some order up to
/// `top`.
pub open spec fn held_ok(e: (int, int), min_log2: nat, top: nat) -> bool {
    exists|o: nat| o <= top && e.1 == order_size(min_log2, o) && 0 <= e.0 <= usize::MAX && e.0 % e.1 == 0
}

/// A buddy-block allocator over frames from the provider `F`.
pub struct Heap<F: FrameAllocator> {
    /// The heap's minimum block size.
    min_block_size: usize,
    /// The order of a block that is a whole frame.
    frame_order: usize,
    /// Log base 2 of the minimum block size, cached to avoid re-calculating.
    min_block_size_log2: usize,
    /// The number of bytes of all the frames that back the heap.
    heap_size: usize,
    /// The free lists, indexed by order; the largest order holds whole
    /// frames.
    free_lists: Vec<List<FreeBlock>>,
    /// The underlying frame provider.
    frames: F,
    /// The blocks handed out and not yet given back, as `(address, size)`.
    held: Ghost<Seq<(int, int)>>,
}

/// `b` is a block of order `order`: it has that order's size, and starts at
/// an address aligned to it.
pub open spec fn block_ok(b: FreeBlock, min_log2: nat, order: nat) -> bool {
    &&& b.size == order_size(min_log2, order)
    &&& b.addr as int % b.size as int == 0
}

impl<F: FrameAllocator> Heap<F> {
    /// Log base 2 of the smallest block size.
    pub closed spec fn min_log2(&self) -> nat {
        self.min_block_size_log2 as nat
    }

    /// The largest order: that of the largest power of two no larger
    /// than the heap.
    pub closed spec fn top_order(&self) -> nat {
        (self.free_lists@.len() - 1) as nat
    }

    /// The order of a block that is a whole frame.
    pub closed spec fn frame_order(&self) -> nat {
        self.frame_order as nat
    }

    /// The number of bytes of all the frames that back the heap.
    pub closed spec fn spec_heap_size(&self) -> nat {
        self.heap_size as nat
    }

    /// The free blocks, list by list, from order 0 up.
    pub closed spec fn free_view(&self) -> Seq<Seq<FreeBlock>> {
        Seq::new(self.free_lists@.len(), |o: int| self.free_lists@[o]@)
    }

    /// The blocks handed out and not yet given back, as `(address, size)`.
    pub closed spec fn held(&self) -> Seq<(int, int)> {
        self.held@
    }

    /// The smallest block size.
    pub open spec fn spec_min_block_size(&self) -> nat {
        pow2(self.min_log2())
    }

    /// What `block_size` answers for a request of `size` bytes aligned to
    /// `align`.
    pub open spec fn spec_block_size(&self, size: nat, align: nat) -> Result<nat, AllocErr> {
        let frame = F::spec_frame_size();
        let rounded = request_size(size, align, self.spec_min_block_size());
        if !is_pow2(align as int) || align > frame {
            Err(AllocErr::UnsupportedAlignment)
        } else if rounded > self.spec_heap_size() {
            Err(AllocErr::UnsupportedSize)
        } else {
            Ok(rounded)
        }
    }

    /// What `get_buddy` answers for the block of order `order` at `addr`.
    pub open spec fn spec_buddy(&self, addr: int, order: nat) -> Option<int> {
        if order_size(self.min_log2(), order) == self.spec_heap_size() {
            None
        } else {
            Some(buddy_of(addr, order_size(self.min_log2(), order) as int))
        }
    }

    /// The heap's invariant: its shape holds, and the free and handed-out
    /// bytes add up to the size of the heap.
    pub closed spec fn wf(&self) -> bool {
        &&& self.shape()
        &&& free_bytes(self.free_view()) + held_bytes(self.held@) == self.heap_size
    }

    /// Every free list is well formed and holds only aligned blocks of its
    /// order, and every block handed out is an aligned block of some order.
    pub closed spec fn shape(&self) -> bool {
        let min_log2 = self.min_block_size_log2 as nat;
        let top = self.top_order();
        &&& self.min_block_size == pow2(min_log2)
        &&& self.free_lists@.len() >= 1
        &&& self.frame_order <= top
        &&& order_size(min_log2, top) <= self.heap_size < order_size(min_log2, top + 1)
        &&& F::spec_frame_size() == order_size(min_log2, self.frame_order as nat)
        &&& F::spec_frame_size() <= usize::MAX
        &&& self.frames.inv()
        &&& F::spec_frame_size() <= self.heap_size
        &&& forall|o: int| 0 <= o < self.free_lists@.len() ==> (#[trigger] self.free_lists@[o]).wf()
        &&& forall|o: int, i: int|
            0 <= o < self.free_lists@.len() && 0 <= i < self.free_lists@[o]@.len() ==> block_ok(
                #[trigger] self.free_lists@[o]@[i],
                min_log2,
                o as nat,
            )
        &&& self.free_lists@.len() <= usize::MAX
        &&& forall|j: int| 0 <= j < self.held@.len() ==> held_ok(#[trigger] self.held@[j], min_log2, top)
    }

    /// The smallest block size.
    pub fn min_block_size(&self) -> (r: usize)
        requires
            self.wf(),
        ensures
            r == self.spec_min_block_size(),
    {
        self.min_block_size
    }

    /// The number of bytes of all the frames that back the heap.
    pub fn heap_size(&self) -> (r: usize)
        ensures
            r == self.spec_heap_size(),
    {
        self.heap_size
    }

    /// The number of orders, one free list each.
    pub fn orders(&self) -> (r: usize)
        requires
            self.wf(),
        ensures
            r == self.top_order() + 1,
            r == self.free_view().len(),
    {
        self.free_lists.len()
    }

    /// The number of free blocks of order `order`.
    pub fn free_list_len(&self, order: usize) -> (r: usize)
        requires
            self.wf(),
            order <= self.top_order(),
        ensures
            r == self.free_view()[order as int].len(),
    {
        self.free_lists[order].len()
    }

    /// Computes the size of an allocation request: the request rounded up
    /// to the smallest block size and then to a power of two.
    pub fn block_size(&self, size: usize, align: usize) -> (r: Result<usize, AllocErr>)
        requires
            self.wf(),
        ensures
            r matches Ok(s) ==> self.spec_block_size(size as nat, align as nat) == Ok::<nat, AllocErr>(s as nat),
            r matches Err(e) ==> self.spec_block_size(size as nat, align as nat) == Err::<nat, AllocErr>(e),
    {
        let frame = F::frame_size();
        // We cannot allocate layouts whose alignments are not powers of 2,
        // nor ones aligned beyond a frame.
        if !is_power_of_two(align) || align > frame {
            return Err(AllocErr::UnsupportedAlignment);
        }
        // The allocation's size must be at least as large as its
        // alignment, and as the heap's smallest block.
        let m = if size >= align { size } else { align };
        let m = if m >= self.min_block_size { m } else { self.min_block_size };
        match next_power_of_two(m) {
            Some(s) => {
                if s > self.heap_size {
                    Err(AllocErr::UnsupportedSize)
                } else {
                    Ok(s)
                }
            },
            None => Err(AllocErr::UnsupportedSize),
        }
    }

    /// The order of the free list for blocks of `size` bytes.
    fn order_from_size(&self, size: usize) -> (r: usize)
        requires
            self.wf(),
            is_pow2(size as int),
            self.min_block_size <= size <= self.heap_size,
        ensures
            order_size(self.min_log2(), r as nat) == size,
            r <= self.top_order(),
    {
        proof {
            lemma_pow2_pos(self.min_block_size_log2 as nat);
        }
        let l = size.log2();
        proof {
            let k = choose|k: nat| pow2(k) == size;
            let m = self.min_block_size_log2 as nat;
            let t = m + self.top_order();
            if k < l {
                lemma_pow2_strict(k, l as nat);
            }
            if k > l {
                if k > l + 1 {
                    lemma_pow2_strict(l as nat + 1, k);
                }
            }
            assert(k == l);
            if k < m {
                lemma_pow2_strict(k, m);
            }
            if k > t + 1 {
                lemma_pow2_strict(t + 1, k);
            }
        }
        l - self.min_block_size_log2
    }

    /// The size of the blocks of order `order`.
    fn size_of_order(&self, order: usize) -> (r: usize)
        requires
            self.shape(),
            order <= self.top_order(),
        ensures
            r == order_size(self.min_log2(), order as nat),
            r >= 1,
    {
        let ghost m = self.min_block_size_log2 as nat;
        let ghost t = m + self.top_order();
        let mut s = self.min_block_size;
        let mut k: usize = 0;
        while k < order
            invariant
                self.shape(),
                order <= self.top_order(),
                m == self.min_block_size_log2,
                t == m + self.top_order(),
                k <= order,
                s == pow2(m + k as nat),
            decreases order - k,
        {
            proof {
                let j = m + k as nat;
                assert(pow2(j + 1) == 2 * pow2(j));
                if j + 1 < t {
                    lemma_pow2_strict(j + 1, t);
                }
            }
            s = s * 2;
            k = k + 1;
        }
        proof {
            lemma_pow2_pos(m + k as nat);
        }
        s
    }

    /// Computes the order of the free list for an allocation request.
    pub fn block_order(&self, size: usize, align: usize) -> (r: Result<usize, AllocErr>)
        requires
            self.wf(),
        ensures
            r matches Ok(o) ==> o <= self.top_order() && self.spec_block_size(size as nat, align as nat)
                == Ok::<nat, AllocErr>(order_size(self.min_log2(), o as nat)),
            r matches Err(e) ==> self.spec_block_size(size as nat, align as nat) == Err::<nat, AllocErr>(e),
    {
        match self.block_size(size, align) {
            Ok(s) => {
                proof {
                    let m = if size >= align { size } else { align };
                    let m = if m >= self.min_block_size { m } else { self.min_block_size };
                    let j = lemma_round_up_is_pow2(m as nat);
                    if j > self.min_block_size_log2 {
                        lemma_pow2_strict(self.min_block_size_log2 as nat, j);
                    } else if j < self.min_block_size_log2 {
                        lemma_pow2_strict(j, self.min_block_size_log2 as nat);
                    }
                }
                Ok(self.order_from_size(s))
            },
            Err(e) => Err(e),
        }
    }

    /// Returns the buddy of the block of order `order` at `addr`: the
    /// block whose address differs from it only in the bit of its size. A
    /// block as large as the whole heap has none.
    pub fn get_buddy(&self, addr: usize, order: usize) -> (r: Option<usize>)
        requires
            self.wf(),
            order <= self.top_order(),
            addr as int % order_size(self.min_log2(), order as nat) as int == 0,
        ensures
            r matches Some(b) ==> self.spec_buddy(addr as int, order as nat) == Some(b as int),
            r is None ==> self.spec_buddy(addr as int, order as nat) is None,
    {
        self.buddy_at(addr, order)
    }

    fn buddy_at(&self, addr: usize, order: usize) -> (r: Option<usize>)
        requires
            self.shape(),
            order <= self.top_order(),
            addr as int % order_size(self.min_log2(), order as nat) as int == 0,
        ensures
            r matches Some(b) ==> self.spec_buddy(addr as int, order as nat) == Some(b as int),
            r is None ==> self.spec_buddy(addr as int, order as nat) is None,
    {
        let size = self.size_of_order(order);
        if size == self.heap_size {
            return None;
        }
        proof {
            let m = self.min_block_size_log2 as nat;
            let k = m + order as nat;
            lemma_buddy(addr as int, k);
        }
        let q = addr / size;
        if q % 2 == 0 {
            Some(addr + size)
        } else {
            Some(addr - size)
        }
    }
}

impl<F: FrameAllocator> Heap<F> {
    /// The shape of the heap does not depend on its provider's state, nor
    /// on its size once that covers a frame.
    proof fn lemma_reshape(&self, other: &Self)
        requires
            self.shape(),
            other.free_lists == self.free_lists,
            other.min_block_size == self.min_block_size,
            other.min_block_size_log2 == self.min_block_size_log2,
            forall|j: int| 0 <= j < other.held@.len() ==> held_ok(#[trigger] other.held@[j], other.min_block_size_log2 as nat, other.top_order()),
            other.frames.inv(),
            other.heap_size == self.heap_size,
            other.frame_order == self.frame_order,
        ensures
            other.shape(),
            other.free_view() == self.free_view(),
    {
        assert(self.top_order() == other.top_order());
        assert(forall|o: int| 0 <= o < other.free_lists@.len() ==> (#[trigger] other.free_lists@[o]).wf());
        assert(other.free_view() =~= self.free_view());
    }

    /// Pushes `block` onto the free list of order `order`.
    fn push_block(&mut self, block: FreeBlock, order: usize)
        requires
            old(self).shape(),
            order <= old(self).top_order(),
            block_ok(block, old(self).min_log2(), order as nat),
        ensures
            final(self).shape(),
            final(self).free_view() == old(self).free_view().update(
                order as int,
                seq![block] + old(self).free_view()[order as int],
            ),
            free_bytes(final(self).free_view()) == free_bytes(old(self).free_view()) + block.size,
            final(self).heap_size == old(self).heap_size,
            final(self).held == old(self).held,
            final(self).min_block_size == old(self).min_block_size,
            final(self).min_block_size_log2 == old(self).min_block_size_log2,
            final(self).free_lists@.len() == old(self).free_lists@.len(),
            final(self).frames == old(self).frames,
            final(self).frame_order == old(self).frame_order,
    {
        let ghost fv = self.free_view();
        proof {
            assert(self.free_lists@[order as int].wf());
        }
        self.free_lists[order].push_front_node(block);
        proof {
            let o = order as int;
            let l2 = seq![block] + fv[o];
            assert(self.free_view() =~= fv.update(o, l2));
            assert forall|q: int| 0 <= q < self.free_lists@.len() implies (#[trigger] self.free_lists@[q]).wf() by {
                if q != o {
                    assert(self.free_lists@[q] == old(self).free_lists@[q]);
                }
            }
            assert forall|q: int, i: int|
                0 <= q < self.free_lists@.len() && 0 <= i < self.free_lists@[q]@.len() implies block_ok(
                #[trigger] self.free_lists@[q]@[i],
                self.min_block_size_log2 as nat,
                q as nat,
            ) by {
                if q != o {
                    assert(self.free_lists@[q] == old(self).free_lists@[q]);
                } else if i > 0 {
                    assert(self.free_lists@[q]@[i] == old(self).free_lists@[q]@[i - 1]);
                }
            }
            lemma_free_update(fv, o, l2);
            lemma_list_prepend(block, fv[o]);
        }
    }

    /// Pops a block off the free list of order `order`, if it holds one.
    fn pop_block(&mut self, order: usize) -> (r: Option<FreeBlock>)
        requires
            old(self).shape(),
            order <= old(self).top_order(),
        ensures
            final(self).shape(),
            old(self).free_view()[order as int].len() == 0 ==> r is None && final(self).free_view()
                == old(self).free_view(),
            old(self).free_view()[order as int].len() > 0 ==> r == Some(old(self).free_view()[order as int][0])
                && final(self).free_view() == old(self).free_view().update(
                order as int,
                old(self).free_view()[order as int].drop_first(),
            ),
            r matches Some(b) ==> block_ok(b, old(self).min_log2(), order as nat) && free_bytes(
                final(self).free_view(),
            ) == free_bytes(old(self).free_view()) - b.size,
            final(self).heap_size == old(self).heap_size,
            final(self).held == old(self).held,
            final(self).min_block_size == old(self).min_block_size,
            final(self).min_block_size_log2 == old(self).min_block_size_log2,
            final(self).free_lists@.len() == old(self).free_lists@.len(),
            final(self).frames == old(self).frames,
            final(self).frame_order == old(self).frame_order,
    {
        let ghost fv = self.free_view();
        proof {
            assert(self.free_lists@[order as int].wf());
        }
        let r = self.free_lists[order].pop_front_node();
        proof {
            let o = order as int;
            if fv[o].len() > 0 {
                assert(block_ok(old(self).free_lists@[o]@[0], self.min_block_size_log2 as nat, order as nat));
                let l2 = fv[o].drop_first();
                assert(self.free_view() =~= fv.update(o, l2));
                lemma_free_update(fv, o, l2);
                lemma_list_remove(fv[o], 0);
                assert(fv[o].remove(0) =~= l2);
            } else {
                assert(self.free_view() =~= fv);
            }
            assert forall|q: int| 0 <= q < self.free_lists@.len() implies (#[trigger] self.free_lists@[q]).wf() by {
                if q != o {
                    assert(self.free_lists@[q] == old(self).free_lists@[q]);
                }
            }
            assert forall|q: int, i: int|
                0 <= q < self.free_lists@.len() && 0 <= i < self.free_lists@[q]@.len() implies block_ok(
                #[trigger] self.free_lists@[q]@[i],
                self.min_block_size_log2 as nat,
                q as nat,
            ) by {
                if q != o {
                    assert(self.free_lists@[q] == old(self).free_lists@[q]);
                } else {
                    assert(self.free_lists@[q]@[i] == old(self).free_lists@[q]@[i + 1]);
                }
            }
        }
        r
    }
}

impl<F: FrameAllocator> Heap<F> {
    /// Finds the first free block of order `order` at `addr` and unlinks it.
    fn take_free(&mut self, order: usize, addr: usize) -> (found: bool)
        requires
            old(self).shape(),
            order <= old(self).top_order(),
        ensures
            final(self).shape(),
            !found ==> final(self).free_view() == old(self).free_view() && forall|i: int|
                0 <= i < old(self).free_view()[order as int].len() ==> (#[trigger] old(self).free_view()[order as int][i]).addr
                    != addr,
            found ==> exists|i: int|
                0 <= i < old(self).free_view()[order as int].len() && old(self).free_view()[order as int][i].addr
                    == addr && (forall|j: int|
                    0 <= j < i ==> (#[trigger] old(self).free_view()[order as int][j]).addr != addr)
                    && final(self).free_view() == old(self).free_view().update(
                    order as int,
                    old(self).free_view()[order as int].remove(i),
                ) && free_bytes(final(self).free_view()) == free_bytes(old(self).free_view())
                    - old(self).free_view()[order as int][i].size,
            final(self).heap_size == old(self).heap_size,
            final(self).held == old(self).held,
            final(self).min_block_size == old(self).min_block_size,
            final(self).min_block_size_log2 == old(self).min_block_size_log2,
            final(self).free_lists@.len() == old(self).free_lists@.len(),
            final(self).frames == old(self).frames,
            final(self).frame_order == old(self).frame_order,
    {
        let ghost fv = self.free_view();
        proof {
            assert(self.free_lists@[order as int].wf());
        }
        let is_addr = |b: &FreeBlock| -> (hit: bool)
            ensures
                hit == (b.addr == addr),
            { b.addr == addr };
        let r = self.free_lists[order].remove_first_node(is_addr);
        proof {
            let o = order as int;
            assert(old(self).free_lists@[o]@ == fv[o]);
            assert forall|q: int| 0 <= q < self.free_lists@.len() implies (#[trigger] self.free_lists@[q]).wf() by {
                if q != o {
                    assert(self.free_lists@[q] == old(self).free_lists@[q]);
                }
            }
            match r {
                Some(_) => {
                    let i = choose|i: int|
                        0 <= i < fv[o].len() && r == Some(fv[o][i]) && is_addr.ensures((&fv[o][i],), true) && (forall|j: int|
                            0 <= j < i ==> is_addr.ensures((&fv[o][j],), false)) && self.free_lists@[o]@ == fv[o].remove(i);
                    assert(fv[o][i].addr == addr);
                    assert forall|j: int| 0 <= j < i implies (#[trigger] fv[o][j]).addr != addr by {
                        assert(is_addr.ensures((&fv[o][j],), false));
                    }
                    assert(self.free_view() =~= fv.update(o, fv[o].remove(i)));
                    lemma_free_update(fv, o, fv[o].remove(i));
                    lemma_list_remove(fv[o], i);
                    assert forall|q: int, k: int|
                        0 <= q < self.free_lists@.len() && 0 <= k < self.free_lists@[q]@.len() implies block_ok(
                        #[trigger] self.free_lists@[q]@[k],
                        self.min_block_size_log2 as nat,
                        q as nat,
                    ) by {
                        if q != o {
                            assert(self.free_lists@[q] == old(self).free_lists@[q]);
                        } else if k < i {
                            assert(self.free_lists@[q]@[k] == old(self).free_lists@[q]@[k]);
                        } else {
                            assert(self.free_lists@[q]@[k] == old(self).free_lists@[q]@[k + 1]);
                        }
                    }
                },
                None => {
                    assert(self.free_view() =~= fv);
                    assert forall|i: int| 0 <= i < fv[o].len() implies (#[trigger] fv[o][i]).addr != addr by {
                        assert(is_addr.ensures((&fv[o][i],), false));
                    }
                },
            }
        }
        r.is_some()
    }
}

impl<F: FrameAllocator> Heap<F> {
    /// Takes a free block of order `m`: the first block of the lowest
    /// non-empty order at or above `m`, split in half until it has order
    /// `m`. Returns its address.
    #[verifier::spinoff_prover]
    fn take_block(&mut self, m: usize) -> (r: Option<usize>)
        requires
            old(self).wf(),
            m <= old(self).top_order(),
        ensures
            final(self).wf(),
            r is None <==> forall|j: int| m <= j <= old(self).top_order() ==> (#[trigger] old(self).free_view()[j]).len() == 0,
            r is None ==> final(self).free_view() == old(self).free_view() && final(self).held() == old(self).held(),
            r matches Some(a) ==> exists|k: int|
                first_free(old(self).free_view(), m as int, k) && a == old(self).free_view()[k][0].addr
                    && final(self).free_view() == split_view(old(self).free_view(), k, m as int, a as int, old(self).min_log2())
                    && final(self).held() == old(self).held().push((a as int, order_size(old(self).min_log2(), m as nat) as int)),
            r matches Some(a) ==> a as int % order_size(old(self).min_log2(), m as nat) as int == 0,
            final(self).heap_size == old(self).heap_size,
            final(self).min_block_size == old(self).min_block_size,
            final(self).min_block_size_log2 == old(self).min_block_size_log2,
            final(self).free_lists@.len() == old(self).free_lists@.len(),
            final(self).frames == old(self).frames,
            final(self).frame_order == old(self).frame_order,
    {
        let ghost fv0 = self.free_view();
        let ghost ml = self.min_block_size_log2 as nat;
        let mut o = m;
        while o < self.free_lists.len()
            invariant
                *self == *old(self),
                self.wf(),
                fv0 == self.free_view(),
                ml == self.min_block_size_log2,
                m <= o <= self.free_lists@.len(),
                forall|j: int| m <= j < o ==> (#[trigger] fv0[j]).len() == 0,
            decreases self.free_lists@.len() - o,
        {
            proof {
                assert(self.free_lists@[o as int].wf());
                assert(fv0[o as int] == self.free_lists@[o as int]@);
            }
            if !self.free_lists[o].is_empty() {
                let block = self.pop_block(o).unwrap();
                let addr = block.addr;
                let mut size = block.size;
                let mut k = o;
                proof {
                    assert(split_view(fv0, o as int, k as int, addr as int, ml) =~= self.free_view());
                }
                while k > m
                    invariant
                        self.shape(),
                        m <= k <= o,
                        o <= self.top_order(),
                        ml == self.min_block_size_log2,
                        size == order_size(ml, k as nat),
                        addr as int % size as int == 0,
                        self.free_view() == split_view(fv0, o as int, k as int, addr as int, ml),
                        free_bytes(self.free_view()) + held_bytes(self.held@) + size == self.heap_size,
                        self.held == old(self).held,
                        self.heap_size == old(self).heap_size,
                        self.min_block_size == old(self).min_block_size,
                        self.min_block_size_log2 == old(self).min_block_size_log2,
                        self.free_lists@.len() == old(self).free_lists@.len(),
                        self.frames == old(self).frames,
                        self.frame_order == old(self).frame_order,
                        order_size(ml, self.top_order()) <= usize::MAX,
                    decreases k,
                {
                    proof {
                        let j = ml + (k - 1) as nat;
                        if j + 1 < ml + self.top_order() {
                            lemma_pow2_strict(j + 1, ml + self.top_order());
                        }
                        lemma_halves(addr as int, j);
                    }
                    k = k - 1;
                    let half = size / 2;
                    let ghost before = self.free_view();
                    self.push_block(FreeBlock { addr: addr + half, size: half }, k);
                    size = half;
                    proof {
                        assert(self.free_view() =~= split_view(fv0, o as int, k as int, addr as int, ml));
                    }
                }
                proof {
                    let held2 = self.held@.push((addr as int, size as int));
                    lemma_held_push(self.held@, (addr as int, size as int));
                    assert(first_free(fv0, m as int, o as int));
                    lemma_pow2_pos(ml);
                    if m < self.top_order() {
                        lemma_pow2_strict(ml + m as nat, ml + self.top_order());
                    }
                }
                let ghost mid = *self;
                self.held = Ghost(self.held@.push((addr as int, size as int)));
                proof {
                    assert forall|j: int| 0 <= j < self.held@.len() implies held_ok(#[trigger] self.held@[j], self.min_block_size_log2 as nat, self.top_order()) by {
                        if j < mid.held@.len() {
                            assert(self.held@[j] == mid.held@[j]);
                            assert(held_ok(mid.held@[j], mid.min_block_size_log2 as nat, mid.top_order()));
                        } else {
                            assert(self.held@[j] == (addr as int, size as int));
                            assert(order_size(ml, m as nat) == size);
                        }
                    }
                    mid.lemma_reshape(self);
                }
                return Some(addr);
            }
            o = o + 1;
        }
        None
    }
}

impl<F: FrameAllocator> Heap<F> {
    /// Adds `frame` to the heap: it joins the free list of the frame's
    /// order, the heap grows by one frame, and orders are added while the
    /// heap holds a block of the next order's size. Fails with `Exhausted`,
    /// changing nothing, where the heap's size would no longer fit a `usize`.
    pub fn add_frame(&mut self, frame: Frame) -> (r: Result<(), AllocErr>)
        requires
            old(self).wf(),
            frame_ok(frame.base, F::spec_frame_size()),
        ensures
            final(self).wf(),
            (r is Ok) <==> old(self).spec_heap_size() + F::spec_frame_size() <= usize::MAX,
            r is Ok ==> final(self).spec_heap_size() == old(self).spec_heap_size() + F::spec_frame_size()
                && final(self).free_view().len() >= old(self).free_view().len()
                && final(self).free_view() == with_frame(
                    old(self).free_view(),
                    old(self).frame_order() as int,
                    frame.base,
                    F::spec_frame_size(),
                    final(self).free_view().len(),
                ),
            r is Err ==> r == Err::<(), AllocErr>(AllocErr::Exhausted) && *final(self) == *old(self),
            final(self).held() == old(self).held(),
            final(self).min_log2() == old(self).min_log2(),
            final(self).frame_order() == old(self).frame_order(),
    {
        let frame_size = F::frame_size();
        if self.heap_size > usize::MAX - frame_size {
            return Err(AllocErr::Exhausted);
        }
        let ghost fv0 = self.free_view();
        let ghost ml = self.min_block_size_log2 as nat;
        let mut top_size = self.size_of_order(self.free_lists.len() - 1);
        proof {
            lemma_pow2_pos(ml + self.top_order());
        }
        let fo = self.frame_order;
        self.push_block(FreeBlock { addr: frame.base, size: frame_size }, fo);
        proof {
            assert(self.free_view() =~= with_frame(fv0, fo as int, frame.base, F::spec_frame_size(), fv0.len()));
        }
        self.heap_size = self.heap_size + frame_size;
        while top_size <= self.heap_size / 2
            invariant
                self.min_block_size == pow2(ml),
                ml == self.min_block_size_log2,
                1 <= fv0.len() <= self.free_lists@.len(),
                self.frame_order == fo,
                fo <= self.top_order(),
                F::spec_frame_size() == order_size(ml, fo as nat),
                F::spec_frame_size() <= self.heap_size,
                top_size == order_size(ml, self.top_order()),
                1 <= top_size <= self.heap_size,
                self.frames.inv(),
                self.heap_size == old(self).heap_size + frame_size,
                frame_size == F::spec_frame_size(),
                self.held == old(self).held,
                self.min_block_size == old(self).min_block_size,
                forall|o: int| 0 <= o < self.free_lists@.len() ==> (#[trigger] self.free_lists@[o]).wf(),
                forall|o: int, i: int|
                    0 <= o < self.free_lists@.len() && 0 <= i < self.free_lists@[o]@.len() ==> block_ok(
                        #[trigger] self.free_lists@[o]@[i],
                        ml,
                        o as nat,
                    ),
                forall|j: int| 0 <= j < self.held@.len() ==> held_ok(#[trigger] self.held@[j], ml, self.top_order()),
                self.free_view() == with_frame(fv0, fo as int, frame.base, F::spec_frame_size(), self.free_lists@.len() as nat),
                free_bytes(self.free_view()) == free_bytes(fv0) + frame_size,
            decreases self.heap_size - top_size,
        {
            let ghost before = self.free_view();
            let ghost pre = self.free_lists@;
            let ghost t0 = self.top_order();
            self.free_lists.push(List::new());
            top_size = top_size * 2;
            proof {
                assert(pow2(ml + t0 + 1) == 2 * pow2(ml + t0));
                assert(self.free_view() =~= before.push(Seq::<FreeBlock>::empty()));
                assert(self.free_view() =~= with_frame(fv0, fo as int, frame.base, F::spec_frame_size(), self.free_lists@.len() as nat));
                let g = |l: Seq<FreeBlock>| list_bytes(l);
                assert(self.free_view().map_values(g) =~= before.map_values(g).push(0)) by {
                    assert(Seq::<FreeBlock>::empty().map_values(|b: FreeBlock| b.size as int) =~= Seq::<int>::empty());
                }
                lemma_sum_push(before.map_values(g), 0);
                assert forall|j: int| 0 <= j < self.held@.len() implies held_ok(#[trigger] self.held@[j], ml, self.top_order()) by {
                    assert(held_ok(self.held@[j], ml, t0));
                }
                assert forall|o: int, i: int|
                    0 <= o < self.free_lists@.len() && 0 <= i < self.free_lists@[o]@.len() implies block_ok(
                    #[trigger] self.free_lists@[o]@[i],
                    ml,
                    o as nat,
                ) by {
                    assert(o < before.len());
                    assert(self.free_lists@[o] == pre[o]);
                }
            }
        }
        // A vector's length always fits a `usize`.
        let orders = self.free_lists.len();
        proof {
            let t = self.top_order();
            assert(self.free_lists@.len() == orders);
            assert(pow2(ml + t + 1) == 2 * pow2(ml + t));
            assert(top_size * 2 > self.heap_size);
            assert(self.heap_size < order_size(ml, t + 1));
            assert(self.free_lists@.len() <= usize::MAX);
            assert(F::spec_frame_size() <= usize::MAX);
            assert(order_size(ml, t) <= self.heap_size);
            assert(self.frame_order <= t);
            assert(self.shape());
            assert(free_bytes(fv0) + held_bytes(self.held@) == old(self).heap_size);
        }
        Ok(())
    }

    /// Requests a new frame from the frame provider and adds it to the
    /// heap. Where the heap cannot take the frame, it goes back to the
    /// provider.
    #[verifier::spinoff_prover]
    pub fn refill(&mut self) -> (r: Result<(), AllocErr>)
        requires
            old(self).wf(),
        ensures
            final(self).wf(),
            r is Ok ==> final(self).spec_heap_size() == old(self).spec_heap_size() + F::spec_frame_size()
                && final(self).free_view().len() >= old(self).free_view().len() && exists|base: usize|
                final(self).free_view() == #[trigger] with_frame(
                    old(self).free_view(),
                    old(self).frame_order() as int,
                    base,
                    F::spec_frame_size(),
                    final(self).free_view().len(),
                ),
            r is Err ==> r == Err::<(), AllocErr>(AllocErr::Exhausted) && final(self).free_view() == old(self).free_view()
                && final(self).spec_heap_size() == old(self).spec_heap_size(),
            final(self).held() == old(self).held(),
            final(self).min_log2() == old(self).min_log2(),
            final(self).frame_order() == old(self).frame_order(),
    {
        let ghost start = *self;
        let frame = match self.frames.allocate_frame() {
            Ok(f) => f,
            Err(e) => {
                proof {
                    assert forall|j: int| 0 <= j < self.held@.len() implies held_ok(#[trigger] self.held@[j], self.min_block_size_log2 as nat, self.top_order()) by {
                        assert(held_ok(start.held@[j], start.min_block_size_log2 as nat, start.top_order()));
                    }
                    start.lemma_reshape(self);
                }
                return Err(e);
            },
        };
        proof {
            assert forall|j: int| 0 <= j < self.held@.len() implies held_ok(#[trigger] self.held@[j], self.min_block_size_log2 as nat, self.top_order()) by {
                assert(held_ok(start.held@[j], start.min_block_size_log2 as nat, start.top_order()));
            }
            start.lemma_reshape(self);
        }
        let ghost mid = *self;
        match self.add_frame(frame) {
            Ok(()) => {
                assert(mid.free_view() == old(self).free_view());
                assert(mid.frame_order == old(self).frame_order);
                assert(self.free_view() == with_frame(
                    old(self).free_view(),
                    old(self).frame_order() as int,
                    frame.base,
                    F::spec_frame_size(),
                    self.free_view().len(),
                ));
                Ok(())
            },
            Err(e) => {
                let _ = self.frames.deallocate_frame(frame);
                proof {
                    assert forall|j: int| 0 <= j < self.held@.len() implies held_ok(#[trigger] self.held@[j], self.min_block_size_log2 as nat, self.top_order()) by {
                        assert(held_ok(mid.held@[j], mid.min_block_size_log2 as nat, mid.top_order()));
                    }
                    mid.lemma_reshape(self);
                }
                Err(e)
            },
        }
    }

    /// Tells whether a heap can be made with a smallest block of
    /// `min_block_size` bytes over the provider's frames.
    fn config_ok(min_block_size: usize) -> (r: bool)
        ensures
            r == config_ok(min_block_size as nat, F::spec_frame_size()),
    {
        let frame_size = F::frame_size();
        is_power_of_two(min_block_size) && is_power_of_two(frame_size) && min_block_size <= frame_size
    }

    /// A heap whose smallest block is `min_block_size` bytes, seeded with
    /// one frame from `frames`. Fails with `Unsupported` where no heap can
    /// have that smallest block over the provider's frames, and with the
    /// provider's error where it has no frame to give.
    pub fn new(min_block_size: usize, frames: F) -> (r: Result<Self, AllocErr>)
        requires
            frames.inv(),
        ensures
            (r == Err::<Self, AllocErr>(AllocErr::Unsupported)) <==> !config_ok(min_block_size as nat, F::spec_frame_size()),
            r is Err ==> r == Err::<Self, AllocErr>(AllocErr::Unsupported) || r == Err::<Self, AllocErr>(AllocErr::Exhausted),
            r matches Ok(h) ==> exists|base: usize| #[trigger] frame_ok(base, F::spec_frame_size()) && h.seeded(min_block_size as nat, base),
    {
        if !Self::config_ok(min_block_size) {
            return Err(AllocErr::Unsupported);
        }
        let mut frames = frames;
        match frames.allocate_frame() {
            Ok(frame) => Self::from_frame(min_block_size, frames, frame),
            Err(e) => Err(e),
        }
    }

    /// `self` is a fresh heap with smallest block `min_block_size`, made of
    /// the one frame at `base`: that frame is the one free block, of the
    /// largest order, and nothing is handed out.
    pub open spec fn seeded(&self, min_block_size: nat, base: usize) -> bool {
        &&& self.wf()
        &&& self.spec_min_block_size() == min_block_size
        &&& self.frame_order() == self.top_order()
        &&& order_size(self.min_log2(), self.top_order()) == F::spec_frame_size()
        &&& self.spec_heap_size() == F::spec_frame_size()
        &&& self.held().len() == 0
        &&& self.free_view() == Seq::new(
            self.top_order() + 1,
            |o: int|
                if o == self.top_order() {
                    seq![whole_block(base, F::spec_frame_size())]
                } else {
                    Seq::<FreeBlock>::empty()
                },
        )
    }

    /// A heap whose smallest block is `min_block_size` bytes, made of
    /// `frame`, a frame from `frames`. Fails with `Unsupported`, and only
    /// then, where no heap can have that smallest block over the provider's
    /// frames.
    #[verifier::spinoff_prover]
    pub fn from_frame(min_block_size: usize, frames: F, frame: Frame) -> (r: Result<Self, AllocErr>)
        requires
            frames.inv(),
            frame_ok(frame.base, F::spec_frame_size()),
        ensures
            r is Err <==> !config_ok(min_block_size as nat, F::spec_frame_size()),
            r is Err ==> r == Err::<Self, AllocErr>(AllocErr::Unsupported),
            r matches Ok(h) ==> h.seeded(min_block_size as nat, frame.base),
    {
        let frame_size = F::frame_size();
        if !Self::config_ok(min_block_size) {
            return Err(AllocErr::Unsupported);
        }
        proof {
            let k = choose|k: nat| pow2(k) == min_block_size;
            lemma_pow2_pos(k);
        }
        let min_log2 = min_block_size.log2();
        let frame_log2 = frame_size.log2();
        proof {
            let a = choose|k: nat| pow2(k) == min_block_size;
            let b = choose|k: nat| pow2(k) == frame_size;
            if a < min_log2 {
                lemma_pow2_strict(a, min_log2 as nat);
            }
            if a > min_log2 + 1 {
                lemma_pow2_strict(min_log2 as nat + 1, a);
            }
            assert(a == min_log2);
            if b < frame_log2 {
                lemma_pow2_strict(b, frame_log2 as nat);
            }
            if b > frame_log2 + 1 {
                lemma_pow2_strict(frame_log2 as nat + 1, b);
            }
            assert(b == frame_log2);
            if a > b {
                lemma_pow2_strict(b, a);
            }
            lemma_pow2_gt(b);
        }
        let top = frame_log2 - min_log2;
        let mut free_lists: Vec<List<FreeBlock>> = Vec::new();
        let mut i: usize = 0;
        while i <= top
            invariant
                i <= top + 1,
                top < usize::MAX,
                free_lists@.len() == i,
                forall|k: int| 0 <= k < i ==> (#[trigger] free_lists@[k]).wf() && free_lists@[k]@.len() == 0,
            decreases top + 1 - i,
        {
            free_lists.push(List::new());
            i = i + 1;
        }
        let mut heap = Heap {
            min_block_size,
            frame_order: top,
            min_block_size_log2: min_log2,
            heap_size: frame_size,
            free_lists,
            frames,
            held: Ghost(Seq::empty()),
        };
        proof {
            assert forall|k: int| 0 <= k < heap.free_lists@.len() implies heap.free_lists@[k]@ =~= Seq::<FreeBlock>::empty() by {
                assert(heap.free_lists@[k]@.len() == 0);
            }
            assert(heap.free_view() =~= Seq::new(heap.free_lists@.len(), |o: int| Seq::<FreeBlock>::empty()));
        }
        proof {
            assert(pow2(min_log2 as nat + top as nat + 1) == 2 * pow2(min_log2 as nat + top as nat));
        }
        heap.push_block(FreeBlock { addr: frame.base, size: frame_size }, top);
        proof {
            let fv = heap.free_view();
            let expected = Seq::new(
                heap.top_order() + 1,
                |o: int|
                    if o == heap.top_order() {
                        seq![whole_block(frame.base, F::spec_frame_size())]
                    } else {
                        Seq::<FreeBlock>::empty()
                    },
            );
            assert(fv =~= expected);
            let empties = Seq::new(heap.free_lists@.len(), |o: int| Seq::<FreeBlock>::empty());
            assert(free_bytes(empties) == 0) by {
                lemma_sum_zero(empties.map_values(|l: Seq<FreeBlock>| list_bytes(l)));
                assert forall|j: int| 0 <= j < empties.len() implies list_bytes(#[trigger] empties[j]) == 0 by {
                    assert(empties[j].map_values(|b: FreeBlock| b.size as int) =~= Seq::<int>::empty());
                }
            }
            assert(held_bytes(Seq::<(int, int)>::empty()) == 0) by {
                assert(Seq::<(int, int)>::empty().map_values(|b: (int, int)| b.1) =~= Seq::<int>::empty());
            }
        }
        Ok(heap)
    }
}

impl<F: FrameAllocator> Heap<F> {
    /// Allocates a block for a request of `size` bytes aligned to `align`,
    /// and returns its address.
    ///
    /// The block comes from the lowest non-empty free list at or above the
    /// request's order, split in half until it has that order. Where no
    /// free list there holds a block, the heap is refilled with one frame
    /// and the search runs once more; where that finds nothing either, the
    /// heap keeps the frame and the request fails with `Exhausted`.
    #[verifier::spinoff_prover]
    pub fn allocate(&mut self, size: usize, align: usize) -> (r: Result<usize, AllocErr>)
        requires
            old(self).wf(),
        ensures
            final(self).wf(),
            final(self).min_log2() == old(self).min_log2(),
            final(self).frame_order() == old(self).frame_order(),
            old(self).spec_block_size(size as nat, align as nat) matches Err(e) ==> r == Err::<usize, AllocErr>(e)
                && final(self).free_view() == old(self).free_view() && final(self).held() == old(self).held()
                && final(self).spec_heap_size() == old(self).spec_heap_size(),
            r matches Ok(a) ==> a as int % align as int == 0,
            r matches Ok(a) ==> exists|s: nat|
                old(self).spec_block_size(size as nat, align as nat) == Ok::<nat, AllocErr>(s) && a as int % s as int == 0
                    && final(self).held() == old(self).held().push((a as int, s as int)),
            forall|o: nat|
                o <= old(self).top_order() && old(self).spec_block_size(size as nat, align as nat) == Ok::<nat, AllocErr>(
                    #[trigger] order_size(old(self).min_log2(), o),
                ) ==> {
                    &&& (exists|k: int| first_free(old(self).free_view(), o as int, k)) ==> (r matches Ok(a) && exists|k: int|
                        first_free(old(self).free_view(), o as int, k) && a == old(self).free_view()[k][0].addr
                            && final(self).free_view() == split_view(old(self).free_view(), k, o as int, a as int, old(self).min_log2())
                            && final(self).spec_heap_size() == old(self).spec_heap_size())
                    &&& r is Err ==> r == Err::<usize, AllocErr>(AllocErr::Exhausted)
                        && (forall|k: int| o <= k <= old(self).top_order() ==> (#[trigger] old(self).free_view()[k]).len() == 0)
                        && final(self).held() == old(self).held()
                        && ((final(self).free_view() == old(self).free_view() && final(self).spec_heap_size() == old(self).spec_heap_size())
                        || (final(self).spec_heap_size() == old(self).spec_heap_size() + F::spec_frame_size() && exists|base: usize|
                            final(self).free_view() == #[trigger] with_frame(
                                old(self).free_view(),
                                old(self).frame_order() as int,
                                base,
                                F::spec_frame_size(),
                                final(self).free_view().len(),
                            )))
                    &&& ((forall|k: int| o <= k <= old(self).top_order() ==> (#[trigger] old(self).free_view()[k]).len() == 0) && r is Ok)
                        ==> final(self).spec_heap_size() == old(self).spec_heap_size() + F::spec_frame_size() && exists|base: usize|
                        final(self).free_view() == split_view(
                            #[trigger] with_frame(
                                old(self).free_view(),
                                old(self).frame_order() as int,
                                base,
                                F::spec_frame_size(),
                                final(self).free_view().len(),
                            ),
                            old(self).frame_order() as int,
                            o as int,
                            r->Ok_0 as int,
                            old(self).min_log2(),
                        )
                },
    {
        let m = match self.block_order(size, align) {
            Ok(o) => o,
            Err(e) => return Err(e),
        };
        let ghost ml = self.min_log2();
        let ghost s = order_size(ml, m as nat);
        proof {
            assert forall|o: nat|
                o <= old(self).top_order() && old(self).spec_block_size(size as nat, align as nat) == Ok::<nat, AllocErr>(
                    #[trigger] order_size(ml, o),
                ) implies o == m by {
                if o < m {
                    lemma_pow2_strict(ml + o, ml + m as nat);
                } else if o > m {
                    lemma_pow2_strict(ml + m as nat, ml + o);
                }
            }
        }
        let a = match self.take_block(m) {
            Some(a) => a,
            None => {
                let ghost before = self.free_view();
                match self.refill() {
                    Ok(()) => {},
                    Err(e) => return Err(e),
                }
                let ghost fv1 = self.free_view();
                let ghost base = choose|base: usize|
                    fv1 == #[trigger] with_frame(before, old(self).frame_order() as int, base, F::spec_frame_size(), fv1.len());
                proof {
                    assert(fv1 == with_frame(before, old(self).frame_order() as int, base, F::spec_frame_size(), fv1.len()));
                }
                match self.take_block(m) {
                    Some(a) => {
                        proof {
                            let fo = old(self).frame_order() as int;
                            let k = choose|k: int|
                                first_free(fv1, m as int, k) && a == fv1[k][0].addr && self.free_view() == split_view(
                                    fv1,
                                    k,
                                    m as int,
                                    a as int,
                                    ml,
                                ) && self.held() == old(self).held().push((a as int, order_size(ml, m as nat) as int));
                            if k != fo {
                                if k < before.len() {
                                    assert(fv1[k] == before[k]);
                                    assert(before[k].len() == 0);
                                } else {
                                    assert(fv1[k].len() == 0);
                                }
                            }
                            assert(k == fo);
                        }
                        a
                    },
                    None => {
                        return Err(AllocErr::Exhausted);
                    },
                }
            },
        };
        proof {
            let m0 = if size >= align { size } else { align };
            let m1 = if m0 >= self.min_block_size { m0 } else { self.min_block_size };
            let j = lemma_round_up_is_pow2(m1 as nat);
            let ka = choose|k: nat| pow2(k) == align;
            if ka > ml + m as nat {
                lemma_pow2_strict(ml + m as nat, ka);
            }
            lemma_pow2_divides(ka, ml + m as nat);
            lemma_pow2_pos(ka);
            lemma_divides_trans(a as int, s as int, align as int);
        }
        Ok(a)
    }
}

impl<F: FrameAllocator> Heap<F> {
    /// Gives back the block at `ptr` that was allocated for a request of
    /// `size` bytes aligned to `align`, merging it with its free buddies.
    #[verifier::spinoff_prover]
    #[verifier::rlimit(50)]
    pub fn deallocate(&mut self, ptr: usize, size: usize, align: usize)
        requires
            old(self).wf(),
            old(self).spec_block_size(size as nat, align as nat) is Ok,
            exists|i: int|
                0 <= i < old(self).held().len() && old(self).held()[i] == (
                    ptr as int,
                    old(self).spec_block_size(size as nat, align as nat)->Ok_0 as int,
                ),
        ensures
            final(self).wf(),
            final(self).min_log2() == old(self).min_log2(),
            final(self).top_order() == old(self).top_order(),
            final(self).spec_heap_size() == old(self).spec_heap_size(),
            exists|i: int|
                0 <= i < old(self).held().len() && old(self).held()[i] == (
                    ptr as int,
                    old(self).spec_block_size(size as nat, align as nat)->Ok_0 as int,
                ) && final(self).held() == old(self).held().remove(i),
            forall|o: nat|
                o <= old(self).top_order() && old(self).spec_block_size(size as nat, align as nat) == Ok::<nat, AllocErr>(
                    #[trigger] order_size(old(self).min_log2(), o),
                ) ==> final(self).free_view() == freed(old(self).free_view(), ptr as int, o, old(self).min_log2()),
    {
        let mut order = match self.block_order(size, align) {
            Ok(o) => o,
            Err(_) => return,
        };
        let ghost ml = self.min_log2();
        let ghost fv0 = self.free_view();
        let ghost o0 = order as nat;
        let ghost s0 = order_size(ml, o0) as int;
        let ghost hi = choose|i: int| 0 <= i < old(self).held().len() && old(self).held()[i] == (ptr as int, s0);
        proof {
            assert forall|o: nat|
                o <= old(self).top_order() && old(self).spec_block_size(size as nat, align as nat) == Ok::<nat, AllocErr>(
                    #[trigger] order_size(ml, o),
                ) implies o == o0 by {
                if o < o0 {
                    lemma_pow2_strict(ml + o, ml + o0);
                } else if o > o0 {
                    lemma_pow2_strict(ml + o0, ml + o);
                }
            }
            assert(held_ok(self.held@[hi], ml, self.top_order()));
            lemma_held_remove(self.held@, hi);
        }
        let ghost mid = *self;
        self.held = Ghost(self.held@.remove(hi));
        proof {
            assert forall|j: int| 0 <= j < self.held@.len() implies held_ok(#[trigger] self.held@[j], self.min_block_size_log2 as nat, self.top_order()) by {
                if j < hi {
                    assert(self.held@[j] == mid.held@[j]);
                    assert(held_ok(mid.held@[j], mid.min_block_size_log2 as nat, mid.top_order()));
                } else {
                    assert(self.held@[j] == mid.held@[j + 1]);
                    assert(held_ok(mid.held@[j + 1], mid.min_block_size_log2 as nat, mid.top_order()));
                }
            }
            mid.lemma_reshape(self);
        }
        proof {
            assert forall|j: int| 0 <= j < self.held@.len() implies self.held@[j].1 >= 0 by {
                assert(held_ok(self.held@[j], self.min_block_size_log2 as nat, self.top_order()));
            }
            lemma_held_bytes_nonneg(self.held@);
        }
        let mut addr = ptr;
        let mut block_size = self.size_of_order(order);
        loop
            invariant
                self.shape(),
                ml == self.min_log2(),
                order <= self.top_order(),
                block_size == order_size(ml, order as nat),
                addr as int % block_size as int == 0,
                freed(self.free_view(), addr as int, order as nat, ml) == freed(fv0, ptr as int, o0, ml),
                free_bytes(self.free_view()) + held_bytes(self.held@) + block_size == self.heap_size,
                self.heap_size == old(self).heap_size,
                0 <= hi < old(self).held@.len(),
                self.held@ == old(self).held@.remove(hi),
                self.min_block_size_log2 == old(self).min_block_size_log2,
                self.free_lists@.len() == old(self).free_lists@.len(),
                held_bytes(self.held@) >= 0,
            ensures
                self.shape(),
                order <= self.top_order(),
                block_size == order_size(ml, order as nat),
                addr as int % block_size as int == 0,
                freed(self.free_view(), addr as int, order as nat, ml) == freed(fv0, ptr as int, o0, ml),
                free_bytes(self.free_view()) + held_bytes(self.held@) + block_size == self.heap_size,
                self.heap_size == old(self).heap_size,
                0 <= hi < old(self).held@.len(),
                self.held@ == old(self).held@.remove(hi),
                self.min_block_size_log2 == old(self).min_block_size_log2,
                self.free_lists@.len() == old(self).free_lists@.len(),
                !(order + 1 < self.free_view().len() && has_block_at(
                    self.free_view()[order as int],
                    buddy_of(addr as int, block_size as int),
                )),
            decreases self.top_order() - order,
        {
            let ghost fv = self.free_view();
            let ghost pre = *self;
            proof {
                lemma_free_bytes_nonneg(fv);
            }
            match self.buddy_at(addr, order) {
                None => {
                    proof {
                        let k = ml + order as nat;
                        if order < self.top_order() {
                            lemma_pow2_strict(k, ml + self.top_order());
                        }
                    }
                    break;
                },
                Some(b) => {
                    proof {
                        lemma_buddy(addr as int, ml + order as nat);
                    }
                    if self.take_free(order, b) {
                        proof {
                            let o = order as int;
                            let i = choose|i: int|
                                0 <= i < fv[o].len() && fv[o][i].addr == b && (forall|j: int|
                                    0 <= j < i ==> (#[trigger] fv[o][j]).addr != b) && self.free_view() == fv.update(
                                    o,
                                    fv[o].remove(i),
                                ) && free_bytes(self.free_view()) == free_bytes(fv) - fv[o][i].size;
                            assert(has_block_at(fv[o], b as int));
                            let c = first_at(fv[o], b as int);
                            if c < i {
                                assert(fv[o][c].addr != b);
                            }
                            if i < c {
                                assert(fv[o][i].addr != b);
                            }
                            assert(c == i);
                            assert(fv[o] == pre.free_lists@[o]@);
                            assert(block_ok(pre.free_lists@[o]@[i], ml, order as nat));
                            lemma_free_bytes_nonneg(self.free_view());
                            let k = ml + order as nat;
                            assert(pow2(k + 1) == 2 * pow2(k));
                            assert(2 * block_size <= self.heap_size);
                            if order + 1 > self.top_order() {
                                if k + 1 > ml + self.top_order() + 1 {
                                    lemma_pow2_strict(ml + self.top_order() + 1, k + 1);
                                }
                            }
                        }
                        addr = if addr < b { addr } else { b };
                        order = order + 1;
                        block_size = block_size * 2;
                    } else {
                        break;
                    }
                },
            }
        }
        self.push_block(FreeBlock { addr, size: block_size }, order);
    }
}

impl<F: FrameAllocator> Heap<F> {
    /// Every byte of the heap is counted once: the bytes of the free
    /// blocks and of the blocks handed out add up to the size of the heap,
    /// and every such block is aligned to its size, which is that of some
    /// order.
    pub proof fn lemma_bytes_add_up(&self)
        requires
            self.wf(),
        ensures
            free_bytes(self.free_view()) + held_bytes(self.held()) == self.spec_heap_size(),
            forall|o: int, i: int|
                0 <= o < self.free_view().len() && 0 <= i < self.free_view()[o].len() ==> block_ok(
                    #[trigger] self.free_view()[o][i],
                    self.min_log2(),
                    o as nat,
                ),
            forall|j: int| 0 <= j < self.held().len() ==> held_ok(#[trigger] self.held()[j], self.min_log2(), self.top_order()),
    {
        assert forall|o: int, i: int|
            0 <= o < self.free_view().len() && 0 <= i < self.free_view()[o].len() implies block_ok(
            #[trigger] self.free_view()[o][i],
            self.min_log2(),
            o as nat,
        ) by {
            assert(self.free_view()[o] == self.free_lists@[o]@);
        }
    }

    /// Once every allocated block has been given back, the free lists hold
    /// as many bytes as the frames that back the heap.
    pub proof fn lemma_round_trip(&self)
        requires
            self.wf(),
            self.held().len() == 0,
        ensures
            free_bytes(self.free_view()) == self.spec_heap_size(),
    {
        assert(self.held@.map_values(|b: (int, int)| b.1) =~= Seq::<int>::empty());
    }
}

/// Freeing two buddy blocks, neither of them free before, gives the same
/// free lists in either order: the second one freed merges with the first
/// into the block of the next order at the lower of the two addresses.
pub proof fn lemma_merge_either_order(fv: Seq<Seq<FreeBlock>>, a: int, order: nat, min_log2: nat)
    requires
        order + 1 < fv.len(),
        0 <= a <= usize::MAX,
        2 * order_size(min_log2, order) <= usize::MAX,
        a % (order_size(min_log2, order) as int) == 0,
        !has_block_at(fv[order as int], a),
        !has_block_at(fv[order as int], buddy_of(a, order_size(min_log2, order) as int)),
    ensures
        ({
            let b = buddy_of(a, order_size(min_log2, order) as int);
            &&& freed(freed(fv, a, order, min_log2), b, order, min_log2) == freed(freed(fv, b, order, min_log2), a, order, min_log2)
            &&& freed(freed(fv, a, order, min_log2), b, order, min_log2) == freed(fv, if a < b { a } else { b }, order + 1, min_log2)
        }),
{
    let s = order_size(min_log2, order) as int;
    let b = buddy_of(a, s);
    lemma_buddy(a, min_log2 + order);
    lemma_freed_then_buddy(fv, a, order, min_log2);
    lemma_freed_then_buddy(fv, b, order, min_log2);
}

/// Freeing a block whose buddy is not free, then its buddy, merges the two.
proof fn lemma_freed_then_buddy(fv: Seq<Seq<FreeBlock>>, a: int, order: nat, min_log2: nat)
    requires
        order + 1 < fv.len(),
        0 <= a <= usize::MAX,
        2 * order_size(min_log2, order) <= usize::MAX,
        a % (order_size(min_log2, order) as int) == 0,
        !has_block_at(fv[order as int], a),
        !has_block_at(fv[order as int], buddy_of(a, order_size(min_log2, order) as int)),
    ensures
        ({
            let b = buddy_of(a, order_size(min_log2, order) as int);
            freed(freed(fv, a, order, min_log2), b, order, min_log2) == freed(fv, if a < b { a } else { b }, order + 1, min_log2)
        }),
{
    let s = order_size(min_log2, order) as int;
    let b = buddy_of(a, s);
    let o = order as int;
    lemma_buddy(a, min_log2 + order);
    let blk = FreeBlock { addr: a as usize, size: s as usize };
    let fv1 = fv.update(o, seq![blk] + fv[o]);
    assert(freed(fv, a, order, min_log2) == fv1);
    assert(buddy_of(b, s) == a);
    assert(fv1[o][0].addr == a);
    assert(has_block_at(fv1[o], a));
    let i = first_at(fv1[o], a);
    if i > 0 {
        assert(fv1[o][0].addr != a);
    }
    assert(i == 0);
    assert(fv1.update(o, fv1[o].remove(0)) =~= fv) by {
        assert(fv1[o].remove(0) =~= fv[o]);
    }
    assert(freed(fv1, b, order, min_log2) == freed(fv, if b < a { b } else { a }, order + 1, min_log2));
}

/// The free lists of a heap made of the one frame at `base`, of order
/// `top`: that frame is the one free block.
pub open spec fn one_frame_view(top: nat, base: usize, min_log2: nat) -> Seq<Seq<FreeBlock>> {
    Seq::new(
        top + 1,
        |o: int|
            if o == top {
                seq![whole_block(base, order_size(min_log2, top))]
            } else {
                Seq::<FreeBlock>::empty()
            },
    )
}

/// The free lists while the frame at `base` is split down to, or merged
/// back up from, order `k`: one upper half at each order from `k` to
/// `top - 1`, nothing elsewhere.
spec fn halves_view(top: nat, k: nat, base: usize, min_log2: nat) -> Seq<Seq<FreeBlock>> {
    Seq::new(
        top + 1,
        |j: int|
            if k <= j < top {
                seq![FreeBlock { addr: (base + order_size(min_log2, j as nat)) as usize, size: order_size(min_log2, j as nat) as usize }]
            } else {
                Seq::<FreeBlock>::empty()
            },
    )
}

impl<F: FrameAllocator> Heap<F> {
    /// The free lists of a freshly seeded heap are the one-frame view that
    /// `lemma_split_then_reassemble` speaks of.
    pub proof fn lemma_seeded_view(&self, min_block_size: nat, base: usize)
        requires
            self.seeded(min_block_size, base),
        ensures
            self.free_view() == one_frame_view(self.top_order(), base, self.min_log2()),
    {
        assert(self.free_view() =~= one_frame_view(self.top_order(), base, self.min_log2()));
    }
}

/// An address aligned to a power of two is an even multiple of any
/// smaller one.
proof fn lemma_even_multiple(a: int, k: nat, j: nat)
    requires
        k < j,
        a >= 0,
        a % (pow2(j) as int) == 0,
    ensures
        (a / (pow2(k) as int)) % 2 == 0,
{
    lemma_pow2_split(k + 1, j);
    lemma_pow2_pos(k);
    lemma_pow2_pos(j);
    assert(pow2(k + 1) == 2 * pow2(k));
    let p = pow2(k) as int;
    let m = pow2((j - (k + 1)) as nat) as int;
    lemma_fundamental_div_mod(a, pow2(j) as int);
    let q = a / (pow2(j) as int);
    assert(a == p * (2 * m * q)) by (nonlinear_arith)
        requires
            a == (pow2(j) as int) * q,
            pow2(j) as int == (2 * p) * m,
    ;
    assert(a / p == 2 * m * q) by (nonlinear_arith)
        requires
            a == p * (2 * m * q),
            p > 0,
    ;
    lemma_mod_multiples_basic(m * q, 2);
    assert(2 * m * q == (m * q) * 2) by (nonlinear_arith);
}

proof fn lemma_reassemble_from(top: nat, k: nat, base: usize, min_log2: nat)
    requires
        k <= top,
        base as int % (order_size(min_log2, top) as int) == 0,
        base as int + order_size(min_log2, top) <= usize::MAX + 1,
    ensures
        freed(halves_view(top, k, base, min_log2), base as int, k, min_log2) == one_frame_view(top, base, min_log2),
    decreases top - k,
{
    let fv = halves_view(top, k, base, min_log2);
    let s = order_size(min_log2, k) as int;
    if k == top {
        assert(fv.update(k as int, seq![FreeBlock { addr: base, size: s as usize }] + fv[k as int]) =~= one_frame_view(
            top,
            base,
            min_log2,
        ));
    } else {
        lemma_pow2_strict(min_log2 + k, min_log2 + top);
        lemma_even_multiple(base as int, min_log2 + k, min_log2 + top);
        let b = buddy_of(base as int, s);
        assert(b == base + s);
        assert(fv[k as int][0].addr == b);
        assert(has_block_at(fv[k as int], b));
        let i = first_at(fv[k as int], b);
        assert(i == 0);
        assert(fv[k as int].remove(0) =~= Seq::<FreeBlock>::empty());
        assert(fv.update(k as int, fv[k as int].remove(0)) =~= halves_view(top, k + 1, base, min_log2));
        lemma_reassemble_from(top, k + 1, base, min_log2);
    }
}

/// A heap made of one frame, split from its top order down to order 0 to
/// serve the smallest block at the frame's base, holds one upper half at
/// each order below the top and nothing at the top; freeing that block
/// merges every half back into the one frame.
pub proof fn lemma_split_then_reassemble(top: nat, base: usize, min_log2: nat)
    requires
        top >= 1,
        base as int % (order_size(min_log2, top) as int) == 0,
        base as int + order_size(min_log2, top) <= usize::MAX + 1,
    ensures
        ({
            let split = split_view(one_frame_view(top, base, min_log2), top as int, 0, base as int, min_log2);
            &&& split[top as int].len() == 0
            &&& forall|j: int|
                0 <= j < top ==> #[trigger] split[j] == seq![
                    FreeBlock { addr: (base + order_size(min_log2, j as nat)) as usize, size: order_size(min_log2, j as nat) as usize },
                ]
            &&& freed(split, base as int, 0, min_log2) == one_frame_view(top, base, min_log2)
        }),
{
    let fv0 = one_frame_view(top, base, min_log2);
    let split = split_view(fv0, top as int, 0, base as int, min_log2);
    assert(split =~= halves_view(top, 0, base, min_log2)) by {
        assert(fv0[top as int].drop_first() =~= Seq::<FreeBlock>::empty());
        assert forall|j: int| 0 <= j < top implies seq![
            FreeBlock { addr: (base + order_size(min_log2, j as nat)) as usize, size: order_size(min_log2, j as nat) as usize },
        ] + fv0[j] =~= seq![
            FreeBlock { addr: (base + order_size(min_log2, j as nat)) as usize, size: order_size(min_log2, j as nat) as usize },
        ] by {}
    }
    lemma_reassemble_from(top, 0, base, min_log2);
}

} // verus!
