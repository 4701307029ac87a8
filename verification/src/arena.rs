//! The binning slab cache behind GPU allocations.
//!
//! Requests are rounded up to a power-of-two bin with a 512-byte floor, so that
//! tensors of similar sizes share slabs. Freed slabs wait in a per-bin stack and
//! are handed out again, most recently freed first, before any new slab is made.
use vstd::prelude::*;
use std::collections::HashMap;

verus! {

broadcast use vstd::std_specs::hash::group_hash_axioms;

/// The smallest slab the arena hands out, in bytes.
pub const MIN_BIN_SIZE: u64 = 512;

/// The largest request the binning accepts: its bin is still a `u64`.
pub const MAX_BINNABLE: u64 = 0x8000_0000_0000_0000;

/// `n` is a power of two.
pub open spec fn is_pow2(n: int) -> bool
    decreases n,
{
    if n <= 0 {
        false
    } else if n == 1 {
        true
    } else {
        n % 2 == 0 && is_pow2(n / 2)
    }
}

/// `bin` is the slab size for a request of `requested` bytes: the smallest power
/// of two that is at least the request and at least `MIN_BIN_SIZE`.
pub open spec fn is_bin_for(requested: int, bin: int) -> bool {
    &&& is_pow2(bin)
    &&& bin >= requested
    &&& bin >= MIN_BIN_SIZE
    &&& (bin == MIN_BIN_SIZE || bin < 2 * requested)
}

/// Of two distinct powers of two, the larger is at least twice the smaller.
pub proof fn lemma_pow2_gap(a: int, b: int)
    requires
        is_pow2(a),
        is_pow2(b),
        a < b,
    ensures
        2 * a <= b,
    decreases a,
{
    if a > 1 {
        assert(b > 1);
        lemma_pow2_gap(a / 2, b / 2);
    } else {
        assert(b > 1);
    }
}

/// A request has at most one bin.
pub proof fn lemma_bin_unique(requested: int, b1: int, b2: int)
    requires
        is_bin_for(requested, b1),
        is_bin_for(requested, b2),
    ensures
        b1 == b2,
{
    if b1 < b2 {
        lemma_pow2_gap(b1, b2);
    } else if b2 < b1 {
        lemma_pow2_gap(b2, b1);
    }
}

/// A bin is its own bin: rounding twice is rounding once.
pub proof fn lemma_bin_idempotent(requested: int, bin: int)
    requires
        is_bin_for(requested, bin),
    ensures
        is_bin_for(bin, bin),
{
}

/// Larger requests never get smaller bins.
pub proof fn lemma_bin_monotone(r1: int, b1: int, r2: int, b2: int)
    requires
        r1 <= r2,
        is_bin_for(r1, b1),
        is_bin_for(r2, b2),
    ensures
        b1 <= b2,
{
    if b2 < b1 {
        lemma_pow2_gap(b2, b1);
    }
}

proof fn lemma_pow2_double(n: int)
    requires
        is_pow2(n),
    ensures
        is_pow2(2 * n),
{
    assert((2 * n) / 2 == n);
}

proof fn lemma_pow2_512()
    ensures
        is_pow2(512),
{
    assert(is_pow2(1));
    lemma_pow2_double(1);
    lemma_pow2_double(2);
    lemma_pow2_double(4);
    lemma_pow2_double(8);
    lemma_pow2_double(16);
    lemma_pow2_double(32);
    lemma_pow2_double(64);
    lemma_pow2_double(128);
    lemma_pow2_double(256);
}

/// The slab size for a request: the request rounded up to the next power of
/// two, and never below 512 bytes.
pub fn get_bin_size(requested_bytes: u64) -> (bin: u64)
    requires
        requested_bytes <= MAX_BINNABLE,
    ensures
        is_bin_for(requested_bytes as int, bin as int),
{
    proof {
        lemma_pow2_512();
    }
    if requested_bytes <= MIN_BIN_SIZE {
        MIN_BIN_SIZE
    } else {
        let mut p: u64 = MIN_BIN_SIZE;
        while p < requested_bytes
            invariant
                MIN_BIN_SIZE < requested_bytes <= MAX_BINNABLE,
                is_pow2(p as int),
                MIN_BIN_SIZE <= p,
                p < 2 * requested_bytes,
            decreases 2 * requested_bytes - p,
        {
            proof {
                lemma_pow2_double(p as int);
            }
            p = p * 2;
        }
        p
    }
}

/// The slabs cached for `bin`, most recently freed last (empty when the bin
/// was never used).
pub open spec fn slab_stack<B>(m: Map<u64, Seq<B>>, bin: u64) -> Seq<B> {
    if m.contains_key(bin) {
        m[bin]
    } else {
        Seq::empty()
    }
}

/// The cache after a slab of `bin` bytes is returned to it.
pub open spec fn after_free<B>(m: Map<u64, Seq<B>>, bin: u64, buffer: B) -> Map<u64, Seq<B>> {
    m.insert(bin, slab_stack(m, bin).push(buffer))
}

/// The cache after the most recently freed slab of `bin` bytes is taken out.
pub open spec fn after_take<B>(m: Map<u64, Seq<B>>, bin: u64) -> Map<u64, Seq<B>> {
    m.insert(bin, slab_stack(m, bin).drop_last())
}

/// Two caches hold the same slabs in every bin.
pub open spec fn same_slabs<B>(m1: Map<u64, Seq<B>>, m2: Map<u64, Seq<B>>) -> bool {
    forall|bin: u64| #[trigger] slab_stack(m1, bin) == slab_stack(m2, bin)
}

/// The number of cached slabs, over every bin.
pub open spec fn total_slabs<B>(m: Map<u64, Seq<B>>) -> nat {
    m.dom().fold(0nat, |acc: nat, bin: u64| acc + m[bin].len())
}

/// Counting slabs bin by bin does not depend on the order of the bins.
pub proof fn lemma_slab_count_commutative<B>(m: Map<u64, Seq<B>>)
    ensures
        vstd::set::fold::is_fun_commutative(|acc: nat, bin: u64| acc + m[bin].len()),
{
    let f = |acc: nat, bin: u64| acc + m[bin].len();
    assert forall|a1: u64, a2: u64, b: nat| #[trigger] f(f(b, a1), a2) == f(f(b, a2), a1) by {}
}

/// What `allocate` decides.
pub enum SlabRequest<B> {
    /// A cached slab of `size` bytes is handed out again.
    Reused { buffer: B, size: u64 },
    /// No slab of `size` bytes is cached: the caller creates one.
    Create { size: u64 },
}

impl<B> SlabRequest<B> {
    pub open spec fn spec_size(&self) -> u64 {
        match self {
            SlabRequest::Reused { size, .. } => *size,
            SlabRequest::Create { size } => *size,
        }
    }

    /// The slab capacity, in bytes, of the allocation.
    pub fn size(&self) -> (s: u64)
        ensures
            s == self.spec_size(),
    {
        match self {
            SlabRequest::Reused { size, .. } => *size,
            SlabRequest::Create { size } => *size,
        }
    }
}

/// A cache of free slabs, one stack per power-of-two bin size.
pub struct GpuMemoryArena<B> {
    free_list: HashMap<u64, Vec<B>>,
}

impl<B> GpuMemoryArena<B> {
    /// The cached slabs of each bin.
    pub closed spec fn slabs(&self) -> Map<u64, Seq<B>> {
        self.free_list@.map_values(|v: Vec<B>| v@)
    }

    /// An empty cache.
    pub fn new() -> (a: Self)
        ensures
            a.slabs() == Map::<u64, Seq<B>>::empty(),
    {
        let a = GpuMemoryArena { free_list: HashMap::new() };
        assert(a.slabs() =~= Map::<u64, Seq<B>>::empty());
        a
    }

    /// Decides an allocation of `requested_bytes`: the request is rounded to its
    /// bin, and the most recently freed slab of that bin is handed out if there
    /// is one; otherwise the caller is to create a slab of the bin's size.
    pub fn allocate(&mut self, requested_bytes: u64) -> (r: SlabRequest<B>)
        requires
            requested_bytes <= MAX_BINNABLE,
        ensures
            is_bin_for(requested_bytes as int, r.spec_size() as int),
            match r {
                SlabRequest::Reused { buffer, size } => {
                    &&& slab_stack(old(self).slabs(), size).len() > 0
                    &&& buffer == slab_stack(old(self).slabs(), size).last()
                    &&& final(self).slabs() == after_take(old(self).slabs(), size)
                },
                SlabRequest::Create { size } => {
                    &&& slab_stack(old(self).slabs(), size).len() == 0
                    &&& final(self).slabs() == old(self).slabs()
                },
            },
    {
        let binned_size = get_bin_size(requested_bytes);
        let ghost m = self.slabs();
        match self.free_list.remove(&binned_size) {
            Some(mut buffers) => {
                assert(m.contains_key(binned_size) && m[binned_size] == buffers@);
                match buffers.pop() {
                    Some(buffer) => {
                        self.free_list.insert(binned_size, buffers);
                        assert(self.slabs() =~= after_take(m, binned_size));
                        SlabRequest::Reused { buffer, size: binned_size }
                    },
                    None => {
                        self.free_list.insert(binned_size, buffers);
                        assert(self.slabs() =~= m);
                        SlabRequest::Create { size: binned_size }
                    },
                }
            },
            None => {
                assert(self.slabs() =~= m);
                SlabRequest::Create { size: binned_size }
            },
        }
    }

    /// Returns a slab of `binned_size` bytes to the stack of its bin.
    pub fn free(&mut self, buffer: B, binned_size: u64)
        ensures
            final(self).slabs() == after_free(old(self).slabs(), binned_size, buffer),
    {
        let ghost m = self.slabs();
        let mut buffers = match self.free_list.remove(&binned_size) {
            Some(v) => v,
            None => Vec::new(),
        };
        assert(buffers@ == slab_stack(m, binned_size));
        buffers.push(buffer);
        self.free_list.insert(binned_size, buffers);
        assert(self.slabs() =~= after_free(m, binned_size, buffer));
    }

    /// The number of bins the cache has a stack for (empty stacks included).
    pub fn cached_bins(&self) -> (n: usize)
        ensures
            n == self.slabs().dom().len(),
    {
        assert(self.slabs().dom() =~= self.free_list@.dom());
        self.free_list.len()
    }

    /// The number of cached slabs over every bin (saturating at `usize::MAX`).
    pub fn free_slab_count(&self) -> (n: usize)
        ensures
            n == if total_slabs(self.slabs()) <= usize::MAX {
                total_slabs(self.slabs())
            } else {
                usize::MAX as nat
            },
    {
        let ghost m = self.slabs();
        let ghost f = |acc: nat, bin: u64| acc + m[bin].len();
        proof {
            assert(self.slabs().dom() =~= self.free_list@.dom());
            lemma_slab_count_commutative(m);
            vstd::set::fold::lemma_fold_empty(0nat, f);
        }
        let mut n: usize = 0;
        let ghost mut seen: Set<u64> = Set::empty();
        let ghost mut acc: nat = 0;
        for pair in it: self.free_list.iter()
            invariant
                m == self.slabs(),
                f == (|acc: nat, bin: u64| acc + m[bin].len()),
                vstd::set::fold::is_fun_commutative(f),
                seen.finite(),
                acc == seen.fold(0nat, f),
                n == if acc <= usize::MAX {
                    acc
                } else {
                    usize::MAX as nat
                },
                seen == Set::new(|k: u64| exists|j: int| 0 <= j < it.index() && *it.seq()[j].0 == k),
                it.seq().no_duplicates(),
        {
            let (bin, stack) = pair;
            proof {
                assert(m.contains_key(*bin) && m[*bin] == stack@);
                assert(!seen.contains(*bin)) by {
                    let i = it.index();
                    if seen.contains(*bin) {
                        let j = choose|j: int| 0 <= j < i && *it.seq()[j].0 == *bin;
                        assert(m.contains_key(*it.seq()[j].0));
                        assert(it.seq()[j] == it.seq()[i]);
                    }
                }
                vstd::set::fold::lemma_fold_insert(seen, 0nat, f, *bin);
                seen = seen.insert(*bin);
                acc = acc + stack@.len();
            }
            n = n.saturating_add(stack.len());
        }
        proof {
            assert(seen =~= m.dom());
        }
        n
    }

    /// Drops every cached slab.
    pub fn reset(&mut self)
        ensures
            final(self).slabs() == Map::<u64, Seq<B>>::empty(),
    {
        self.free_list.clear();
        assert(self.slabs() =~= Map::<u64, Seq<B>>::empty());
    }
}

/// A freed slab is the next one handed out for any request of its bin size,
/// and handing it out leaves every bin as it was before the free.
pub proof fn lemma_free_then_allocate<B>(
    m: Map<u64, Seq<B>>,
    buffer: B,
    bin: u64,
    requested: int,
)
    requires
        is_bin_for(requested, bin as int),
    ensures
        slab_stack(after_free(m, bin, buffer), bin).len() > 0,
        slab_stack(after_free(m, bin, buffer), bin).last() == buffer,
        same_slabs(after_take(after_free(m, bin, buffer), bin), m),
{
    let m1 = after_free(m, bin, buffer);
    assert(slab_stack(m1, bin) == slab_stack(m, bin).push(buffer));
    assert forall|b: u64| #[trigger] slab_stack(after_take(m1, bin), b) == slab_stack(m, b) by {
        if b == bin {
            assert(slab_stack(m, bin).push(buffer).drop_last() =~= slab_stack(m, bin));
        }
    }
}

/// Slabs of one bin come back in the reverse order of their freeing.
pub proof fn lemma_allocation_is_lifo<B>(m: Map<u64, Seq<B>>, first: B, second: B, bin: u64)
    ensures
        slab_stack(after_free(after_free(m, bin, first), bin, second), bin).last() == second,
        slab_stack(after_take(after_free(after_free(m, bin, first), bin, second), bin), bin).last()
            == first,
{
    let m2 = after_free(after_free(m, bin, first), bin, second);
    assert(slab_stack(m2, bin) == slab_stack(m, bin).push(first).push(second));
    assert(slab_stack(after_take(m2, bin), bin) =~= slab_stack(m, bin).push(first));
}

/// Freeing into one bin leaves every other bin untouched.
pub proof fn lemma_free_keeps_other_bins<B>(m: Map<u64, Seq<B>>, buffer: B, bin: u64, other: u64)
    requires
        other != bin,
    ensures
        slab_stack(after_free(m, bin, buffer), other) == slab_stack(m, other),
{
}

} // verus!
