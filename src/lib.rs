use vstd::prelude::*;

pub mod total;
pub mod buddy;
pub mod freelist;

pub use buddy::BuddyAllocator;
pub use freelist::FreeList;
use vstd::arithmetic::power2::{pow2, lemma_pow2_pos};

verus! {

/// Selection rule of the free-list allocator.
#[derive(Debug, Copy, Clone, PartialEq, Eq, Structural)]
pub enum Policy {
    Best,
    First,
}

/// The operations that both allocators offer, so that a caller can drive
/// either one.
pub trait Allocator: Sized {
    spec fn inv(&self) -> bool;

    /// Length of the whole simulated space.
    spec fn total_space(&self) -> nat;

    /// Total length of the free regions.
    spec fn free_sum(&self) -> int;

    /// Total length of the granted regions.
    spec fn granted_sum(&self) -> int;

    /// Total unused length inside the granted regions.
    spec fn padding_sum(&self) -> int;

    /// A request of `size` units would be granted now.
    spec fn can_grant(&self, size: nat) -> bool;

    /// `ptr` is the address of a live grant.
    spec fn live(&self, ptr: usize) -> bool;

    /// Length of the live grant at `ptr`.
    spec fn grant_len(&self, ptr: usize) -> int;

    /// Unused length inside the live grant at `ptr`.
    spec fn grant_padding(&self, ptr: usize) -> int;

    /// Free space and granted space together make up the whole space.
    proof fn lemma_conservation(&self)
        requires
            self.inv(),
        ensures
            self.free_sum() + self.granted_sum() == self.total_space(),
    ;

    /// Allocates memory for the requested size; `None` when no free region can hold it.
    fn malloc(&mut self, size: usize) -> (r: Option<usize>)
        requires
            old(self).inv(),
            size > 0,
        ensures
            final(self).inv(),
            final(self).total_space() == old(self).total_space(),
            r is None <==> !old(self).can_grant(size as nat),
            r is None ==> *final(self) == *old(self),
            r matches Some(a) ==> {
                &&& !old(self).live(a)
                &&& final(self).live(a)
                &&& final(self).grant_len(a) >= size
                &&& final(self).free_sum() == old(self).free_sum() - final(self).grant_len(a)
                &&& final(self).padding_sum() == old(self).padding_sum() + final(self).grant_padding(a)
            },
    ;

    /// Frees the region granted at `ptr`; an error when `ptr` is not granted.
    fn free(&mut self, ptr: usize) -> (r: Result<(), &'static str>)
        requires
            old(self).inv(),
        ensures
            final(self).inv(),
            final(self).total_space() == old(self).total_space(),
            r is Ok <==> old(self).live(ptr),
            r is Err ==> *final(self) == *old(self),
            !final(self).live(ptr),
            r is Ok ==> final(self).free_sum() == old(self).free_sum() + old(self).grant_len(ptr),
            r is Ok ==> final(self).padding_sum() == old(self).padding_sum() - old(self).grant_padding(ptr),
    ;

    /// The largest request that would be granted now.
    fn largest_alloc(&self) -> (r: usize)
        requires
            self.inv(),
        ensures
            forall|x: nat| 1 <= x ==> (self.can_grant(x) <==> x <= r),
    ;

    /// Total free space, which may not be usable as one request.
    fn free_space(&self) -> (r: usize)
        requires
            self.inv(),
        ensures
            r == self.free_sum(),
    ;

    /// Total unused length inside the granted regions.
    fn internal_frag(&self) -> (r: usize)
        requires
            self.inv(),
        ensures
            r == self.padding_sum(),
    ;
}

impl Allocator for BuddyAllocator {
    open spec fn inv(&self) -> bool {
        self.wf()
    }

    open spec fn total_space(&self) -> nat {
        self.capacity()
    }

    open spec fn free_sum(&self) -> int {
        self.free_total()
    }

    open spec fn granted_sum(&self) -> int {
        self.granted_total()
    }

    open spec fn padding_sum(&self) -> int {
        self.padding_total()
    }

    open spec fn can_grant(&self, size: nat) -> bool {
        self.fits(size)
    }

    open spec fn live(&self, ptr: usize) -> bool {
        self.is_allocated(ptr)
    }

    open spec fn grant_len(&self, ptr: usize) -> int {
        pow2(self.grant_at(ptr).size_class as nat) as int
    }

    open spec fn grant_padding(&self, ptr: usize) -> int {
        self.grant_at(ptr).padding as int
    }

    proof fn lemma_conservation(&self) {
        buddy::lemma_buddy_conservation(self);
    }

    fn malloc(&mut self, size: usize) -> (r: Option<usize>) {
        let r = BuddyAllocator::malloc(self, size);
        proof {
            if let Some(a) = r {
                let last = self.grants().len() - 1;
                assert(self.grants()[last] == self.grants().last());
                lemma_buddy_grant_unique(self, last);
            }
        }
        r
    }

    fn free(&mut self, ptr: usize) -> (r: Result<(), &'static str>) {
        let ghost pre = *self;
        let r = BuddyAllocator::free(self, ptr);
        proof {
            if r is Ok {
                let k = choose|k: int| #[trigger] pre.released(self, ptr, k);
                lemma_buddy_grant_unique(&pre, k);
            }
        }
        r
    }

    fn largest_alloc(&self) -> (r: usize) {
        BuddyAllocator::largest_alloc(self)
    }

    fn free_space(&self) -> (r: usize) {
        BuddyAllocator::free_space(self)
    }

    fn internal_frag(&self) -> (r: usize) {
        BuddyAllocator::internal_frag(self)
    }
}

impl Allocator for FreeList {
    open spec fn inv(&self) -> bool {
        self.wf()
    }

    open spec fn total_space(&self) -> nat {
        self.capacity()
    }

    open spec fn free_sum(&self) -> int {
        self.free_total()
    }

    open spec fn granted_sum(&self) -> int {
        self.granted_total()
    }

    open spec fn padding_sum(&self) -> int {
        self.padding_total()
    }

    open spec fn can_grant(&self, size: nat) -> bool {
        self.fits(size)
    }

    open spec fn live(&self, ptr: usize) -> bool {
        self.is_allocated(ptr)
    }

    open spec fn grant_len(&self, ptr: usize) -> int {
        self.grant_at(ptr).size as int
    }

    open spec fn grant_padding(&self, ptr: usize) -> int {
        self.grant_at(ptr).padding as int
    }

    proof fn lemma_conservation(&self) {
        freelist::lemma_freelist_conservation(self);
    }

    fn malloc(&mut self, size: usize) -> (r: Option<usize>) {
        let ghost pre = *self;
        let r = FreeList::malloc(self, size);
        proof {
            if let Some(a) = r {
                let s = freelist::rounded(size as nat, pre.alignment());
                let i = choose|i: int| #[trigger] pre.carved(self, s, size as nat, i, a);
                let last = self.grants().len() - 1;
                assert(self.grants()[last] == self.grants().last());
                lemma_freelist_grant_unique(self, last);
                freelist::lemma_rounded_ge(size as nat, pre.alignment());
            }
        }
        r
    }

    fn free(&mut self, ptr: usize) -> (r: Result<(), &'static str>) {
        let ghost pre = *self;
        let r = FreeList::free(self, ptr);
        proof {
            if r is Ok {
                let k = choose|k: int| #[trigger] pre.freed(self, ptr, k);
                lemma_freelist_grant_unique(&pre, k);
            }
        }
        r
    }

    fn largest_alloc(&self) -> (r: usize) {
        FreeList::largest_alloc(self)
    }

    fn free_space(&self) -> (r: usize) {
        FreeList::free_space(self)
    }

    fn internal_frag(&self) -> (r: usize) {
        FreeList::internal_frag(self)
    }
}

/// The grant at index `k` is the one `grant_at` finds at its address.
pub proof fn lemma_buddy_grant_unique(b: &BuddyAllocator, k: int)
    requires
        b.wf(),
        0 <= k < b.grants().len(),
    ensures
        b.grant_at(b.grants()[k].addr) == b.grants()[k],
{
    buddy::lemma_buddy_views(b);
    let ptr = b.grants()[k].addr;
    let c = choose|c: int| 0 <= c < b.grants().len() && (#[trigger] b.grants()[c]).addr == ptr;
    if c != k {
        lemma_pow2_pos(b.grants()[c].size_class as nat);
        lemma_pow2_pos(b.grants()[k].size_class as nat);
        assert(buddy::apart(buddy::as_block(b.grants()[c]), buddy::as_block(b.grants()[k])));
    }
}

/// The grant at index `k` is the one `grant_at` finds at its address.
pub proof fn lemma_freelist_grant_unique(l: &FreeList, k: int)
    requires
        l.wf(),
        0 <= k < l.grants().len(),
    ensures
        l.grant_at(l.grants()[k].addr) == l.grants()[k],
{
    freelist::lemma_freelist_views(l);
    let ptr = l.grants()[k].addr;
    let c = choose|c: int| 0 <= c < l.grants().len() && (#[trigger] l.grants()[c]).addr == ptr;
    if c != k {
        assert(freelist::disjoint(
            l.grants()[c].addr as int,
            l.grants()[c].size as int,
            l.grants()[k].addr as int,
            l.grants()[k].size as int,
        ));
    }
}

} // verus!
