use vstd::prelude::*;
use crate::Policy;
use vstd::arithmetic::div_mod::lemma_fundamental_div_mod;
use crate::total::{sum, lemma_sum_push, lemma_sum_remove, lemma_sum_update, lemma_sum_prefix_le, lemma_sum_take_next, lemma_sum_nonneg, lemma_sum_ge_elem};

verus! {

/// A free interval of the heap.
#[derive(Debug, Copy, Clone)]
pub struct FreeNode {
    pub addr: usize,
    pub size: usize,
}

impl FreeNode {
    pub fn new(addr: usize, size: usize) -> (n: FreeNode)
        ensures
            n.addr == addr,
            n.size == size,
    {
        FreeNode { addr, size }
    }
}

/// A granted interval: its address, its length after rounding, and how much
/// the rounding added.
#[derive(Debug, Copy, Clone)]
pub struct Grant {
    pub addr: usize,
    pub size: usize,
    pub padding: usize,
}

/// Two intervals share no address.
pub open spec fn disjoint(a1: int, s1: int, a2: int, s2: int) -> bool {
    a1 + s1 <= a2 || a2 + s2 <= a1
}

/// `size` rounded up to a multiple of `align`; an `align` of at most 1 keeps it.
pub open spec fn rounded(size: nat, align: nat) -> nat {
    if align <= 1 || size % align == 0 {
        size
    } else {
        (size + (align - size % align)) as nat
    }
}

spec fn node_sizes(ns: Seq<FreeNode>) -> Seq<int> {
    ns.map_values(|n: FreeNode| n.size as int)
}

spec fn grant_sizes(gs: Seq<Grant>) -> Seq<int> {
    gs.map_values(|g: Grant| g.size as int)
}

spec fn grant_pads(gs: Seq<Grant>) -> Seq<int> {
    gs.map_values(|g: Grant| g.padding as int)
}

/// Ordered by address, each interval ending at or before the next begins;
/// with `strict`, a gap between any two.
pub open spec fn ordered(ns: Seq<FreeNode>, strict: bool) -> bool {
    forall|i: int, j: int|
        0 <= i < j < ns.len() ==> if strict {
            (#[trigger] ns[i]).addr + ns[i].size < (#[trigger] ns[j]).addr
        } else {
            ns[i].addr + ns[i].size <= ns[j].addr
        }
}

spec fn node_in(n: FreeNode, base: nat, max: nat) -> bool {
    n.size > 0 && base <= n.addr && n.addr + n.size <= base + max
}

spec fn grant_in(g: Grant, base: nat, max: nat) -> bool {
    g.size > 0 && g.padding <= g.size && base <= g.addr && g.addr + g.size <= base + max
}

spec fn nodes_in(ns: Seq<FreeNode>, base: nat, max: nat) -> bool {
    forall|i: int| 0 <= i < ns.len() ==> node_in(#[trigger] ns[i], base, max)
}

spec fn grants_in(gs: Seq<Grant>, base: nat, max: nat) -> bool {
    forall|k: int| 0 <= k < gs.len() ==> grant_in(#[trigger] gs[k], base, max)
}

spec fn cross_disjoint(ns: Seq<FreeNode>, gs: Seq<Grant>) -> bool {
    forall|i: int, k: int|
        0 <= i < ns.len() && 0 <= k < gs.len() ==> disjoint(
            (#[trigger] ns[i]).addr as int,
            ns[i].size as int,
            (#[trigger] gs[k]).addr as int,
            gs[k].size as int,
        )
}

spec fn grants_disjoint(gs: Seq<Grant>) -> bool {
    forall|k1: int, k2: int|
        0 <= k1 < gs.len() && 0 <= k2 < gs.len() && k1 != k2 ==> disjoint(
            (#[trigger] gs[k1]).addr as int,
            gs[k1].size as int,
            (#[trigger] gs[k2]).addr as int,
            gs[k2].size as int,
        )
}

/// Free intervals and granted intervals of a heap `[base, base + max)`:
/// none overlapping, together covering the heap.
spec fn heap_ok(base: nat, max: nat, strict: bool, ns: Seq<FreeNode>, gs: Seq<Grant>) -> bool {
    &&& max > 0
    &&& base + max <= usize::MAX
    &&& nodes_in(ns, base, max)
    &&& grants_in(gs, base, max)
    &&& ordered(ns, false)
    &&& (strict ==> ordered(ns, true))
    &&& cross_disjoint(ns, gs)
    &&& grants_disjoint(gs)
    &&& sum(node_sizes(ns)) + sum(grant_sizes(gs)) == max
}

/// Granting the first `s` units of free interval `i`.
proof fn lemma_take_node(
    base: nat,
    max: nat,
    strict: bool,
    ns: Seq<FreeNode>,
    gs: Seq<Grant>,
    i: int,
    g: Grant,
    ns2: Seq<FreeNode>,
)
    requires
        heap_ok(base, max, strict, ns, gs),
        0 <= i < ns.len(),
        g.addr == ns[i].addr,
        0 < g.size <= ns[i].size,
        g.padding <= g.size,
        ns2 == if g.size == ns[i].size {
            ns.remove(i)
        } else {
            ns.update(i, FreeNode { addr: (ns[i].addr + g.size) as usize, size: (ns[i].size - g.size) as usize })
        },
    ensures
        heap_ok(base, max, strict, ns2, gs.push(g)),
{
    let n = ns[i];
    let gs2 = gs.push(g);
    let whole = g.size == n.size;
    assert forall|j: int| 0 <= j < ns2.len() implies #[trigger] ns2[j] == if whole {
        ns[if j < i { j } else { j + 1 }]
    } else if j == i {
        FreeNode { addr: (n.addr + g.size) as usize, size: (n.size - g.size) as usize }
    } else {
        ns[j]
    } by {}
    assert forall|j: int| 0 <= j < ns.len() && j != i implies disjoint(
        (#[trigger] ns[j]).addr as int,
        ns[j].size as int,
        n.addr as int,
        n.size as int,
    ) by {
        if j < i {
            assert(ns[j].addr + ns[j].size <= ns[i].addr);
        } else {
            assert(ns[i].addr + ns[i].size <= ns[j].addr);
        }
    }
    assert forall|a: int, b: int| 0 <= a < b < ns2.len() implies if strict {
        (#[trigger] ns2[a]).addr + ns2[a].size < (#[trigger] ns2[b]).addr
    } else {
        ns2[a].addr + ns2[a].size <= ns2[b].addr
    } by {
        if whole {
            let oa = if a < i { a } else { a + 1 };
            let ob = if b < i { b } else { b + 1 };
            assert(ns2[a] == ns[oa] && ns2[b] == ns[ob]);
            assert(oa < ob);
        } else {
            assert(ns[a].addr + ns[a].size <= ns[b].addr);
            if strict {
                assert(ns[a].addr + ns[a].size < ns[b].addr);
            }
        }
    }
    assert(ordered(ns2, false));
    assert forall|j: int| 0 <= j < ns2.len() implies node_in(#[trigger] ns2[j], base, max) by {
        if whole {
            assert(node_in(ns[if j < i { j } else { j + 1 }], base, max));
        } else if j != i {
            assert(node_in(ns[j], base, max));
        } else {
            assert(node_in(ns[i], base, max));
        }
    }
    assert forall|k: int| 0 <= k < gs2.len() implies grant_in(#[trigger] gs2[k], base, max) by {
        if k < gs.len() {
            assert(gs2[k] == gs[k]);
        } else {
            assert(node_in(ns[i], base, max));
        }
    }
    assert forall|j: int, k: int| 0 <= j < ns2.len() && 0 <= k < gs2.len() implies disjoint(
        (#[trigger] ns2[j]).addr as int,
        ns2[j].size as int,
        (#[trigger] gs2[k]).addr as int,
        gs2[k].size as int,
    ) by {
        let oj = if whole && j >= i { j + 1 } else { j };
        if k < gs.len() {
            assert(gs2[k] == gs[k]);
            assert(disjoint(ns[oj].addr as int, ns[oj].size as int, gs[k].addr as int, gs[k].size as int));
        } else {
            assert(gs2[k] == g);
            if oj != i {
                assert(disjoint(ns[oj].addr as int, ns[oj].size as int, n.addr as int, n.size as int));
            }
        }
    }
    assert forall|k1: int, k2: int| 0 <= k1 < gs2.len() && 0 <= k2 < gs2.len() && k1 != k2 implies disjoint(
        (#[trigger] gs2[k1]).addr as int,
        gs2[k1].size as int,
        (#[trigger] gs2[k2]).addr as int,
        gs2[k2].size as int,
    ) by {
        if k1 == gs.len() {
            assert(disjoint(n.addr as int, n.size as int, gs[k2].addr as int, gs[k2].size as int));
        } else if k2 == gs.len() {
            assert(disjoint(n.addr as int, n.size as int, gs[k1].addr as int, gs[k1].size as int));
        } else {
            assert(gs2[k1] == gs[k1] && gs2[k2] == gs[k2]);
        }
    }
    if whole {
        assert(node_sizes(ns2) =~= node_sizes(ns).remove(i));
        lemma_sum_remove(node_sizes(ns), i);
    } else {
        assert(node_sizes(ns2) =~= node_sizes(ns).update(i, n.size - g.size));
        lemma_sum_update(node_sizes(ns), i, n.size - g.size);
    }
    assert(grant_sizes(gs2) =~= grant_sizes(gs).push(g.size as int));
    lemma_sum_push(grant_sizes(gs), g.size as int);
}

/// Giving back grant `k` as a free interval at its place in address order.
proof fn lemma_insert_node(
    base: nat,
    max: nat,
    ns: Seq<FreeNode>,
    gs: Seq<Grant>,
    k: int,
    p: int,
)
    requires
        heap_ok(base, max, false, ns, gs),
        0 <= k < gs.len(),
        0 <= p <= ns.len(),
        forall|t: int| 0 <= t < p ==> (#[trigger] ns[t]).addr < gs[k].addr,
        forall|t: int| p <= t < ns.len() ==> (#[trigger] ns[t]).addr > gs[k].addr,
    ensures
        heap_ok(
            base,
            max,
            false,
            ns.insert(p, FreeNode { addr: gs[k].addr, size: gs[k].size }),
            gs.remove(k),
        ),
{
    let g = gs[k];
    let x = FreeNode { addr: g.addr, size: g.size };
    let ns2 = ns.insert(p, x);
    let gs2 = gs.remove(k);
    assert forall|j: int| 0 <= j < ns2.len() implies #[trigger] ns2[j] == if j < p {
        ns[j]
    } else if j == p {
        x
    } else {
        ns[j - 1]
    } by {}
    assert forall|m: int| 0 <= m < gs2.len() implies #[trigger] gs2[m] == gs[if m < k { m } else { m + 1 }] by {}
    assert forall|t: int| 0 <= t < ns.len() implies disjoint(
        (#[trigger] ns[t]).addr as int,
        ns[t].size as int,
        g.addr as int,
        g.size as int,
    ) by {}
    assert forall|a: int, b: int| 0 <= a < b < ns2.len() implies (#[trigger] ns2[a]).addr + ns2[a].size
        <= (#[trigger] ns2[b]).addr by {
        let oa = if a < p { a } else { a - 1 };
        let ob = if b < p { b } else { b - 1 };
        if a != p && b != p {
            assert(ns[oa].addr + ns[oa].size <= ns[ob].addr);
        } else if a == p {
            assert(ns[ob].addr > g.addr);
        } else {
            assert(ns[oa].addr < g.addr);
        }
    }
    assert forall|j: int| 0 <= j < ns2.len() implies node_in(#[trigger] ns2[j], base, max) by {
        if j < p {
            assert(node_in(ns[j], base, max));
        } else if j > p {
            assert(node_in(ns[j - 1], base, max));
        } else {
            assert(grant_in(gs[k], base, max));
        }
    }
    assert forall|m: int| 0 <= m < gs2.len() implies grant_in(#[trigger] gs2[m], base, max) by {
        assert(grant_in(gs[if m < k { m } else { m + 1 }], base, max));
    }
    assert forall|j: int, m: int| 0 <= j < ns2.len() && 0 <= m < gs2.len() implies disjoint(
        (#[trigger] ns2[j]).addr as int,
        ns2[j].size as int,
        (#[trigger] gs2[m]).addr as int,
        gs2[m].size as int,
    ) by {
        let om = if m < k { m } else { m + 1 };
        if j < p {
            assert(disjoint(ns[j].addr as int, ns[j].size as int, gs[om].addr as int, gs[om].size as int));
        } else if j > p {
            assert(disjoint(ns[j - 1].addr as int, ns[j - 1].size as int, gs[om].addr as int, gs[om].size as int));
        } else {
            assert(disjoint(gs[k].addr as int, gs[k].size as int, gs[om].addr as int, gs[om].size as int));
        }
    }
    assert forall|k1: int, k2: int| 0 <= k1 < gs2.len() && 0 <= k2 < gs2.len() && k1 != k2 implies disjoint(
        (#[trigger] gs2[k1]).addr as int,
        gs2[k1].size as int,
        (#[trigger] gs2[k2]).addr as int,
        gs2[k2].size as int,
    ) by {
        let o1 = if k1 < k { k1 } else { k1 + 1 };
        let o2 = if k2 < k { k2 } else { k2 + 1 };
        assert(disjoint(gs[o1].addr as int, gs[o1].size as int, gs[o2].addr as int, gs[o2].size as int));
    }
    assert(node_sizes(ns2) =~= node_sizes(ns).insert(p, g.size as int));
    lemma_sum_insert(node_sizes(ns), p, g.size as int);
    assert(grant_sizes(gs2) =~= grant_sizes(gs).remove(k));
    lemma_sum_remove(grant_sizes(gs), k);
}

proof fn lemma_sum_insert(s: Seq<int>, p: int, v: int)
    requires
        0 <= p <= s.len(),
    ensures
        sum(s.insert(p, v)) == sum(s) + v,
{
    let t = s.insert(p, v);
    assert(t.remove(p) =~= s);
    lemma_sum_remove(t, p);
}

/// `ns` with each run of address-adjacent intervals merged into one.
pub open spec fn merge_runs(ns: Seq<FreeNode>) -> Seq<FreeNode>
    decreases ns.len(),
{
    if ns.len() <= 1 {
        ns
    } else {
        let r = merge_runs(ns.drop_last());
        let x = ns.last();
        if r.len() > 0 && r.last().addr + r.last().size == x.addr {
            r.drop_last().push(FreeNode { addr: r.last().addr, size: (r.last().size + x.size) as usize })
        } else {
            r.push(x)
        }
    }
}

/// Index `p` is where an interval at `addr` goes to keep `ns` in address order.
pub open spec fn placed_at(ns: Seq<FreeNode>, p: int, addr: usize) -> bool {
    &&& 0 <= p <= ns.len()
    &&& forall|t: int| 0 <= t < p ==> (#[trigger] ns[t]).addr < addr
    &&& forall|t: int| p <= t < ns.len() ==> (#[trigger] ns[t]).addr > addr
}

/// Rounding never shrinks a request.
pub proof fn lemma_rounded_ge(x: nat, a: nat)
    ensures
        rounded(x, a) >= x,
{
}

/// A rounded request fits in `m` units exactly when the request is at most
/// the largest multiple of `a` in `m`.
proof fn lemma_round_fits(x: nat, a: nat, m: nat)
    requires
        a > 1,
    ensures
        rounded(x, a) <= m <==> x <= (m / a) * a,
{
    let q = x / a;
    let r = x % a;
    let qq = m / a;
    let rr = m % a;
    lemma_fundamental_div_mod(x as int, a as int);
    lemma_fundamental_div_mod(m as int, a as int);
    assert(x == a * q + r);
    assert(m == a * qq + rr);
    assert(0 <= r < a && 0 <= rr < a);
    if r == 0 {
        assert(rounded(x, a) == x);
        if q <= qq {
            assert(a * q <= a * qq) by (nonlinear_arith) requires q <= qq, a > 1;
        } else {
            assert(a * q >= a * qq + a) by (nonlinear_arith) requires q >= qq + 1, a > 1;
        }
    } else {
        assert(rounded(x, a) == a * q + a);
        if q < qq {
            assert(a * q + a <= a * qq) by (nonlinear_arith) requires q + 1 <= qq, a > 1;
        } else {
            assert(a * q >= a * qq) by (nonlinear_arith) requires q >= qq, a > 1;
        }
    }
    assert((m / a) * a == a * qq) by (nonlinear_arith) requires qq == m / a;
}

/// An address-ordered free-list allocator over `[base, base + max_size)`.
#[derive(Debug, Clone)]
pub struct FreeList {
    base: usize,
    max_size: usize,
    align: usize,
    policy: Policy,
    coalesce: bool,
    freelist: Vec<FreeNode>,
    sizemap: Vec<Grant>,
}

impl FreeList {
    pub closed spec fn base(&self) -> nat {
        self.base as nat
    }

    pub closed spec fn capacity(&self) -> nat {
        self.max_size as nat
    }

    pub closed spec fn alignment(&self) -> nat {
        self.align as nat
    }

    pub closed spec fn selection(&self) -> Policy {
        self.policy
    }

    pub closed spec fn coalescing(&self) -> bool {
        self.coalesce
    }

    /// The free intervals, in address order.
    pub closed spec fn nodes(&self) -> Seq<FreeNode> {
        self.freelist@
    }

    /// The live grants, oldest first.
    pub closed spec fn grants(&self) -> Seq<Grant> {
        self.sizemap@
    }

    pub closed spec fn wf(&self) -> bool {
        heap_ok(self.base as nat, self.max_size as nat, self.coalesce, self.freelist@, self.sizemap@)
    }

    pub closed spec fn free_total(&self) -> int {
        sum(node_sizes(self.freelist@))
    }

    pub closed spec fn granted_total(&self) -> int {
        sum(grant_sizes(self.sizemap@))
    }

    pub closed spec fn padding_total(&self) -> int {
        sum(grant_pads(self.sizemap@))
    }

    pub open spec fn is_allocated(&self, ptr: usize) -> bool {
        exists|k: int| 0 <= k < self.grants().len() && (#[trigger] self.grants()[k]).addr == ptr
    }

    /// The live grant at `ptr`, where there is one.
    pub open spec fn grant_at(&self, ptr: usize) -> Grant {
        self.grants()[choose|k: int| 0 <= k < self.grants().len() && (#[trigger] self.grants()[k]).addr == ptr]
    }

    /// Some free interval holds a request of `size` after rounding.
    pub open spec fn fits(&self, size: nat) -> bool {
        exists|i: int|
            0 <= i < self.nodes().len() && rounded(size, self.alignment()) <= (#[trigger] self.nodes()[i]).size
    }

    /// Interval `i` is the one the policy picks for a request of `size` units.
    pub open spec fn picks(&self, size: nat, i: int) -> bool {
        let ns = self.nodes();
        &&& 0 <= i < ns.len()
        &&& size <= ns[i].size
        &&& match self.selection() {
            Policy::First => forall|t: int| 0 <= t < i ==> (#[trigger] ns[t]).size < size,
            Policy::Best => forall|t: int|
                0 <= t < ns.len() && size <= (#[trigger] ns[t]).size ==> ns[i].size < ns[t].size || (
                ns[i].size == ns[t].size && i <= t),
        }
    }

    /// `post` is `self` after granting `s` units, the rounded form of a
    /// request of `size`, from the start of interval `i` at address `a`.
    pub open spec fn carved(&self, post: &Self, s: nat, size: nat, i: int, a: usize) -> bool {
        let n = self.nodes()[i];
        &&& self.picks(s, i)
        &&& a == n.addr
        &&& post.grants() == self.grants().push(Grant { addr: a, size: s as usize, padding: (s - size) as usize })
        &&& post.nodes() == if s == n.size {
            self.nodes().remove(i)
        } else {
            self.nodes().update(i, FreeNode { addr: (n.addr + s) as usize, size: (n.size - s) as usize })
        }
        &&& !self.is_allocated(a)
        &&& post.free_total() == self.free_total() - s
        &&& post.granted_total() == self.granted_total() + s
        &&& post.padding_total() == self.padding_total() + (s - size)
    }

    /// `post` is `self` after granting the block at `a` for a request of `size`.
    pub open spec fn granted(&self, post: &Self, size: nat, a: usize) -> bool {
        exists|i: int| #[trigger] self.carved(post, rounded(size, self.alignment()), size, i, a)
    }

    /// `post` is `self` after the grant at index `k`, at address `ptr`, was
    /// given back as a free interval at its place in address order, merged
    /// with the intervals it touches when coalescing is on.
    pub open spec fn freed(&self, post: &Self, ptr: usize, k: int) -> bool {
        let g = self.grants()[k];
        &&& 0 <= k < self.grants().len()
        &&& g.addr == ptr
        &&& post.grants() == self.grants().remove(k)
        &&& post.free_total() == self.free_total() + g.size
        &&& post.granted_total() == self.granted_total() - g.size
        &&& post.padding_total() == self.padding_total() - g.padding
        &&& exists|p: int|
            #[trigger] placed_at(self.nodes(), p, ptr) && post.nodes() == if self.coalescing() {
                merge_runs(self.nodes().insert(p, FreeNode { addr: ptr, size: g.size }))
            } else {
                self.nodes().insert(p, FreeNode { addr: ptr, size: g.size })
            }
    }

    /// One free interval covering the heap; best fit, no alignment.
    pub fn new(base_addr: usize, max_size: usize, coalesce: bool) -> (l: FreeList)
        requires
            max_size > 0,
            base_addr + max_size <= usize::MAX,
        ensures
            l.wf(),
            l.base() == base_addr,
            l.capacity() == max_size,
            l.alignment() == 0,
            l.selection() == Policy::Best,
            l.coalescing() == coalesce,
            l.nodes() == seq![FreeNode { addr: base_addr, size: max_size }],
            l.grants() == Seq::<Grant>::empty(),
            l.free_total() == max_size,
            l.granted_total() == 0,
            l.padding_total() == 0,
    {
        let mut freelist: Vec<FreeNode> = Vec::new();
        freelist.push(FreeNode::new(base_addr, max_size));
        let l = FreeList {
            base: base_addr,
            max_size,
            align: 0,
            policy: Policy::Best,
            coalesce,
            freelist,
            sizemap: Vec::new(),
        };
        proof {
            assert(l.freelist@ =~= seq![FreeNode { addr: base_addr, size: max_size }]);
            assert(node_sizes(l.freelist@) =~= seq![max_size as int]);
            assert(node_sizes(l.freelist@) =~= Seq::<int>::empty().push(max_size as int));
            lemma_sum_push(Seq::<int>::empty(), max_size as int);
            assert(grant_sizes(l.sizemap@) =~= Seq::<int>::empty());
            assert(grant_pads(l.sizemap@) =~= Seq::<int>::empty());
        }
        l
    }

    /// Sets the granularity that requests are rounded up to; at most 1 rounds nothing.
    pub fn align(self, align: usize) -> (l: FreeList)
        requires
            self.wf(),
        ensures
            l.wf(),
            l.alignment() == align,
            l.base() == self.base(),
            l.capacity() == self.capacity(),
            l.selection() == self.selection(),
            l.coalescing() == self.coalescing(),
            l.nodes() == self.nodes(),
            l.grants() == self.grants(),
    {
        let mut l = self;
        l.align = align;
        l
    }

    /// Sets the rule that picks a free interval.
    pub fn policy(self, policy: Policy) -> (l: FreeList)
        requires
            self.wf(),
        ensures
            l.wf(),
            l.selection() == policy,
            l.alignment() == self.alignment(),
            l.base() == self.base(),
            l.capacity() == self.capacity(),
            l.coalescing() == self.coalescing(),
            l.nodes() == self.nodes(),
            l.grants() == self.grants(),
    {
        let mut l = self;
        l.policy = policy;
        l
    }

    /// The smallest interval that holds `size`, the first of equal ones.
    fn best(&self, size: usize) -> (r: Option<usize>)
        ensures
            r is None ==> forall|t: int| 0 <= t < self.freelist@.len() ==> (#[trigger] self.freelist@[t]).size < size,
            r matches Some(i) ==> i < self.freelist@.len() && size <= self.freelist@[i as int].size
                && forall|t: int|
                0 <= t < self.freelist@.len() && size <= (#[trigger] self.freelist@[t]).size ==> self.freelist@[i as int].size
                    < self.freelist@[t].size || (self.freelist@[i as int].size == self.freelist@[t].size && i <= t),
    {
        let mut idx: Option<usize> = None;
        let mut bestsize: usize = 0;
        let mut i: usize = 0;
        while i < self.freelist.len()
            invariant
                i <= self.freelist@.len(),
                idx is None ==> forall|t: int| 0 <= t < i ==> (#[trigger] self.freelist@[t]).size < size,
                idx matches Some(b) ==> b < i && bestsize == self.freelist@[b as int].size && size <= bestsize
                    && forall|t: int|
                    0 <= t < i && size <= (#[trigger] self.freelist@[t]).size ==> bestsize < self.freelist@[t].size
                        || (bestsize == self.freelist@[t].size && b <= t),
            decreases self.freelist@.len() - i,
        {
            let node = self.freelist[i];
            if size <= node.size && (idx.is_none() || node.size < bestsize) {
                idx = Some(i);
                bestsize = node.size;
            }
            i += 1;
        }
        idx
    }

    /// The first interval that holds `size`.
    fn first(&self, size: usize) -> (r: Option<usize>)
        ensures
            r is None ==> forall|t: int| 0 <= t < self.freelist@.len() ==> (#[trigger] self.freelist@[t]).size < size,
            r matches Some(i) ==> i < self.freelist@.len() && size <= self.freelist@[i as int].size
                && forall|t: int| 0 <= t < i ==> (#[trigger] self.freelist@[t]).size < size,
    {
        let mut i: usize = 0;
        while i < self.freelist.len()
            invariant
                i <= self.freelist@.len(),
                forall|t: int| 0 <= t < i ==> (#[trigger] self.freelist@[t]).size < size,
            decreases self.freelist@.len() - i,
        {
            if size <= self.freelist[i].size {
                return Some(i);
            }
            i += 1;
        }
        None
    }

    /// `size` rounded up to the alignment, or `None` where that leaves the
    /// address width.
    fn round(&self, size: usize) -> (r: Option<(usize, usize)>)
        ensures
            r is None ==> rounded(size as nat, self.align as nat) > usize::MAX,
            r matches Some((s, d)) ==> s == rounded(size as nat, self.align as nat) && d == s - size,
    {
        if self.align > 1 {
            let left = size % self.align;
            if left != 0 {
                let diff = self.align - left;
                if size > usize::MAX - diff {
                    return None;
                }
                return Some((size + diff, diff));
            }
        }
        Some((size, 0))
    }

    /// Whether `malloc(size)` would succeed now.
    pub fn check_size(&self, size: usize) -> (r: bool)
        requires
            self.wf(),
        ensures
            r == self.fits(size as nat),
    {
        match self.round(size) {
            None => {
                proof {
                    assert forall|i: int| 0 <= i < self.nodes().len() implies !(rounded(size as nat, self.alignment())
                        <= #[trigger] self.nodes()[i].size) by {}
                }
                false
            },
            Some((s, _)) => {
                let idx = match self.policy {
                    Policy::Best => self.best(s),
                    Policy::First => self.first(s),
                };
                proof {
                    if let Some(i) = idx {
                        assert(self.nodes()[i as int].size >= s);
                    }
                }
                idx.is_some()
            },
        }
    }

    /// Grants the start of the interval that the policy picks for `size`,
    /// rounded up to the alignment.
    pub fn malloc(&mut self, size: usize) -> (r: Option<usize>)
        requires
            old(self).wf(),
            size > 0,
        ensures
            final(self).wf(),
            final(self).base() == old(self).base(),
            final(self).capacity() == old(self).capacity(),
            final(self).alignment() == old(self).alignment(),
            final(self).selection() == old(self).selection(),
            final(self).coalescing() == old(self).coalescing(),
            r is None <==> !old(self).fits(size as nat),
            r is None ==> *final(self) == *old(self),
            r matches Some(a) ==> old(self).granted(final(self), size as nat, a),
    {
        let ghost pre = *self;
        let (s, diff) = match self.round(size) {
            None => {
                proof {
                    assert forall|i: int| 0 <= i < self.nodes().len() implies !(rounded(size as nat, self.alignment())
                        <= #[trigger] self.nodes()[i].size) by {}
                }
                return None;
            },
            Some(sd) => sd,
        };
        let idx = match self.policy {
            Policy::Best => self.best(s),
            Policy::First => self.first(s),
        };
        match idx {
            None => {
                proof {
                    assert forall|i: int| 0 <= i < self.nodes().len() implies !(rounded(size as nat, self.alignment())
                        <= #[trigger] self.nodes()[i].size) by {
                        assert(self.freelist@[i] == self.nodes()[i]);
                    }
                }
                None
            },
            Some(i) => {
                let node = self.freelist[i];
                let g = Grant { addr: node.addr, size: s, padding: diff };
                proof {
                    assert(pre.nodes()[i as int].size >= s);
                }
                self.sizemap.push(g);
                if s == node.size {
                    self.freelist.remove(i);
                } else {
                    self.freelist.set(i, FreeNode::new(node.addr + s, node.size - s));
                }
                proof {
                    lemma_take_node(
                        pre.base as nat,
                        pre.max_size as nat,
                        pre.coalesce,
                        pre.freelist@,
                        pre.sizemap@,
                        i as int,
                        g,
                        self.freelist@,
                    );
                    assert(self.freelist@ =~= if s == node.size {
                        pre.freelist@.remove(i as int)
                    } else {
                        pre.freelist@.update(i as int, FreeNode { addr: (node.addr + s) as usize, size: (node.size - s) as usize })
                    });
                    assert(pre.picks(s as nat, i as int));
                    let gs2 = self.sizemap@;
                    let last = pre.sizemap@.len() as int;
                    assert(gs2[last] == g);
                    assert forall|t: int| 0 <= t < pre.grants().len() implies (#[trigger] pre.grants()[t]).addr != node.addr by {
                        assert(gs2[t] == pre.sizemap@[t]);
                        assert(disjoint(gs2[t].addr as int, gs2[t].size as int, gs2[last].addr as int, gs2[last].size as int));
                        assert(grant_in(gs2[t], pre.base as nat, pre.max_size as nat));
                    }
                    assert(grant_sizes(gs2) =~= grant_sizes(pre.sizemap@).push(s as int));
                    lemma_sum_push(grant_sizes(pre.sizemap@), s as int);
                    assert(grant_pads(gs2) =~= grant_pads(pre.sizemap@).push(diff as int));
                    lemma_sum_push(grant_pads(pre.sizemap@), diff as int);
                    assert(pre.carved(self, s as nat, size as nat, i as int, node.addr));
                    assert(s as nat == rounded(size as nat, pre.alignment()));
                    assert(pre.carved(self, rounded(size as nat, pre.alignment()), size as nat, i as int, node.addr));
                    assert(pre.granted(self, size as nat, node.addr));
                }
                Some(node.addr)
            },
        }
    }

    /// Merges each run of address-adjacent free intervals into one.
    fn coalesce(&mut self)
        requires
            heap_ok(old(self).base as nat, old(self).max_size as nat, false, old(self).freelist@, old(self).sizemap@),
            old(self).freelist@.len() > 0,
        ensures
            heap_ok(final(self).base as nat, final(self).max_size as nat, true, final(self).freelist@, final(self).sizemap@),
            final(self).base == old(self).base,
            final(self).max_size == old(self).max_size,
            final(self).align == old(self).align,
            final(self).policy == old(self).policy,
            final(self).coalesce == old(self).coalesce,
            final(self).sizemap@ == old(self).sizemap@,
            final(self).freelist@ == merge_runs(old(self).freelist@),
    {
        let ghost ls = self.freelist@;
        let ghost gs = self.sizemap@;
        let ghost base = self.base as nat;
        let ghost max = self.max_size as nat;
        let mut newlist: Vec<FreeNode> = Vec::new();
        let mut curr = self.freelist[0];
        proof {
            assert(node_sizes(ls).take(1) =~= Seq::<int>::empty().push(curr.size as int));
            lemma_sum_push(Seq::<int>::empty(), curr.size as int);
            assert(node_in(ls[0], base, max));
            assert(ls.take(1) =~= seq![curr]);
            assert(newlist@.push(curr) =~= merge_runs(ls.take(1)));
            assert forall|k: int| 0 <= k < gs.len() implies disjoint(
                curr.addr as int,
                curr.size as int,
                (#[trigger] gs[k]).addr as int,
                gs[k].size as int,
            ) by {
                assert(disjoint(ls[0].addr as int, ls[0].size as int, gs[k].addr as int, gs[k].size as int));
            }
        }
        let mut i: usize = 1;
        while i < self.freelist.len()
            invariant
                self.freelist@ == ls,
                self.sizemap@ == gs,
                base == self.base,
                max == self.max_size,
                heap_ok(base, max, false, ls, gs),
                1 <= i <= ls.len(),
                ordered(newlist@, true),
                nodes_in(newlist@, base, max),
                node_in(curr, base, max),
                forall|a: int| 0 <= a < newlist@.len() ==> (#[trigger] newlist@[a]).addr + newlist@[a].size < curr.addr,
                curr.addr + curr.size == ls[i - 1].addr + ls[i - 1].size,
                cross_disjoint(newlist@, gs),
                forall|k: int| 0 <= k < gs.len() ==> disjoint(
                    curr.addr as int,
                    curr.size as int,
                    (#[trigger] gs[k]).addr as int,
                    gs[k].size as int,
                ),
                sum(node_sizes(newlist@)) + curr.size == sum(node_sizes(ls).take(i as int)),
                newlist@.push(curr) == merge_runs(ls.take(i as int)),
            decreases ls.len() - i,
        {
            let node = self.freelist[i];
            proof {
                assert(ls[i - 1].addr + ls[i - 1].size <= ls[i as int].addr);
                assert(node_in(ls[i as int], base, max));
                lemma_sum_take_next(node_sizes(ls), i as int);
                assert(ls.take(i + 1).drop_last() =~= ls.take(i as int));
                assert(ls.take(i + 1).last() == node);
                assert(newlist@.push(curr).drop_last() =~= newlist@);
            }
            let ghost prev = curr;
            let ghost nl_prev = newlist@;
            if node.addr == curr.addr + curr.size {
                curr = FreeNode::new(curr.addr, curr.size + node.size);
                proof {
                    assert forall|k: int| 0 <= k < gs.len() implies disjoint(
                        curr.addr as int,
                        curr.size as int,
                        (#[trigger] gs[k]).addr as int,
                        gs[k].size as int,
                    ) by {
                        assert(disjoint(ls[i as int].addr as int, ls[i as int].size as int, gs[k].addr as int, gs[k].size as int));
                    }
                }
            } else {
                let ghost nl0 = newlist@;
                newlist.push(curr);
                proof {
                    assert(node_sizes(newlist@) =~= node_sizes(nl0).push(curr.size as int));
                    lemma_sum_push(node_sizes(nl0), curr.size as int);
                    assert forall|a: int, b: int| 0 <= a < b < newlist@.len() implies (#[trigger] newlist@[a]).addr
                        + newlist@[a].size < (#[trigger] newlist@[b]).addr by {
                        if b < nl0.len() {
                            assert(nl0[a] == newlist@[a] && nl0[b] == newlist@[b]);
                        } else {
                            assert(nl0[a] == newlist@[a]);
                        }
                    }
                    assert forall|a: int, k: int| 0 <= a < newlist@.len() && 0 <= k < gs.len() implies disjoint(
                        (#[trigger] newlist@[a]).addr as int,
                        newlist@[a].size as int,
                        (#[trigger] gs[k]).addr as int,
                        gs[k].size as int,
                    ) by {
                        if a < nl0.len() {
                            assert(nl0[a] == newlist@[a]);
                        }
                    }
                    assert forall|a: int| 0 <= a < newlist@.len() implies node_in(#[trigger] newlist@[a], base, max) by {
                        if a < nl0.len() {
                            assert(nl0[a] == newlist@[a]);
                        }
                    }
                    assert forall|a: int| 0 <= a < newlist@.len() implies (#[trigger] newlist@[a]).addr
                        + newlist@[a].size < node.addr by {
                        if a < nl0.len() {
                            assert(nl0[a] == newlist@[a]);
                        }
                    }
                }
                curr = node;
                proof {
                    assert forall|k: int| 0 <= k < gs.len() implies disjoint(
                        curr.addr as int,
                        curr.size as int,
                        (#[trigger] gs[k]).addr as int,
                        gs[k].size as int,
                    ) by {
                        assert(disjoint(ls[i as int].addr as int, ls[i as int].size as int, gs[k].addr as int, gs[k].size as int));
                    }
                }
            }
            proof {
                let r = nl_prev.push(prev);
                assert(merge_runs(ls.take(i + 1)) == if r.len() > 0 && r.last().addr + r.last().size == node.addr {
                    r.drop_last().push(FreeNode { addr: r.last().addr, size: (r.last().size + node.size) as usize })
                } else {
                    r.push(node)
                });
                assert(newlist@.push(curr) =~= merge_runs(ls.take(i + 1)));
            }
            i += 1;
        }
        let ghost nl0 = newlist@;
        newlist.push(curr);
        proof {
            assert(node_sizes(newlist@) =~= node_sizes(nl0).push(curr.size as int));
            lemma_sum_push(node_sizes(nl0), curr.size as int);
            assert(node_sizes(ls).take(ls.len() as int) =~= node_sizes(ls));
            assert(ls.take(ls.len() as int) =~= ls);
            assert forall|a: int, b: int| 0 <= a < b < newlist@.len() implies (#[trigger] newlist@[a]).addr
                + newlist@[a].size < (#[trigger] newlist@[b]).addr by {
                if b < nl0.len() {
                    assert(nl0[a] == newlist@[a] && nl0[b] == newlist@[b]);
                } else {
                    assert(nl0[a] == newlist@[a]);
                }
            }
            assert forall|a: int, b: int| 0 <= a < b < newlist@.len() implies (#[trigger] newlist@[a]).addr
                + newlist@[a].size <= (#[trigger] newlist@[b]).addr by {
                assert(newlist@[a].addr + newlist@[a].size < newlist@[b].addr);
            }
            assert forall|a: int, k: int| 0 <= a < newlist@.len() && 0 <= k < gs.len() implies disjoint(
                (#[trigger] newlist@[a]).addr as int,
                newlist@[a].size as int,
                (#[trigger] gs[k]).addr as int,
                gs[k].size as int,
            ) by {
                if a < nl0.len() {
                    assert(nl0[a] == newlist@[a]);
                }
            }
            assert forall|a: int| 0 <= a < newlist@.len() implies node_in(#[trigger] newlist@[a], base, max) by {
                if a < nl0.len() {
                    assert(nl0[a] == newlist@[a]);
                }
            }
        }
        self.freelist = newlist;
    }

    /// A copy of the free intervals, in address order.
    pub fn free_nodes(&self) -> (r: Vec<FreeNode>)
        ensures
            r@ == self.nodes(),
    {
        let mut v: Vec<FreeNode> = Vec::new();
        let mut j: usize = 0;
        while j < self.freelist.len()
            invariant
                j <= self.freelist@.len(),
                v@ == self.freelist@.take(j as int),
            decreases self.freelist@.len() - j,
        {
            v.push(self.freelist[j]);
            j += 1;
            proof {
                assert(v@ =~= self.freelist@.take(j as int));
            }
        }
        proof {
            assert(self.freelist@.take(j as int) =~= self.freelist@);
        }
        v
    }

    /// Gives back the interval granted at `ptr`; with coalescing on, merges
    /// it with the free intervals beside it.
    pub fn free(&mut self, ptr: usize) -> (r: Result<(), &'static str>)
        requires
            old(self).wf(),
        ensures
            final(self).wf(),
            final(self).base() == old(self).base(),
            final(self).capacity() == old(self).capacity(),
            final(self).alignment() == old(self).alignment(),
            final(self).selection() == old(self).selection(),
            final(self).coalescing() == old(self).coalescing(),
            r is Ok <==> old(self).is_allocated(ptr),
            r is Err ==> *final(self) == *old(self),
            r is Ok ==> exists|k: int| #[trigger] old(self).freed(final(self), ptr, k),
            r is Ok ==> !final(self).is_allocated(ptr),
    {
        let ghost pre = *self;
        let mut k: usize = 0;
        while k < self.sizemap.len() && self.sizemap[k].addr != ptr
            invariant
                *self == pre,
                k <= self.sizemap@.len(),
                forall|t: int| 0 <= t < k ==> (#[trigger] self.sizemap@[t]).addr != ptr,
            decreases self.sizemap@.len() - k,
        {
            k += 1;
        }
        if k == self.sizemap.len() {
            proof {
                assert forall|t: int| 0 <= t < pre.grants().len() implies (#[trigger] pre.grants()[t]).addr != ptr by {
                    assert(pre.grants()[t] == self.sizemap@[t]);
                }
            }
            return Err("Pointer not found");
        }
        let g = self.sizemap.remove(k);
        let mut p: usize = 0;
        while p < self.freelist.len() && self.freelist[p].addr < ptr
            invariant
                self.freelist@ == pre.freelist@,
                p <= self.freelist@.len(),
                forall|t: int| 0 <= t < p ==> (#[trigger] self.freelist@[t]).addr < ptr,
            decreases self.freelist@.len() - p,
        {
            p += 1;
        }
        proof {
            let ns = pre.freelist@;
            let gs = pre.sizemap@;
            assert(gs[k as int] == g);
            assert(grant_in(g, pre.base as nat, pre.max_size as nat));
            assert forall|t: int| p <= t < ns.len() implies (#[trigger] ns[t]).addr > ptr by {
                assert(disjoint(ns[p as int].addr as int, ns[p as int].size as int, g.addr as int, g.size as int));
                assert(node_in(ns[p as int], pre.base as nat, pre.max_size as nat));
                if t > p {
                    assert(ns[p as int].addr + ns[p as int].size <= ns[t].addr);
                }
            }
            assert(placed_at(ns, p as int, ptr));
            lemma_insert_node(pre.base as nat, pre.max_size as nat, ns, gs, k as int, p as int);
            assert forall|t: int| 0 <= t < gs.len() && t != k implies (#[trigger] gs[t]).addr != ptr by {
                assert(disjoint(gs[t].addr as int, gs[t].size as int, g.addr as int, g.size as int));
                assert(grant_in(gs[t], pre.base as nat, pre.max_size as nat));
            }
        }
        self.freelist.insert(p, FreeNode::new(ptr, g.size));
        if self.coalesce {
            self.coalesce();
        }
        proof {
            let gs = pre.sizemap@;
            assert(grant_sizes(self.sizemap@) =~= grant_sizes(gs).remove(k as int));
            lemma_sum_remove(grant_sizes(gs), k as int);
            assert(grant_pads(self.sizemap@) =~= grant_pads(gs).remove(k as int));
            lemma_sum_remove(grant_pads(gs), k as int);
            assert(placed_at(pre.nodes(), p as int, ptr));
            assert(pre.freed(self, ptr, k as int));
            assert forall|t: int| 0 <= t < self.grants().len() implies (#[trigger] self.grants()[t]).addr != ptr by {
                let o = if t < k { t } else { t + 1 };
                assert(self.grants()[t] == gs[o]);
            }
        }
        Ok(())
    }

    /// The largest request that would succeed now: the longest free
    /// interval, down to a multiple of the alignment.
    pub fn largest_alloc(&self) -> (r: usize)
        requires
            self.wf(),
        ensures
            forall|x: nat| 1 <= x ==> (self.fits(x) <==> x <= r),
            r <= self.free_total(),
    {
        let mut longest: usize = 0;
        let mut i: usize = 0;
        while i < self.freelist.len()
            invariant
                i <= self.freelist@.len(),
                forall|t: int| 0 <= t < i ==> (#[trigger] self.freelist@[t]).size <= longest,
                longest == 0 || exists|t: int| 0 <= t < i && (#[trigger] self.freelist@[t]).size == longest,
            decreases self.freelist@.len() - i,
        {
            if self.freelist[i].size > longest {
                longest = self.freelist[i].size;
            }
            i += 1;
        }
        let r = if self.align > 1 {
            proof {
                let q = longest as int / self.align as int;
                lemma_fundamental_div_mod(longest as int, self.align as int);
                assert(q * self.align <= longest) by (nonlinear_arith)
                    requires longest == self.align * q + longest as int % self.align as int, longest as int % self.align as int >= 0;
            }
            longest / self.align * self.align
        } else {
            longest
        };
        proof {
            assert forall|x: nat| 1 <= x implies (self.fits(x) <==> x <= r) by {
                let a = self.align as nat;
                if a > 1 {
                    lemma_round_fits(x, a, longest as nat);
                }
                if self.fits(x) {
                    let t = choose|t: int| 0 <= t < self.nodes().len() && rounded(x, self.alignment()) <= (#[trigger] self.nodes()[t]).size;
                    assert(self.freelist@[t].size <= longest);
                    if a > 1 {
                        lemma_round_fits(x, a, longest as nat);
                    }
                }
                if x <= r {
                    let t = choose|t: int| 0 <= t < i && (#[trigger] self.freelist@[t]).size == longest;
                    assert(self.nodes()[t].size == longest);
                }
            }
            lemma_sum_nonneg(node_sizes(self.freelist@));
            if longest > 0 {
                let t = choose|t: int| 0 <= t < i && (#[trigger] self.freelist@[t]).size == longest;
                lemma_sum_ge_elem(node_sizes(self.freelist@), t);
            }
        }
        r
    }

    /// Total length of the free intervals.
    pub fn free_space(&self) -> (r: usize)
        requires
            self.wf(),
        ensures
            r == self.free_total(),
    {
        let ghost sizes = node_sizes(self.freelist@);
        proof {
            lemma_sum_nonneg(grant_sizes(self.sizemap@));
            assert(sizes.take(0) =~= Seq::<int>::empty());
        }
        let mut total: usize = 0;
        let mut i: usize = 0;
        while i < self.freelist.len()
            invariant
                self.wf(),
                sizes == node_sizes(self.freelist@),
                sum(sizes) <= usize::MAX,
                i <= self.freelist@.len(),
                total == sum(sizes.take(i as int)),
            decreases self.freelist@.len() - i,
        {
            proof {
                lemma_sum_take_next(sizes, i as int);
                lemma_sum_prefix_le(sizes, i as int + 1);
            }
            total = total + self.freelist[i].size;
            i += 1;
        }
        proof {
            assert(sizes.take(i as int) =~= sizes);
        }
        total
    }

    /// Total length that rounding added to the live grants.
    pub fn internal_frag(&self) -> (r: usize)
        requires
            self.wf(),
        ensures
            r == self.padding_total(),
    {
        let ghost pads = grant_pads(self.sizemap@);
        proof {
            lemma_pads_le(self.sizemap@);
            lemma_sum_nonneg(node_sizes(self.freelist@));
            assert(pads.take(0) =~= Seq::<int>::empty());
        }
        let mut total: usize = 0;
        let mut i: usize = 0;
        while i < self.sizemap.len()
            invariant
                self.wf(),
                pads == grant_pads(self.sizemap@),
                sum(pads) <= usize::MAX,
                i <= self.sizemap@.len(),
                total == sum(pads.take(i as int)),
            decreases self.sizemap@.len() - i,
        {
            proof {
                lemma_sum_take_next(pads, i as int);
                lemma_sum_prefix_le(pads, i as int + 1);
            }
            total = total + self.sizemap[i].padding;
            i += 1;
        }
        proof {
            assert(pads.take(i as int) =~= pads);
        }
        total
    }
}
proof fn lemma_pads_le(gs: Seq<Grant>)
    requires
        forall|k: int| 0 <= k < gs.len() ==> (#[trigger] gs[k]).padding <= gs[k].size,
    ensures
        0 <= sum(grant_pads(gs)) <= sum(grant_sizes(gs)),
    decreases gs.len(),
{
    if gs.len() > 0 {
        let t = gs.drop_last();
        assert forall|k: int| 0 <= k < t.len() implies (#[trigger] t[k]).padding <= t[k].size by {
            assert(t[k] == gs[k]);
        }
        lemma_pads_le(t);
        assert(grant_pads(gs).drop_last() =~= grant_pads(t));
        assert(grant_sizes(gs).drop_last() =~= grant_sizes(t));
        assert(gs[gs.len() - 1] == gs.last());
    }
}

/// The free intervals and the granted intervals together make up the heap:
/// free space plus the granted lengths is the heap size.
pub proof fn lemma_freelist_conservation(l: &FreeList)
    requires
        l.wf(),
    ensures
        l.free_total() + l.granted_total() == l.capacity(),
{
}

/// No two free intervals overlap; with coalescing on, no two touch.
pub proof fn lemma_freelist_disjoint(l: &FreeList)
    requires
        l.wf(),
    ensures
        forall|i: int, j: int|
            0 <= i < l.nodes().len() && 0 <= j < l.nodes().len() && i != j ==> disjoint(
                (#[trigger] l.nodes()[i]).addr as int,
                l.nodes()[i].size as int,
                (#[trigger] l.nodes()[j]).addr as int,
                l.nodes()[j].size as int,
            ),
        l.coalescing() ==> forall|i: int, j: int|
            0 <= i < l.nodes().len() && 0 <= j < l.nodes().len() ==> (#[trigger] l.nodes()[i]).addr
                + l.nodes()[i].size != (#[trigger] l.nodes()[j]).addr,
{
    let ns = l.nodes();
    assert forall|i: int, j: int| 0 <= i < ns.len() && 0 <= j < ns.len() && i != j implies disjoint(
        (#[trigger] ns[i]).addr as int,
        ns[i].size as int,
        (#[trigger] ns[j]).addr as int,
        ns[j].size as int,
    ) by {
        if i < j {
            assert(ns[i].addr + ns[i].size <= ns[j].addr);
        } else {
            assert(ns[j].addr + ns[j].size <= ns[i].addr);
        }
    }
    if l.coalescing() {
        assert forall|i: int, j: int| 0 <= i < ns.len() && 0 <= j < ns.len() implies (#[trigger] ns[i]).addr
            + ns[i].size != (#[trigger] ns[j]).addr by {
            assert(node_in(ns[i], l.base(), l.capacity()));
            assert(node_in(ns[j], l.base(), l.capacity()));
            if i < j {
                assert(ns[i].addr + ns[i].size < ns[j].addr);
            } else if j < i {
                assert(ns[j].addr + ns[j].size < ns[i].addr);
            }
        }
    }
}

/// What the totals are, and what the bookkeeping keeps of the grants: each
/// lies inside the heap and holds its padding; no two grants overlap, and no
/// free interval overlaps a grant.
pub proof fn lemma_freelist_views(l: &FreeList)
    requires
        l.wf(),
    ensures
        l.free_total() == sum(l.nodes().map_values(|n: FreeNode| n.size as int)),
        l.granted_total() == sum(l.grants().map_values(|g: Grant| g.size as int)),
        l.padding_total() == sum(l.grants().map_values(|g: Grant| g.padding as int)),
        l.free_total() + l.granted_total() == l.capacity(),
        l.free_total() >= 0,
        l.granted_total() >= 0,
        0 <= l.padding_total() <= l.granted_total(),
        forall|i: int|
            0 <= i < l.nodes().len() ==> (#[trigger] l.nodes()[i]).size > 0 && l.base() <= l.nodes()[i].addr
                && l.nodes()[i].addr + l.nodes()[i].size <= l.base() + l.capacity(),
        forall|k: int|
            0 <= k < l.grants().len() ==> (#[trigger] l.grants()[k]).size > 0 && l.grants()[k].padding
                <= l.grants()[k].size && l.base() <= l.grants()[k].addr && l.grants()[k].addr
                + l.grants()[k].size <= l.base() + l.capacity(),
        forall|k1: int, k2: int|
            0 <= k1 < l.grants().len() && 0 <= k2 < l.grants().len() && k1 != k2 ==> disjoint(
                (#[trigger] l.grants()[k1]).addr as int,
                l.grants()[k1].size as int,
                (#[trigger] l.grants()[k2]).addr as int,
                l.grants()[k2].size as int,
            ),
        forall|i: int, k: int|
            0 <= i < l.nodes().len() && 0 <= k < l.grants().len() ==> disjoint(
                (#[trigger] l.nodes()[i]).addr as int,
                l.nodes()[i].size as int,
                (#[trigger] l.grants()[k]).addr as int,
                l.grants()[k].size as int,
            ),
{
    lemma_sum_nonneg(node_sizes(l.freelist@));
    lemma_sum_nonneg(grant_sizes(l.sizemap@));
    lemma_pads_le(l.sizemap@);
    assert forall|i: int| 0 <= i < l.nodes().len() implies (#[trigger] l.nodes()[i]).size > 0 && l.base()
        <= l.nodes()[i].addr && l.nodes()[i].addr + l.nodes()[i].size <= l.base() + l.capacity() by {
        assert(node_in(l.freelist@[i], l.base(), l.capacity()));
    }
    assert forall|k: int| 0 <= k < l.grants().len() implies (#[trigger] l.grants()[k]).size > 0
        && l.grants()[k].padding <= l.grants()[k].size && l.base() <= l.grants()[k].addr && l.grants()[k].addr
        + l.grants()[k].size <= l.base() + l.capacity() by {
        assert(grant_in(l.sizemap@[k], l.base(), l.capacity()));
    }
}

} // verus!
