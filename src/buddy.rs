use vstd::prelude::*;
use vstd::arithmetic::power2::{pow2, lemma_pow2_pos, lemma_pow2_unfold, lemma_pow2_strictly_increases};
use vstd::bits::{lemma_usize_shl_is_mul, lemma_usize_pow2_no_overflow, lemma_usize_shr_is_div, lemma_usize_low_bits_mask_is_mod, low_bits_mask};
use vstd::arithmetic::div_mod::{lemma_fundamental_div_mod, lemma_mod_multiples_vanish, lemma_div_multiples_vanish};
use crate::total::{sum, lemma_sum_push, lemma_sum_remove, lemma_sum_update, lemma_sum_prefix_le, lemma_sum_take_next, lemma_sum_nonneg, lemma_sum_ge_elem};

verus! {

/// `a` is a multiple of `2^k`.
pub open spec fn aligned(a: int, k: nat) -> bool {
    a % pow2(k) as int == 0
}

/// The partner of the block at `a` of class `k`: the other half of the block
/// of class `k + 1` that holds it.
pub open spec fn buddy_of(a: int, k: nat) -> int {
    if (a / pow2(k) as int) % 2 == 0 {
        a + pow2(k)
    } else {
        a - pow2(k)
    }
}

/// The lower address of a block and its buddy.
pub open spec fn pair_base(a: int, k: nat) -> int {
    if (a / pow2(k) as int) % 2 == 0 {
        a
    } else {
        a - pow2(k)
    }
}

proof fn lemma_flip_bit(a: usize, k: usize)
    by (bit_vector)
    requires
        (1usize << k) != 0,
        a & (((1usize << k) - 1) as usize) == 0,
    ensures
        (a >> k) % 2 == 0 ==> a ^ (1usize << k) == a + (1usize << k),
        (a >> k) % 2 == 1 ==> a ^ (1usize << k) == a - (1usize << k),
{
}

/// `1 << k` is `2^k` for every `k` below the word size.
pub proof fn lemma_shift_pow2(k: usize)
    requires
        k < usize::BITS,
    ensures
        (1usize << k) as nat == pow2(k as nat),
        pow2(k as nat) <= usize::MAX,
{
    lemma_usize_pow2_no_overflow(k as nat);
    lemma_usize_shl_is_mul(1, k);
}

/// Halves of the block of class `k + 1`: aligned, and the buddy lies beside it.
pub proof fn lemma_pair(a: int, k: nat)
    requires
        a >= 0,
        a % pow2(k) as int == 0,
    ensures
        pair_base(a, k) >= 0,
        pair_base(a, k) % pow2(k + 1) as int == 0,
        buddy_of(a, k) >= 0,
        buddy_of(a, k) % pow2(k) as int == 0,
        pair_base(a, k) == a || pair_base(a, k) == buddy_of(a, k),
        pair_base(a, k) + pow2(k) == a || pair_base(a, k) + pow2(k) == buddy_of(a, k),
        a != buddy_of(a, k),
{
    let p = pow2(k) as int;
    lemma_pow2_pos(k);
    lemma_pow2_unfold(k + 1);
    assert(pow2(k + 1) as int == 2 * p);
    let q = a / p;
    lemma_fundamental_div_mod(a, p);
    assert(a == p * q);
    lemma_fundamental_div_mod(q, 2);
    let h = q / 2;
    if q % 2 == 0 {
        assert(q == 2 * h);
        assert(a == (2 * p) * h) by (nonlinear_arith) requires a == p * q, q == 2 * h;
        lemma_mod_multiples_vanish(h, 0, 2 * p);
        assert(a + p == p * (q + 1)) by (nonlinear_arith) requires a == p * q;
        lemma_mod_multiples_vanish(q + 1, 0, p);
        assert((a + p) % p == 0);
    } else {
        assert(q == 2 * h + 1);
        assert(a - p == (2 * p) * h) by (nonlinear_arith) requires a == p * q, q == 2 * h + 1;
        lemma_mod_multiples_vanish(h, 0, 2 * p);
        assert(a - p == p * (q - 1)) by (nonlinear_arith) requires a == p * q;
        assert(q >= 1);
        lemma_mod_multiples_vanish(q - 1, 0, p);
        assert((a - p) % p == 0);
    }
}

/// A block of the simulated space: its address and size class (length `2^size_class`).
#[derive(Debug, Copy, Clone)]
pub struct Block {
    pub addr: usize,
    pub size_class: usize,
}

impl Block {
    pub fn new(addr: usize, size_class: usize) -> (b: Block)
        ensures
            b.addr == addr,
            b.size_class == size_class,
    {
        Block { addr, size_class }
    }

    /// The buddy block: the address with bit `size_class` flipped.
    pub fn buddy(&self) -> (b: Block)
        requires
            self.size_class < usize::BITS,
        ensures
            b.size_class == self.size_class,
            b.addr == self.addr ^ (1usize << self.size_class),
            aligned(self.addr as int, self.size_class as nat) ==> b.addr == buddy_of(
                self.addr as int,
                self.size_class as nat,
            ),
    {
        let bit: usize = 1usize << self.size_class;
        proof {
            lemma_shift_pow2(self.size_class);
            lemma_pow2_pos(self.size_class as nat);
            if aligned(self.addr as int, self.size_class as nat) {
                lemma_usize_shr_is_div(self.addr, self.size_class);
                lemma_usize_low_bits_mask_is_mod(self.addr, self.size_class as nat);
                assert(low_bits_mask(self.size_class as nat) == bit - 1);
                lemma_flip_bit(self.addr, self.size_class);
                lemma_pair(self.addr as int, self.size_class as nat);
                let q = (self.addr as int / pow2(self.size_class as nat) as int);
                assert(q % 2 == 0 || q % 2 == 1);
            }
        }
        Block { addr: self.addr ^ bit, size_class: self.size_class }
    }
}

/// The free blocks of one size class.
#[derive(Debug, Clone)]
struct Level {
    blocks: Vec<Block>,
    size_class: usize,
}

impl Level {
    fn new(size_class: usize) -> (l: Level)
        ensures
            l.blocks@ == Seq::<Block>::empty(),
            l.size_class == size_class,
    {
        Level { blocks: Vec::new(), size_class }
    }

    fn has_available_block(&self) -> (r: bool)
        ensures
            r == (self.blocks@.len() > 0),
    {
        self.blocks.len() > 0
    }

    fn add(&mut self, block: Block)
        ensures
            final(self).blocks@ == old(self).blocks@.push(block),
            final(self).size_class == old(self).size_class,
    {
        self.blocks.push(block);
    }

    /// Index of the first block at `addr`.
    fn position(&self, addr: usize) -> (r: Option<usize>)
        ensures
            r matches Some(i) ==> i < self.blocks@.len() && self.blocks@[i as int].addr == addr,
            r is None ==> forall|t: int| 0 <= t < self.blocks@.len() ==> (#[trigger] self.blocks@[t]).addr != addr,
    {
        let mut i: usize = 0;
        while i < self.blocks.len()
            invariant
                i <= self.blocks@.len(),
                forall|t: int| 0 <= t < i ==> (#[trigger] self.blocks@[t]).addr != addr,
            decreases self.blocks@.len() - i,
        {
            if self.blocks[i].addr == addr {
                return Some(i);
            }
            i += 1;
        }
        None
    }

    fn take(&mut self, i: usize) -> (b: Block)
        requires
            i < old(self).blocks@.len(),
        ensures
            b == old(self).blocks@[i as int],
            final(self).blocks@ == old(self).blocks@.remove(i as int),
            final(self).size_class == old(self).size_class,
    {
        self.blocks.remove(i)
    }

    fn pop_front(&mut self) -> (b: Block)
        requires
            old(self).blocks@.len() > 0,
        ensures
            b == old(self).blocks@[0],
            final(self).blocks@ == old(self).blocks@.remove(0),
            final(self).size_class == old(self).size_class,
    {
        self.blocks.remove(0)
    }
}

/// A granted region: its address, its size class, and how much of it the
/// request left unused.
#[derive(Debug, Copy, Clone)]
pub struct Allocation {
    pub addr: usize,
    pub size_class: usize,
    pub padding: usize,
}

pub open spec fn as_block(g: Allocation) -> Block {
    Block { addr: g.addr, size_class: g.size_class }
}

/// Two blocks share no address.
pub open spec fn apart(x: Block, y: Block) -> bool {
    x.addr + pow2(x.size_class as nat) <= y.addr || y.addr + pow2(y.size_class as nat) <= x.addr
}

/// Aligned to its own length and inside a space of `2^max` units.
pub open spec fn placed(b: Block, max: nat) -> bool {
    aligned(b.addr as int, b.size_class as nat) && b.addr + pow2(b.size_class as nat) <= pow2(max)
}

spec fn level_sizes(lv: Seq<Level>) -> Seq<int> {
    lv.map_values(|l: Level| (l.blocks@.len() * pow2(l.size_class as nat)) as int)
}

spec fn grant_sizes(gs: Seq<Allocation>) -> Seq<int> {
    gs.map_values(|g: Allocation| pow2(g.size_class as nat) as int)
}

spec fn grant_pads(gs: Seq<Allocation>) -> Seq<int> {
    gs.map_values(|g: Allocation| g.padding as int)
}

spec fn free_apart(lv: Seq<Level>) -> bool {
    forall|i1: int, j1: int, i2: int, j2: int|
        0 <= i1 < lv.len() && 0 <= j1 < lv[i1].blocks@.len() && 0 <= i2 < lv.len() && 0 <= j2
            < lv[i2].blocks@.len() && (i1 != i2 || j1 != j2) ==> apart(
            #[trigger] lv[i1].blocks@[j1],
            #[trigger] lv[i2].blocks@[j2],
        )
}

spec fn cross_apart(lv: Seq<Level>, gs: Seq<Allocation>) -> bool {
    forall|i: int, j: int, k: int|
        0 <= i < lv.len() && 0 <= j < lv[i].blocks@.len() && 0 <= k < gs.len() ==> apart(
            #[trigger] lv[i].blocks@[j],
            as_block(#[trigger] gs[k]),
        )
}

spec fn grants_apart(gs: Seq<Allocation>) -> bool {
    forall|k1: int, k2: int|
        0 <= k1 < gs.len() && 0 <= k2 < gs.len() && k1 != k2 ==> apart(
            as_block(#[trigger] gs[k1]),
            as_block(#[trigger] gs[k2]),
        )
}

/// The bookkeeping of a buddy allocator over classes `min..=max`: levels of
/// aligned free blocks and granted blocks, none sharing an address, that
/// together make up the whole space.
spec fn parts_ok(min: nat, max: nat, lv: Seq<Level>, gs: Seq<Allocation>) -> bool {
    &&& min <= max < usize::BITS
    &&& lv.len() == max - min + 1
    &&& forall|i: int| 0 <= i < lv.len() ==> #[trigger] lv[i].size_class == min + i
    &&& forall|i: int, j: int|
        0 <= i < lv.len() && 0 <= j < lv[i].blocks@.len() ==> (#[trigger] lv[i].blocks@[j]).size_class
            == min + i && placed(lv[i].blocks@[j], max)
    &&& forall|k: int|
        0 <= k < gs.len() ==> min <= (#[trigger] gs[k]).size_class <= max && placed(
            as_block(gs[k]),
            max,
        ) && gs[k].padding <= pow2(gs[k].size_class as nat)
    &&& free_apart(lv)
    &&& cross_apart(lv, gs)
    &&& grants_apart(gs)
    &&& sum(level_sizes(lv)) + sum(grant_sizes(gs)) == pow2(max)
}

proof fn lemma_pow2_mono(a: nat, b: nat)
    requires
        a <= b,
    ensures
        pow2(a) <= pow2(b),
{
    if a < b {
        lemma_pow2_strictly_increases(a, b);
    }
}

/// Taking the first free block of level `li` as a grant.
proof fn lemma_take_block(
    min: nat,
    max: nat,
    lv: Seq<Level>,
    gs: Seq<Allocation>,
    li: int,
    nl: Level,
    g: Allocation,
)
    requires
        parts_ok(min, max, lv, gs),
        0 <= li < lv.len(),
        lv[li].blocks@.len() > 0,
        nl.blocks@ == lv[li].blocks@.remove(0),
        nl.size_class == lv[li].size_class,
        g.addr == lv[li].blocks@[0].addr,
        g.size_class == lv[li].size_class,
        g.padding <= pow2(g.size_class as nat),
    ensures
        parts_ok(min, max, lv.update(li, nl), gs.push(g)),
{
    let lv2 = lv.update(li, nl);
    let gs2 = gs.push(g);
    let b = lv[li].blocks@[0];
    assert(as_block(g) == b);
    assert forall|i: int, j: int|
        0 <= i < lv2.len() && 0 <= j < lv2[i].blocks@.len() implies (#[trigger] lv2[i].blocks@[j])
        == lv[i].blocks@[if i == li { j + 1 } else { j }] by {}
    assert forall|i1: int, j1: int, i2: int, j2: int|
        0 <= i1 < lv2.len() && 0 <= j1 < lv2[i1].blocks@.len() && 0 <= i2 < lv2.len() && 0 <= j2
            < lv2[i2].blocks@.len() && (i1 != i2 || j1 != j2) implies apart(
        #[trigger] lv2[i1].blocks@[j1],
        #[trigger] lv2[i2].blocks@[j2],
    ) by {
        let o1 = if i1 == li { j1 + 1 } else { j1 };
        let o2 = if i2 == li { j2 + 1 } else { j2 };
        assert(lv2[i1].blocks@[j1] == lv[i1].blocks@[o1]);
        assert(lv2[i2].blocks@[j2] == lv[i2].blocks@[o2]);
    }
    assert forall|i: int, j: int, k: int|
        0 <= i < lv2.len() && 0 <= j < lv2[i].blocks@.len() && 0 <= k < gs2.len() implies apart(
        #[trigger] lv2[i].blocks@[j],
        as_block(#[trigger] gs2[k]),
    ) by {
        let o = if i == li { j + 1 } else { j };
        assert(lv2[i].blocks@[j] == lv[i].blocks@[o]);
        if k < gs.len() {
            assert(gs2[k] == gs[k]);
        } else {
            assert(lv[li].blocks@[0] == b);
        }
    }
    assert forall|k1: int, k2: int|
        0 <= k1 < gs2.len() && 0 <= k2 < gs2.len() && k1 != k2 implies apart(
        as_block(#[trigger] gs2[k1]),
        as_block(#[trigger] gs2[k2]),
    ) by {
        if k1 == gs.len() {
            assert(lv[li].blocks@[0] == b);
            assert(apart(b, as_block(gs[k2])));
        } else if k2 == gs.len() {
            assert(lv[li].blocks@[0] == b);
            assert(apart(b, as_block(gs[k1])));
        }
    }
    let p = pow2(lv[li].size_class as nat) as int;
    let n = lv[li].blocks@.len() as int;
    assert(level_sizes(lv2) =~= level_sizes(lv).update(li, (n - 1) * p));
    lemma_sum_update(level_sizes(lv), li, (n - 1) * p);
    assert((n - 1) * p == n * p - p) by (nonlinear_arith);
    assert(grant_sizes(gs2) =~= grant_sizes(gs).push(p));
    lemma_sum_push(grant_sizes(gs), p);
}

proof fn lemma_halves(a: int, k: nat)
    requires
        a >= 0,
        aligned(a, k + 1),
    ensures
        aligned(a, k),
        aligned(a + pow2(k), k),
        pow2(k + 1) == 2 * pow2(k),
        (a / pow2(k) as int) % 2 == 0,
{
    let p = pow2(k) as int;
    lemma_pow2_pos(k);
    lemma_pow2_unfold(k + 1);
    let h = a / (2 * p);
    lemma_fundamental_div_mod(a, 2 * p);
    assert(a == p * (2 * h)) by (nonlinear_arith) requires a == (2 * p) * h;
    assert(a + p == p * (2 * h + 1)) by (nonlinear_arith) requires a == (2 * p) * h;
    lemma_mod_multiples_vanish(2 * h, 0, p);
    lemma_mod_multiples_vanish(2 * h + 1, 0, p);
    lemma_div_multiples_vanish(2 * h, p);
}

/// Splitting the pending block `p` of class `min + c + 1`: its upper half
/// becomes free at level `c`, its lower half `q` stays pending.
proof fn lemma_split_step(
    min: nat,
    max: nat,
    lv: Seq<Level>,
    gs: Seq<Allocation>,
    c: int,
    nl: Level,
    p: Allocation,
    q: Allocation,
)
    requires
        parts_ok(min, max, lv, gs.push(p)),
        0 <= c < lv.len(),
        p.size_class == min + c + 1,
        q.addr == p.addr,
        q.size_class == min + c,
        q.padding <= pow2((min + c) as nat),
        nl.size_class == lv[c].size_class,
        nl.blocks@ == lv[c].blocks@.push(
            Block { addr: (p.addr + pow2((min + c) as nat)) as usize, size_class: (min + c) as usize },
        ),
    ensures
        parts_ok(min, max, lv.update(c, nl), gs.push(q)),
{
    let k = (min + c) as nat;
    let pp = pow2(k) as int;
    let gsp = gs.push(p);
    let lv2 = lv.update(c, nl);
    let gs2 = gs.push(q);
    let nb = Block { addr: (p.addr + pp) as usize, size_class: k as usize };
    assert(gsp[gs.len() as int] == p);
    assert(placed(as_block(p), max));
    lemma_halves(p.addr as int, k);
    assert(p.addr + pp <= usize::MAX) by {
        lemma_pow2_mono(max, (usize::BITS - 1) as nat);
        lemma_usize_pow2_no_overflow((usize::BITS - 1) as nat);
    }
    assert(nb.addr == p.addr + pp);
    assert(placed(nb, max));
    assert(placed(as_block(q), max));
    assert forall|i: int, j: int|
        0 <= i < lv2.len() && 0 <= j < lv2[i].blocks@.len() implies (#[trigger] lv2[i].blocks@[j])
        == if i == c && j == lv[c].blocks@.len() { nb } else { lv[i].blocks@[j] } by {}
    assert forall|i: int, j: int|
        0 <= i < lv.len() && 0 <= j < lv[i].blocks@.len() implies apart(
        #[trigger] lv[i].blocks@[j],
        nb,
    ) && apart(lv[i].blocks@[j], as_block(q)) by {
        assert(apart(lv[i].blocks@[j], as_block(gsp[gs.len() as int])));
    }
    assert forall|m: int| 0 <= m < gs.len() implies apart(nb, as_block(#[trigger] gs[m])) && apart(
        as_block(q),
        as_block(gs[m]),
    ) by {
        assert(gsp[m] == gs[m]);
        assert(apart(as_block(gsp[m]), as_block(gsp[gs.len() as int])));
    }
    assert forall|i1: int, j1: int, i2: int, j2: int|
        0 <= i1 < lv2.len() && 0 <= j1 < lv2[i1].blocks@.len() && 0 <= i2 < lv2.len() && 0 <= j2
            < lv2[i2].blocks@.len() && (i1 != i2 || j1 != j2) implies apart(
        #[trigger] lv2[i1].blocks@[j1],
        #[trigger] lv2[i2].blocks@[j2],
    ) by {
        if i1 == c && j1 == lv[c].blocks@.len() {
            assert(apart(lv2[i2].blocks@[j2], nb));
        } else if i2 == c && j2 == lv[c].blocks@.len() {
            assert(apart(lv2[i1].blocks@[j1], nb));
        } else {
            assert(apart(lv[i1].blocks@[j1], lv[i2].blocks@[j2]));
        }
    }
    assert forall|i: int, j: int, m: int|
        0 <= i < lv2.len() && 0 <= j < lv2[i].blocks@.len() && 0 <= m < gs2.len() implies apart(
        #[trigger] lv2[i].blocks@[j],
        as_block(#[trigger] gs2[m]),
    ) by {
        if m < gs.len() {
            assert(gs2[m] == gs[m]);
            assert(gsp[m] == gs[m]);
            if i == c && j == lv[c].blocks@.len() {
            } else {
                assert(apart(lv[i].blocks@[j], as_block(gsp[m])));
            }
        } else {
            assert(gs2[m] == q);
        }
    }
    assert forall|k1: int, k2: int|
        0 <= k1 < gs2.len() && 0 <= k2 < gs2.len() && k1 != k2 implies apart(
        as_block(#[trigger] gs2[k1]),
        as_block(#[trigger] gs2[k2]),
    ) by {
        if k1 < gs.len() && k2 < gs.len() {
            assert(gsp[k1] == gs2[k1] && gsp[k2] == gs2[k2]);
        } else if k1 < gs.len() {
            assert(gs2[k1] == gs[k1]);
        } else {
            assert(gs2[k2] == gs[k2]);
        }
    }
    assert forall|m: int|
        0 <= m < gs2.len() implies min <= (#[trigger] gs2[m]).size_class <= max && placed(
        as_block(gs2[m]),
        max,
    ) && gs2[m].padding <= pow2(gs2[m].size_class as nat) by {
        if m < gs.len() {
            assert(gsp[m] == gs2[m]);
        }
    }
    let n = lv[c].blocks@.len() as int;
    assert(level_sizes(lv2) =~= level_sizes(lv).update(c, (n + 1) * pp));
    lemma_sum_update(level_sizes(lv), c, (n + 1) * pp);
    assert((n + 1) * pp == n * pp + pp) by (nonlinear_arith);
    assert(grant_sizes(gsp) =~= grant_sizes(gs).push(2 * pp));
    lemma_sum_push(grant_sizes(gs), 2 * pp);
    assert(grant_sizes(gs2) =~= grant_sizes(gs).push(pp));
    lemma_sum_push(grant_sizes(gs), pp);
}

/// Merging the pending block `p` of class `min + c` with its free buddy at
/// level `c`: the pair becomes the pending block `q` of the next class.
proof fn lemma_merge_step(
    min: nat,
    max: nat,
    lv: Seq<Level>,
    gs: Seq<Allocation>,
    c: int,
    i: int,
    nl: Level,
    p: Allocation,
    q: Allocation,
)
    requires
        parts_ok(min, max, lv, gs.push(p)),
        0 <= c < lv.len(),
        p.size_class == min + c,
        0 <= i < lv[c].blocks@.len(),
        lv[c].blocks@[i].addr == buddy_of(p.addr as int, (min + c) as nat),
        nl.size_class == lv[c].size_class,
        nl.blocks@ == lv[c].blocks@.remove(i),
        q.addr == pair_base(p.addr as int, (min + c) as nat),
        q.size_class == min + c + 1,
        q.padding == p.padding,
    ensures
        c + 1 < lv.len(),
        parts_ok(min, max, lv.update(c, nl), gs.push(q)),
{
    let k = (min + c) as nat;
    let pp = pow2(k) as int;
    let gsp = gs.push(p);
    let lv2 = lv.update(c, nl);
    let gs2 = gs.push(q);
    let b = lv[c].blocks@[i];
    assert(gsp[gs.len() as int] == p);
    assert(placed(as_block(p), max));
    assert(placed(b, max));
    lemma_pair(p.addr as int, k);
    lemma_pow2_unfold(k + 1);
    lemma_pow2_pos(k);
    assert(q.addr + 2 * pp <= pow2(max));
    if k + 1 > max {
        lemma_pow2_strictly_increases(max, k + 1);
    }
    assert(placed(as_block(q), max));
    assert(b.size_class == k);
    assert(pow2(b.size_class as nat) == pp);
    assert(pow2(p.size_class as nat) == pp);
    assert(pow2(q.size_class as nat) == 2 * pp);
    assert((q.addr == p.addr && b.addr == p.addr + pp) || (q.addr == b.addr && p.addr == b.addr + pp));
    assert forall|i2: int, j: int|
        0 <= i2 < lv2.len() && 0 <= j < lv2[i2].blocks@.len() implies (#[trigger] lv2[i2].blocks@[j])
        == lv[i2].blocks@[if i2 == c && j >= i { j + 1 } else { j }] by {}
    assert forall|i2: int, j: int|
        0 <= i2 < lv.len() && 0 <= j < lv[i2].blocks@.len() && (i2 != c || j != i) implies apart(
        #[trigger] lv[i2].blocks@[j],
        as_block(q),
    ) by {
        lemma_pow2_pos(lv[i2].blocks@[j].size_class as nat);
        assert(apart(lv[i2].blocks@[j], as_block(gsp[gs.len() as int])));
        assert(apart(lv[i2].blocks@[j], lv[c].blocks@[i]));
    }
    assert forall|m: int| 0 <= m < gs.len() implies apart(as_block(q), as_block(#[trigger] gs[m])) by {
        assert(gsp[m] == gs[m]);
        lemma_pow2_pos(gs[m].size_class as nat);
        assert(apart(as_block(gsp[m]), as_block(gsp[gs.len() as int])));
        assert(apart(lv[c].blocks@[i], as_block(gsp[m])));
    }
    assert forall|i1: int, j1: int, i2: int, j2: int|
        0 <= i1 < lv2.len() && 0 <= j1 < lv2[i1].blocks@.len() && 0 <= i2 < lv2.len() && 0 <= j2
            < lv2[i2].blocks@.len() && (i1 != i2 || j1 != j2) implies apart(
        #[trigger] lv2[i1].blocks@[j1],
        #[trigger] lv2[i2].blocks@[j2],
    ) by {
        let o1 = if i1 == c && j1 >= i { j1 + 1 } else { j1 };
        let o2 = if i2 == c && j2 >= i { j2 + 1 } else { j2 };
        assert(apart(lv[i1].blocks@[o1], lv[i2].blocks@[o2]));
    }
    assert forall|i2: int, j: int, m: int|
        0 <= i2 < lv2.len() && 0 <= j < lv2[i2].blocks@.len() && 0 <= m < gs2.len() implies apart(
        #[trigger] lv2[i2].blocks@[j],
        as_block(#[trigger] gs2[m]),
    ) by {
        let o = if i2 == c && j >= i { j + 1 } else { j };
        if m < gs.len() {
            assert(gs2[m] == gsp[m]);
            assert(apart(lv[i2].blocks@[o], as_block(gsp[m])));
        } else {
            assert(gs2[m] == q);
            assert(apart(lv[i2].blocks@[o], as_block(q)));
        }
    }
    assert forall|k1: int, k2: int|
        0 <= k1 < gs2.len() && 0 <= k2 < gs2.len() && k1 != k2 implies apart(
        as_block(#[trigger] gs2[k1]),
        as_block(#[trigger] gs2[k2]),
    ) by {
        if k1 < gs.len() && k2 < gs.len() {
            assert(gsp[k1] == gs2[k1] && gsp[k2] == gs2[k2]);
        } else if k1 < gs.len() {
            assert(gs2[k1] == gs[k1]);
        } else {
            assert(gs2[k2] == gs[k2]);
        }
    }
    assert forall|m: int|
        0 <= m < gs2.len() implies min <= (#[trigger] gs2[m]).size_class <= max && placed(
        as_block(gs2[m]),
        max,
    ) && gs2[m].padding <= pow2(gs2[m].size_class as nat) by {
        if m < gs.len() {
            assert(gsp[m] == gs2[m]);
        }
    }
    let n = lv[c].blocks@.len() as int;
    assert(level_sizes(lv2) =~= level_sizes(lv).update(c, (n - 1) * pp));
    lemma_sum_update(level_sizes(lv), c, (n - 1) * pp);
    assert((n - 1) * pp == n * pp - pp) by (nonlinear_arith);
    assert(grant_sizes(gsp) =~= grant_sizes(gs).push(pp));
    lemma_sum_push(grant_sizes(gs), pp);
    assert(grant_sizes(gs2) =~= grant_sizes(gs).push(2 * pp));
    lemma_sum_push(grant_sizes(gs), 2 * pp);
}

/// The pending block `p` of class `min + c` becomes free at level `c`.
proof fn lemma_settle(
    min: nat,
    max: nat,
    lv: Seq<Level>,
    gs: Seq<Allocation>,
    c: int,
    nl: Level,
    p: Allocation,
)
    requires
        parts_ok(min, max, lv, gs.push(p)),
        0 <= c < lv.len(),
        p.size_class == min + c,
        nl.size_class == lv[c].size_class,
        nl.blocks@ == lv[c].blocks@.push(as_block(p)),
    ensures
        parts_ok(min, max, lv.update(c, nl), gs),
{
    let pp = pow2((min + c) as nat) as int;
    let gsp = gs.push(p);
    let lv2 = lv.update(c, nl);
    let nb = as_block(p);
    assert(gsp[gs.len() as int] == p);
    assert forall|i: int, j: int|
        0 <= i < lv2.len() && 0 <= j < lv2[i].blocks@.len() implies (#[trigger] lv2[i].blocks@[j])
        == if i == c && j == lv[c].blocks@.len() { nb } else { lv[i].blocks@[j] } by {}
    assert forall|i: int, j: int|
        0 <= i < lv.len() && 0 <= j < lv[i].blocks@.len() implies apart(
        #[trigger] lv[i].blocks@[j],
        nb,
    ) by {
        assert(apart(lv[i].blocks@[j], as_block(gsp[gs.len() as int])));
    }
    assert forall|m: int| 0 <= m < gs.len() implies apart(nb, as_block(#[trigger] gs[m])) by {
        assert(gsp[m] == gs[m]);
        assert(apart(as_block(gsp[m]), as_block(gsp[gs.len() as int])));
    }
    assert forall|i1: int, j1: int, i2: int, j2: int|
        0 <= i1 < lv2.len() && 0 <= j1 < lv2[i1].blocks@.len() && 0 <= i2 < lv2.len() && 0 <= j2
            < lv2[i2].blocks@.len() && (i1 != i2 || j1 != j2) implies apart(
        #[trigger] lv2[i1].blocks@[j1],
        #[trigger] lv2[i2].blocks@[j2],
    ) by {
        if i1 == c && j1 == lv[c].blocks@.len() {
            assert(apart(lv2[i2].blocks@[j2], nb));
        } else if i2 == c && j2 == lv[c].blocks@.len() {
            assert(apart(lv2[i1].blocks@[j1], nb));
        } else {
            assert(apart(lv[i1].blocks@[j1], lv[i2].blocks@[j2]));
        }
    }
    assert forall|i: int, j: int, m: int|
        0 <= i < lv2.len() && 0 <= j < lv2[i].blocks@.len() && 0 <= m < gs.len() implies apart(
        #[trigger] lv2[i].blocks@[j],
        as_block(#[trigger] gs[m]),
    ) by {
        assert(gsp[m] == gs[m]);
        if i == c && j == lv[c].blocks@.len() {
        } else {
            assert(apart(lv[i].blocks@[j], as_block(gsp[m])));
        }
    }
    assert forall|k1: int, k2: int|
        0 <= k1 < gs.len() && 0 <= k2 < gs.len() && k1 != k2 implies apart(
        as_block(#[trigger] gs[k1]),
        as_block(#[trigger] gs[k2]),
    ) by {
        assert(gsp[k1] == gs[k1] && gsp[k2] == gs[k2]);
    }
    assert forall|m: int|
        0 <= m < gs.len() implies min <= (#[trigger] gs[m]).size_class <= max && placed(
        as_block(gs[m]),
        max,
    ) && gs[m].padding <= pow2(gs[m].size_class as nat) by {
        assert(gsp[m] == gs[m]);
    }
    assert(placed(as_block(gsp[gs.len() as int]), max));
    let n = lv[c].blocks@.len() as int;
    assert(level_sizes(lv2) =~= level_sizes(lv).update(c, (n + 1) * pp));
    lemma_sum_update(level_sizes(lv), c, (n + 1) * pp);
    assert((n + 1) * pp == n * pp + pp) by (nonlinear_arith);
    assert(grant_sizes(gsp) =~= grant_sizes(gs).push(pp));
    lemma_sum_push(grant_sizes(gs), pp);
}

/// Moving grant `k` to the end of the sequence keeps the bookkeeping whole.
proof fn lemma_release(min: nat, max: nat, lv: Seq<Level>, gs: Seq<Allocation>, k: int)
    requires
        parts_ok(min, max, lv, gs),
        0 <= k < gs.len(),
    ensures
        parts_ok(min, max, lv, gs.remove(k).push(gs[k])),
{
    let gs2 = gs.remove(k).push(gs[k]);
    let last = gs.len() - 1;
    assert forall|m: int| 0 <= m < gs2.len() implies #[trigger] gs2[m] == gs[
        if m == last { k } else if m < k { m } else { m + 1 }
    ] by {}
    assert forall|k1: int, k2: int|
        0 <= k1 < gs2.len() && 0 <= k2 < gs2.len() && k1 != k2 implies apart(
        as_block(#[trigger] gs2[k1]),
        as_block(#[trigger] gs2[k2]),
    ) by {
        let o1 = if k1 == last { k } else if k1 < k { k1 } else { k1 + 1 };
        let o2 = if k2 == last { k } else if k2 < k { k2 } else { k2 + 1 };
        assert(apart(as_block(gs[o1]), as_block(gs[o2])));
    }
    assert forall|i: int, j: int, m: int|
        0 <= i < lv.len() && 0 <= j < lv[i].blocks@.len() && 0 <= m < gs2.len() implies apart(
        #[trigger] lv[i].blocks@[j],
        as_block(#[trigger] gs2[m]),
    ) by {
        let o = if m == last { k } else if m < k { m } else { m + 1 };
        assert(apart(lv[i].blocks@[j], as_block(gs[o])));
    }
    let pk = pow2(gs[k].size_class as nat) as int;
    assert(grant_sizes(gs2) =~= grant_sizes(gs).remove(k).push(pk));
    lemma_sum_remove(grant_sizes(gs), k);
    lemma_sum_push(grant_sizes(gs).remove(k), pk);
}

proof fn lemma_grant_addrs_unique(min: nat, max: nat, lv: Seq<Level>, gs: Seq<Allocation>, k: int)
    requires
        parts_ok(min, max, lv, gs),
        0 <= k < gs.len(),
    ensures
        forall|m: int| 0 <= m < gs.len() && m != k ==> #[trigger] gs[m].addr != gs[k].addr,
{
    assert forall|m: int| 0 <= m < gs.len() && m != k implies #[trigger] gs[m].addr != gs[k].addr by {
        lemma_pow2_pos(gs[m].size_class as nat);
        lemma_pow2_pos(gs[k].size_class as nat);
        assert(apart(as_block(gs[m]), as_block(gs[k])));
    }
}

proof fn lemma_pads_le(gs: Seq<Allocation>)
    requires
        forall|k: int| 0 <= k < gs.len() ==> (#[trigger] gs[k]).padding <= pow2(gs[k].size_class as nat),
    ensures
        0 <= sum(grant_pads(gs)) <= sum(grant_sizes(gs)),
    decreases gs.len(),
{
    if gs.len() > 0 {
        let t = gs.drop_last();
        assert forall|k: int| 0 <= k < t.len() implies (#[trigger] t[k]).padding <= pow2(
            t[k].size_class as nat,
        ) by {
            assert(t[k] == gs[k]);
        }
        lemma_pads_le(t);
        assert(grant_pads(gs).drop_last() =~= grant_pads(t));
        assert(grant_sizes(gs).drop_last() =~= grant_sizes(t));
        assert(gs[gs.len() - 1] == gs.last());
    }
}

/// `size` is served by class `j`: the smallest class, no smaller than `min`,
/// whose blocks hold `size` units.
pub open spec fn is_class_for(size: nat, min: nat, j: nat) -> bool {
    &&& min <= j
    &&& size <= pow2(j)
    &&& (j == min || pow2((j - 1) as nat) < size)
}

/// Free lists, one per class from `min`, after the block at `addr` of class
/// `min + c` is given back: while its buddy is free at the same class, the
/// buddy leaves its list and the pair, at the lower address, moves up a class;
/// then the block joins the end of its list.
pub open spec fn merged(lists: Seq<Seq<Block>>, min: nat, addr: int, c: int) -> Seq<Seq<Block>>
    decreases lists.len() - c,
{
    if c < 0 || c >= lists.len() {
        lists
    } else {
        let k = (min + c) as nat;
        let bud = buddy_of(addr, k);
        if exists|i: int| 0 <= i < lists[c].len() && (#[trigger] lists[c][i]).addr == bud {
            let i = choose|i: int| 0 <= i < lists[c].len() && (#[trigger] lists[c][i]).addr == bud;
            merged(lists.update(c, lists[c].remove(i)), min, pair_base(addr, k), c + 1)
        } else {
            lists.update(c, lists[c].push(Block { addr: addr as usize, size_class: k as usize }))
        }
    }
}

spec fn lists_of(lv: Seq<Level>) -> Seq<Seq<Block>> {
    lv.map_values(|l: Level| l.blocks@)
}

/// A buddy allocator over `2^max_size` units, with blocks of classes
/// `min_size..=max_size`.
#[derive(Debug, Clone)]
pub struct BuddyAllocator {
    min_size: usize,
    max_size: usize,
    levels: Vec<Level>,
    sizemap: Vec<Allocation>,
}

impl BuddyAllocator {
    pub closed spec fn min_class(&self) -> nat {
        self.min_size as nat
    }

    pub closed spec fn max_class(&self) -> nat {
        self.max_size as nat
    }

    /// Number of size classes.
    pub open spec fn num_levels(&self) -> nat {
        (self.max_class() - self.min_class() + 1) as nat
    }

    pub open spec fn capacity(&self) -> nat {
        pow2(self.max_class())
    }

    /// The free blocks of class `min_class() + i`, in list order.
    pub open spec fn free_blocks(&self, i: int) -> Seq<Block> {
        self.free_lists()[i]
    }

    /// The free lists, one per class from `min_class()`.
    pub closed spec fn free_lists(&self) -> Seq<Seq<Block>> {
        lists_of(self.levels@)
    }

    /// The live grants, oldest first.
    pub closed spec fn grants(&self) -> Seq<Allocation> {
        self.sizemap@
    }

    pub closed spec fn wf(&self) -> bool {
        parts_ok(self.min_size as nat, self.max_size as nat, self.levels@, self.sizemap@)
    }

    /// Total length of the free blocks.
    pub closed spec fn free_total(&self) -> int {
        sum(level_sizes(self.levels@))
    }

    /// Total length of the granted blocks.
    pub closed spec fn granted_total(&self) -> int {
        sum(grant_sizes(self.sizemap@))
    }

    /// Total unused length inside the granted blocks.
    pub closed spec fn padding_total(&self) -> int {
        sum(grant_pads(self.sizemap@))
    }

    pub open spec fn is_allocated(&self, ptr: usize) -> bool {
        exists|k: int| 0 <= k < self.grants().len() && (#[trigger] self.grants()[k]).addr == ptr
    }

    /// The live grant at `ptr`, where there is one.
    pub open spec fn grant_at(&self, ptr: usize) -> Allocation {
        self.grants()[choose|k: int| 0 <= k < self.grants().len() && (#[trigger] self.grants()[k]).addr == ptr]
    }

    /// Some free block of a class whose length is at least `size`.
    pub open spec fn fits(&self, size: nat) -> bool {
        exists|i: int|
            0 <= i < self.num_levels() && (#[trigger] self.free_blocks(i)).len() > 0 && size <= pow2(
                (self.min_class() + i) as nat,
            )
    }

    /// `post` is `self` after the first block of level `li` was split down to
    /// level `j`, leaving the upper halves free, one at each level `j..li`.
    pub open spec fn split_from(&self, post: &Self, li: int, j: int, a: usize) -> bool {
        &&& 0 <= j <= li < self.num_levels()
        &&& self.free_blocks(li).len() > 0
        &&& a == self.free_blocks(li)[0].addr
        &&& forall|t: int| j <= t < li ==> #[trigger] self.free_blocks(t).len() == 0
        &&& forall|t: int|
            0 <= t < self.num_levels() ==> #[trigger] post.free_blocks(t) == if t == li {
                self.free_blocks(t).remove(0)
            } else if j <= t < li {
                self.free_blocks(t).push(
                    Block {
                        addr: (a + pow2((self.min_class() + t) as nat)) as usize,
                        size_class: (self.min_class() + t) as usize,
                    },
                )
            } else {
                self.free_blocks(t)
            }
    }

    /// `post` is `self` after granting the block at `a` for a request of
    /// `size` units: the grant is recorded last, and the block comes from the
    /// lowest level that can serve the request.
    pub open spec fn granted(&self, post: &Self, size: nat, a: usize) -> bool {
        let g = post.grants().last();
        &&& post.grants() == self.grants().push(g)
        &&& g.addr == a
        &&& is_class_for(size, self.min_class(), g.size_class as nat)
        &&& g.padding == pow2(g.size_class as nat) - size
        &&& exists|li: int| #[trigger] self.split_from(post, li, g.size_class - self.min_class(), a)
        &&& !self.is_allocated(a)
        &&& post.free_total() == self.free_total() - pow2(g.size_class as nat)
        &&& post.granted_total() == self.granted_total() + pow2(g.size_class as nat)
        &&& post.padding_total() == self.padding_total() + g.padding
    }

    /// `post` is `self` after the grant at index `k`, at address `ptr`, was
    /// given back: its length returns to the free total, merged with its
    /// free buddies.
    pub open spec fn released(&self, post: &Self, ptr: usize, k: int) -> bool {
        &&& 0 <= k < self.grants().len()
        &&& self.grants()[k].addr == ptr
        &&& post.grants() == self.grants().remove(k)
        &&& post.free_total() == self.free_total() + pow2(self.grants()[k].size_class as nat)
        &&& post.granted_total() == self.granted_total() - pow2(self.grants()[k].size_class as nat)
        &&& post.padding_total() == self.padding_total() - self.grants()[k].padding
        &&& post.free_lists() == merged(
            self.free_lists(),
            self.min_class(),
            ptr as int,
            self.grants()[k].size_class - self.min_class(),
        )
    }

    /// The whole space as one free block, no grants.
    pub fn new(min_size: usize, max_size: usize) -> (b: Self)
        requires
            min_size <= max_size < usize::BITS,
        ensures
            b.wf(),
            b.min_class() == min_size,
            b.max_class() == max_size,
            b.grants() == Seq::<Allocation>::empty(),
            forall|t: int| 0 <= t < b.num_levels() - 1 ==> #[trigger] b.free_blocks(t).len() == 0,
            b.free_blocks(b.num_levels() - 1) == seq![Block { addr: 0, size_class: max_size }],
            b.free_lists().len() == b.num_levels(),
            b.free_total() == b.capacity(),
            b.granted_total() == 0,
            b.padding_total() == 0,
    {
        let mut levels: Vec<Level> = Vec::with_capacity(max_size - min_size + 1);
        let mut i: usize = min_size;
        while i < max_size
            invariant
                min_size <= i <= max_size,
                levels@.len() == i - min_size,
                forall|t: int| 0 <= t < levels@.len() ==> (#[trigger] levels@[t]).size_class == min_size + t
                    && levels@[t].blocks@.len() == 0,
                sum(level_sizes(levels@)) == 0,
            decreases max_size - i,
        {
            let l = Level::new(i);
            proof {
                assert(level_sizes(levels@.push(l)) =~= level_sizes(levels@).push(0));
                lemma_sum_push(level_sizes(levels@), 0);
            }
            levels.push(l);
            i += 1;
        }
        let mut last_level = Level::new(max_size);
        last_level.add(Block::new(0, max_size));
        proof {
            lemma_pow2_pos(max_size as nat);
            assert(last_level.blocks@.len() == 1);
            assert((last_level.blocks@.len() * pow2(last_level.size_class as nat)) as int == pow2(max_size as nat) as int);
            assert(level_sizes(levels@.push(last_level)) =~= level_sizes(levels@).push(
                pow2(max_size as nat) as int,
            ));
            lemma_sum_push(level_sizes(levels@), pow2(max_size as nat) as int);
            assert(0int % pow2(max_size as nat) as int == 0);
        }
        levels.push(last_level);
        let b = BuddyAllocator { min_size, max_size, levels, sizemap: Vec::new() };
        proof {
            assert(grant_sizes(b.sizemap@) =~= Seq::<int>::empty());
            assert(grant_pads(b.sizemap@) =~= Seq::<int>::empty());
            let lv = b.levels@;
            assert forall|i1: int, j1: int, i2: int, j2: int|
                0 <= i1 < lv.len() && 0 <= j1 < lv[i1].blocks@.len() && 0 <= i2 < lv.len() && 0 <= j2
                    < lv[i2].blocks@.len() && (i1 != i2 || j1 != j2) implies apart(
                #[trigger] lv[i1].blocks@[j1],
                #[trigger] lv[i2].blocks@[j2],
            ) by {
                assert(i1 == lv.len() - 1 && i2 == lv.len() - 1);
            }
            assert(b.free_blocks(b.num_levels() - 1) =~= seq![Block { addr: 0, size_class: max_size }]);
        }
        b
    }

    fn size_class_to_index(&self, size_class: usize) -> (r: usize)
        requires
            self.min_class() <= size_class,
        ensures
            r == size_class - self.min_class(),
    {
        size_class - self.min_size
    }

    /// Grants a block of the smallest class that holds `size`, splitting a
    /// larger free block when that class has none.
    pub fn malloc(&mut self, size: usize) -> (r: Option<usize>)
        requires
            old(self).wf(),
        ensures
            final(self).wf(),
            final(self).min_class() == old(self).min_class(),
            final(self).max_class() == old(self).max_class(),
            r is None <==> !old(self).fits(size as nat),
            r is None ==> *final(self) == *old(self),
            r matches Some(a) ==> old(self).granted(final(self), size as nat, a),
    {
        let ghost pre = *self;
        let n = self.levels.len();
        // smallest class, no smaller than min_size, whose blocks hold `size`
        let mut j: usize = self.min_size;
        proof {
            lemma_shift_pow2(j);
        }
        let mut len: usize = 1usize << j;
        while len < size && j < self.max_size
            invariant
                *self == pre,
                pre.wf(),
                self.min_size <= j <= self.max_size,
                len == pow2(j as nat),
                j == self.min_size || pow2((j - 1) as nat) < size,
            decreases self.max_size - j,
        {
            proof {
                lemma_pow2_unfold((j + 1) as nat);
                lemma_pow2_mono((j + 1) as nat, self.max_size as nat);
                lemma_shift_pow2(self.max_size);
            }
            j += 1;
            len = len * 2;
        }
        if len < size {
            proof {
                assert forall|i: int| 0 <= i < pre.num_levels() implies !(#[trigger] pre.free_blocks(i).len() > 0
                    && size <= pow2((pre.min_class() + i) as nat)) by {
                    lemma_pow2_mono((pre.min_class() + i) as nat, j as nat);
                }
            }
            return None;
        }
        let diff = len - size;
        let jm = self.size_class_to_index(j);
        // lowest level at or above j with a free block
        let mut li: usize = jm;
        while li < n && !self.levels[li].has_available_block()
            invariant
                *self == pre,
                pre.wf(),
                n == self.levels@.len(),
                jm <= li <= n,
                forall|t: int| jm <= t < li ==> #[trigger] pre.free_blocks(t).len() == 0,
            decreases n - li,
        {
            li += 1;
        }
        if li == n {
            proof {
                assert forall|i: int| 0 <= i < pre.num_levels() implies !(#[trigger] pre.free_blocks(i).len() > 0
                    && size <= pow2((pre.min_class() + i) as nat)) by {
                    if i < jm {
                        lemma_pow2_mono((pre.min_class() + i) as nat, (j - 1) as nat);
                    }
                }
            }
            return None;
        }
        proof {
            assert(size <= pow2((pre.min_class() + li) as nat)) by {
                lemma_pow2_mono(j as nat, (pre.min_class() + li) as nat);
            }
            assert(pre.free_blocks(li as int).len() > 0);
            assert(pre.fits(size as nat));
        }
        let block = self.levels[li].pop_front();
        let a = block.addr;
        proof {
            lemma_pow2_mono(j as nat, (pre.min_class() + li) as nat);
            lemma_take_block(
                pre.min_size as nat,
                pre.max_size as nat,
                pre.levels@,
                pre.sizemap@,
                li as int,
                self.levels@[li as int],
                Allocation { addr: a, size_class: (self.min_size + li) as usize, padding: diff },
            );
            assert(self.levels@ == pre.levels@.update(li as int, self.levels@[li as int]));
        }
        let mut c: usize = li;
        while c > jm
            invariant
                self.min_size == pre.min_size,
                self.max_size == pre.max_size,
                self.sizemap@ == pre.sizemap@,
                n == self.levels@.len(),
                jm <= c <= li < n,
                j == self.min_size + jm,
                diff <= pow2(j as nat),
                parts_ok(
                    self.min_size as nat,
                    self.max_size as nat,
                    self.levels@,
                    self.sizemap@.push(
                        Allocation { addr: a, size_class: (self.min_size + c) as usize, padding: diff },
                    ),
                ),
                pre.levels@.len() == n,
                pre.levels@[li as int].blocks@.len() > 0,
                a == pre.levels@[li as int].blocks@[0].addr,
                forall|t: int|
                    0 <= t < n ==> #[trigger] self.levels@[t].blocks@ == if t == li {
                        pre.levels@[t].blocks@.remove(0)
                    } else if c <= t < li {
                        pre.levels@[t].blocks@.push(
                            Block {
                                addr: (a + pow2((self.min_size + t) as nat)) as usize,
                                size_class: (self.min_size + t) as usize,
                            },
                        )
                    } else {
                        pre.levels@[t].blocks@
                    },
            decreases c,
        {
            let ghost lv0 = self.levels@;
            let ghost p = Allocation { addr: a, size_class: (self.min_size + c) as usize, padding: diff };
            c -= 1;
            let kept = Block::new(a, self.min_size + c);
            let bud = kept.buddy();
            proof {
                let k = (self.min_size + c) as nat;
                let gp = self.sizemap@.push(p);
                assert(gp[self.sizemap@.len() as int] == p);
                assert(placed(as_block(p), self.max_size as nat));
                lemma_halves(a as int, k);
                assert(bud.addr == a + pow2(k));
                lemma_pow2_mono(j as nat, k);
            }
            self.levels[c].add(bud);
            proof {
                lemma_split_step(
                    self.min_size as nat,
                    self.max_size as nat,
                    lv0,
                    self.sizemap@,
                    c as int,
                    self.levels@[c as int],
                    Allocation { addr: a, size_class: (self.min_size + c + 1) as usize, padding: diff },
                    Allocation { addr: a, size_class: (self.min_size + c) as usize, padding: diff },
                );
                assert(self.levels@ == lv0.update(c as int, self.levels@[c as int]));
            }
        }
        let g = Allocation { addr: a, size_class: j, padding: diff };
        self.sizemap.push(g);
        proof {
            assert(self.grants().last() == g);
            assert(self.grants() == pre.grants().push(g));
            assert(is_class_for(size as nat, pre.min_class(), j as nat));
            assert(g.padding == pow2(g.size_class as nat) - size);
            assert(pre.split_from(self, li as int, jm as int, a));
            assert(jm == g.size_class - pre.min_class());
            assert(pre.split_from(self, li as int, g.size_class - pre.min_class(), a));
            lemma_grant_addrs_unique(self.min_size as nat, self.max_size as nat, self.levels@, self.sizemap@, pre.sizemap@.len() as int);
            assert forall|t: int| 0 <= t < pre.grants().len() implies (#[trigger] pre.grants()[t]).addr != a by {
                assert(self.sizemap@[t] == pre.sizemap@[t]);
            }
            assert(grant_sizes(self.sizemap@) =~= grant_sizes(pre.sizemap@).push(pow2(j as nat) as int));
            lemma_sum_push(grant_sizes(pre.sizemap@), pow2(j as nat) as int);
            assert(grant_pads(self.sizemap@) =~= grant_pads(pre.sizemap@).push(diff as int));
            lemma_sum_push(grant_pads(pre.sizemap@), diff as int);
            assert(pre.granted(self, size as nat, a));
        }
        Some(a)
    }

    /// Log2 of the smallest block.
    pub fn min_size(&self) -> (r: usize)
        ensures
            r == self.min_class(),
    {
        self.min_size
    }

    /// Log2 of the whole space.
    pub fn max_size(&self) -> (r: usize)
        ensures
            r == self.max_class(),
    {
        self.max_size
    }

    /// A copy of the free blocks of class `min_size() + i`.
    pub fn level_blocks(&self, i: usize) -> (r: Vec<Block>)
        requires
            self.wf(),
            i < self.num_levels(),
        ensures
            r@ == self.free_blocks(i as int),
    {
        let blocks = &self.levels[i].blocks;
        let mut v: Vec<Block> = Vec::new();
        let mut j: usize = 0;
        while j < blocks.len()
            invariant
                j <= blocks@.len(),
                v@ == blocks@.take(j as int),
            decreases blocks@.len() - j,
        {
            v.push(blocks[j]);
            j += 1;
            proof {
                assert(v@ =~= blocks@.take(j as int));
            }
        }
        proof {
            assert(blocks@.take(j as int) =~= blocks@);
        }
        v
    }

    /// Gives back the block granted at `ptr`, merging it with its free buddy
    /// for as long as there is one.
    pub fn free(&mut self, ptr: usize) -> (r: Result<(), &'static str>)
        requires
            old(self).wf(),
        ensures
            final(self).wf(),
            final(self).min_class() == old(self).min_class(),
            final(self).max_class() == old(self).max_class(),
            r is Ok <==> old(self).is_allocated(ptr),
            r is Err ==> *final(self) == *old(self),
            r is Ok ==> exists|k: int| #[trigger] old(self).released(final(self), ptr, k),
            r is Ok ==> !final(self).is_allocated(ptr),
    {
        let ghost pre = *self;
        let mut k: usize = 0;
        while k < self.sizemap.len() && self.sizemap[k].addr != ptr
            invariant
                *self == pre,
                k <= self.sizemap@.len(),
                forall|t: int| 0 <= t < k ==> (#[trigger] self.sizemap@[t]).addr != ptr,
            decreases self.sizemap@.len() - k,
        {
            k += 1;
        }
        if k == self.sizemap.len() {
            proof {
                assert forall|t: int| 0 <= t < pre.grants().len() implies (#[trigger] pre.grants()[t]).addr != ptr by {
                    assert(pre.grants()[t] == self.sizemap@[t]);
                }
            }
            return Err("pointer not found");
        }
        proof {
            assert(pre.grants()[k as int].addr == ptr);
            lemma_grant_addrs_unique(pre.min_size as nat, pre.max_size as nat, pre.levels@, pre.sizemap@, k as int);
            lemma_release(pre.min_size as nat, pre.max_size as nat, pre.levels@, pre.sizemap@, k as int);
        }
        let g = self.sizemap.remove(k);
        let n = self.levels.len();
        let mut addr = g.addr;
        let mut c: usize = self.size_class_to_index(g.size_class);
        loop
            invariant_except_break
                parts_ok(
                    self.min_size as nat,
                    self.max_size as nat,
                    self.levels@,
                    self.sizemap@.push(
                        Allocation { addr, size_class: (self.min_size + c) as usize, padding: g.padding },
                    ),
                ),
                merged(lists_of(pre.levels@), self.min_size as nat, g.addr as int, g.size_class - self.min_size)
                    == merged(lists_of(self.levels@), self.min_size as nat, addr as int, c as int),
            invariant
                self.min_size == pre.min_size,
                self.max_size == pre.max_size,
                self.sizemap@ == pre.sizemap@.remove(k as int),
                n == self.levels@.len(),
                c < n,
            ensures
                parts_ok(self.min_size as nat, self.max_size as nat, self.levels@, self.sizemap@),
                lists_of(self.levels@) == merged(lists_of(pre.levels@), self.min_size as nat, g.addr as int, g.size_class - self.min_size),
            decreases n - c,
        {
            let ghost lv0 = self.levels@;
            let ghost p = Allocation { addr, size_class: (self.min_size + c) as usize, padding: g.padding };
            let block = Block::new(addr, self.min_size + c);
            proof {
                let gp = self.sizemap@.push(p);
                assert(gp[self.sizemap@.len() as int] == p);
                assert(placed(as_block(p), self.max_size as nat));
            }
            let bud = block.buddy();
            proof {
                let kk = (self.min_size + c) as nat;
                let ls = lists_of(lv0);
                assert(ls[c as int] == lv0[c as int].blocks@);
                assert(bud.addr == buddy_of(addr as int, kk));
                assert forall|i1: int, i2: int|
                    0 <= i1 < ls[c as int].len() && 0 <= i2 < ls[c as int].len() && i1 != i2 implies
                    (#[trigger] ls[c as int][i1]).addr != (#[trigger] ls[c as int][i2]).addr by {
                    lemma_pow2_pos(lv0[c as int].blocks@[i1].size_class as nat);
                    assert(apart(lv0[c as int].blocks@[i1], lv0[c as int].blocks@[i2]));
                }
            }
            match self.levels[c].position(bud.addr) {
                Some(i) => {
                    self.levels[c].take(i);
                    let lower = if bud.addr < addr { bud.addr } else { addr };
                    proof {
                        let kk = (self.min_size + c) as nat;
                        lemma_pair(addr as int, kk);
                        lemma_pow2_pos(kk);
                        assert(lower == pair_base(addr as int, kk));
                        lemma_merge_step(
                            self.min_size as nat,
                            self.max_size as nat,
                            lv0,
                            self.sizemap@,
                            c as int,
                            i as int,
                            self.levels@[c as int],
                            p,
                            Allocation { addr: lower, size_class: (self.min_size + c + 1) as usize, padding: g.padding },
                        );
                        assert(self.levels@ == lv0.update(c as int, self.levels@[c as int]));
                        let ls = lists_of(lv0);
                        let ch = choose|t: int| 0 <= t < ls[c as int].len() && (#[trigger] ls[c as int][t]).addr == buddy_of(addr as int, kk);
                        assert(ls[c as int][i as int].addr == buddy_of(addr as int, kk));
                        assert(ch == i);
                        assert(lists_of(self.levels@) =~= ls.update(c as int, ls[c as int].remove(i as int)));
                    }
                    addr = lower;
                    c += 1;
                },
                None => {
                    self.levels[c].add(block);
                    proof {
                        lemma_settle(
                            self.min_size as nat,
                            self.max_size as nat,
                            lv0,
                            self.sizemap@,
                            c as int,
                            self.levels@[c as int],
                            p,
                        );
                        assert(self.levels@ == lv0.update(c as int, self.levels@[c as int]));
                        let ls = lists_of(lv0);
                        let kk = (self.min_size + c) as nat;
                        assert(!exists|t: int| 0 <= t < ls[c as int].len() && (#[trigger] ls[c as int][t]).addr == buddy_of(addr as int, kk));
                        assert(lists_of(self.levels@) =~= ls.update(c as int, ls[c as int].push(Block { addr: addr, size_class: kk as usize })));
                    }
                    break;
                },
            }
        }
        proof {
            lemma_sum_remove(grant_sizes(pre.sizemap@), k as int);
            assert(grant_sizes(self.sizemap@) =~= grant_sizes(pre.sizemap@).remove(k as int));
            lemma_sum_remove(grant_pads(pre.sizemap@), k as int);
            assert(grant_pads(self.sizemap@) =~= grant_pads(pre.sizemap@).remove(k as int));
            assert(pre.released(self, ptr, k as int));
            assert forall|t: int| 0 <= t < self.grants().len() implies (#[trigger] self.grants()[t]).addr != ptr by {
                let o = if t < k { t } else { t + 1 };
                assert(self.grants()[t] == pre.grants()[o]);
            }
        }
        Ok(())
    }

    /// Whether `malloc(size)` would succeed now.
    pub fn check_size(&self, size: usize) -> (r: bool)
        requires
            self.wf(),
        ensures
            r == self.fits(size as nat),
    {
        let mut i: usize = 0;
        while i < self.levels.len()
            invariant
                self.wf(),
                i <= self.levels@.len(),
                forall|t: int| 0 <= t < i ==> !(#[trigger] self.free_blocks(t).len() > 0 && size <= pow2((self.min_class() + t) as nat)),
            decreases self.levels@.len() - i,
        {
            proof {
                lemma_shift_pow2((self.min_size + i) as usize);
            }
            if self.levels[i].has_available_block() && size <= (1usize << (self.min_size + i)) {
                proof {
                    assert(self.free_blocks(i as int).len() > 0);
                }
                return true;
            }
            i += 1;
        }
        false
    }

    /// The largest request that would succeed now: the length of a block of
    /// the highest class with a free block, or 0 when nothing is free.
    pub fn largest_alloc(&self) -> (r: usize)
        requires
            self.wf(),
        ensures
            forall|x: nat| 1 <= x ==> (self.fits(x) <==> x <= r),
            r <= self.free_total(),
    {
        let mut i: usize = self.levels.len();
        while i > 0
            invariant
                self.wf(),
                i <= self.levels@.len(),
                forall|t: int| i <= t < self.levels@.len() ==> #[trigger] self.free_blocks(t).len() == 0,
            decreases i,
        {
            if self.levels[i - 1].has_available_block() {
                let h = i - 1;
                proof {
                    lemma_shift_pow2((self.min_size + h) as usize);
                    assert(self.free_blocks(h as int).len() > 0);
                    assert forall|x: nat| 1 <= x implies (self.fits(x) <==> x <= pow2((self.min_size + h) as nat)) by {
                        if self.fits(x) {
                            let t = choose|t: int|
                                0 <= t < self.num_levels() && (#[trigger] self.free_blocks(t)).len() > 0 && x <= pow2(
                                    (self.min_class() + t) as nat,
                                );
                            lemma_pow2_mono((self.min_class() + t) as nat, (self.min_size + h) as nat);
                        }
                    }
                }
                proof {
                    let sizes = level_sizes(self.levels@);
                    let n = self.levels@[h as int].blocks@.len();
                    let p = pow2((self.min_size + h) as nat);
                    assert(sizes[h as int] == n * p);
                    assert(n * p >= p) by (nonlinear_arith) requires n >= 1;
                    lemma_sum_ge_elem(sizes, h as int);
                }
                return 1usize << (self.min_size + h);
            }
            i -= 1;
        }
        proof {
            lemma_sum_nonneg(level_sizes(self.levels@));
        }
        0
    }

    /// Total length of the free blocks.
    pub fn free_space(&self) -> (r: usize)
        requires
            self.wf(),
        ensures
            r == self.free_total(),
    {
        let ghost sizes = level_sizes(self.levels@);
        proof {
            lemma_sum_prefix_le(sizes, sizes.len() as int);
            lemma_sum_nonneg(grant_sizes(self.sizemap@));
            assert(sizes.take(sizes.len() as int) =~= sizes);
            lemma_shift_pow2(self.max_size);
            assert(sizes.take(0) =~= Seq::<int>::empty());
        }
        let mut total: usize = 0;
        let mut i: usize = 0;
        while i < self.levels.len()
            invariant
                self.wf(),
                sizes == level_sizes(self.levels@),
                sum(sizes) <= usize::MAX,
                i <= self.levels@.len(),
                total == sum(sizes.take(i as int)),
            decreases self.levels@.len() - i,
        {
            let level = &self.levels[i];
            proof {
                lemma_sum_take_next(sizes, i as int);
                lemma_sum_prefix_le(sizes, i as int + 1);
                lemma_sum_prefix_le(sizes, sizes.len() as int);
                lemma_shift_pow2(level.size_class);
                assert(sizes[i as int] == level.blocks@.len() * pow2(level.size_class as nat));
            }
            total = total + level.blocks.len() * (1usize << level.size_class);
            i += 1;
        }
        proof {
            assert(sizes.take(i as int) =~= sizes);
        }
        total
    }

    /// Total unused length inside the granted blocks.
    pub fn internal_frag(&self) -> (r: usize)
        requires
            self.wf(),
        ensures
            r == self.padding_total(),
    {
        let ghost pads = grant_pads(self.sizemap@);
        proof {
            lemma_pads_le(self.sizemap@);
            lemma_sum_prefix_le(pads, pads.len() as int);
            lemma_sum_prefix_le(level_sizes(self.levels@), level_sizes(self.levels@).len() as int);
            assert(level_sizes(self.levels@).take(level_sizes(self.levels@).len() as int) =~= level_sizes(self.levels@));
            lemma_shift_pow2(self.max_size);
            assert(pads.take(0) =~= Seq::<int>::empty());
            assert(pads.take(pads.len() as int) =~= pads);
        }
        let mut total: usize = 0;
        let mut i: usize = 0;
        while i < self.sizemap.len()
            invariant
                self.wf(),
                pads == grant_pads(self.sizemap@),
                0 <= sum(pads) <= usize::MAX,
                i <= self.sizemap@.len(),
                total == sum(pads.take(i as int)),
            decreases self.sizemap@.len() - i,
        {
            proof {
                lemma_sum_take_next(pads, i as int);
                lemma_sum_prefix_le(pads, i as int + 1);
            }
            total = total + self.sizemap[i].padding;
            i += 1;
        }
        proof {
            assert(pads.take(i as int) =~= pads);
        }
        total
    }
}

/// The free blocks and the granted blocks together make up the whole space:
/// free space plus the granted lengths is `2^max_size`.
pub proof fn lemma_buddy_conservation(b: &BuddyAllocator)
    requires
        b.wf(),
    ensures
        b.free_total() + b.granted_total() == b.capacity(),
{
}

/// Every free block of class `k` starts at a multiple of `2^k`, and no two
/// free blocks overlap.
pub proof fn lemma_buddy_alignment(b: &BuddyAllocator)
    requires
        b.wf(),
    ensures
        forall|i: int, j: int|
            0 <= i < b.num_levels() && 0 <= j < b.free_blocks(i).len() ==> (#[trigger] b.free_blocks(i)[j]).size_class
                == b.min_class() + i && aligned(b.free_blocks(i)[j].addr as int, (b.min_class() + i) as nat),
        forall|i1: int, j1: int, i2: int, j2: int|
            0 <= i1 < b.num_levels() && 0 <= j1 < b.free_blocks(i1).len() && 0 <= i2 < b.num_levels() && 0 <= j2
                < b.free_blocks(i2).len() && (i1 != i2 || j1 != j2) ==> apart(
                #[trigger] b.free_blocks(i1)[j1],
                #[trigger] b.free_blocks(i2)[j2],
            ),
{
    assert forall|i: int, j: int|
        0 <= i < b.num_levels() && 0 <= j < b.free_blocks(i).len() implies (#[trigger] b.free_blocks(i)[j]).size_class
        == b.min_class() + i && aligned(b.free_blocks(i)[j].addr as int, (b.min_class() + i) as nat) by {
        assert(b.free_blocks(i)[j] == b.levels@[i].blocks@[j]);
    }
    assert forall|i1: int, j1: int, i2: int, j2: int|
        0 <= i1 < b.num_levels() && 0 <= j1 < b.free_blocks(i1).len() && 0 <= i2 < b.num_levels() && 0 <= j2
            < b.free_blocks(i2).len() && (i1 != i2 || j1 != j2) implies apart(
        #[trigger] b.free_blocks(i1)[j1],
        #[trigger] b.free_blocks(i2)[j2],
    ) by {
        assert(b.free_blocks(i1)[j1] == b.levels@[i1].blocks@[j1]);
        assert(b.free_blocks(i2)[j2] == b.levels@[i2].blocks@[j2]);
    }
}

/// What the totals are, and what the bookkeeping keeps of the grants: each
/// lies inside the space, aligned to its class; no two grants overlap, and no
/// free block overlaps a grant.
pub proof fn lemma_buddy_views(b: &BuddyAllocator)
    requires
        b.wf(),
    ensures
        b.min_class() <= b.max_class() < usize::BITS,
        b.free_lists().len() == b.num_levels(),
        b.free_total() == sum(
            Seq::new(
                b.num_levels(),
                |i: int| (b.free_blocks(i).len() * pow2((b.min_class() + i) as nat)) as int,
            ),
        ),
        b.granted_total() == sum(b.grants().map_values(|g: Allocation| pow2(g.size_class as nat) as int)),
        b.padding_total() == sum(b.grants().map_values(|g: Allocation| g.padding as int)),
        b.free_total() + b.granted_total() == b.capacity(),
        b.free_total() >= 0,
        b.granted_total() >= 0,
        0 <= b.padding_total() <= b.granted_total(),
        forall|k: int|
            0 <= k < b.grants().len() ==> b.min_class() <= (#[trigger] b.grants()[k]).size_class
                <= b.max_class() && placed(as_block(b.grants()[k]), b.max_class()) && b.grants()[k].padding
                <= pow2(b.grants()[k].size_class as nat),
        forall|k1: int, k2: int|
            0 <= k1 < b.grants().len() && 0 <= k2 < b.grants().len() && k1 != k2 ==> apart(
                as_block(#[trigger] b.grants()[k1]),
                as_block(#[trigger] b.grants()[k2]),
            ),
        forall|i: int, j: int, k: int|
            0 <= i < b.num_levels() && 0 <= j < b.free_blocks(i).len() && 0 <= k < b.grants().len() ==> apart(
                #[trigger] b.free_blocks(i)[j],
                as_block(#[trigger] b.grants()[k]),
            ),
{
    let lv = b.levels@;
    assert(level_sizes(lv) =~= Seq::new(
        b.num_levels(),
        |i: int| (b.free_blocks(i).len() * pow2((b.min_class() + i) as nat)) as int,
    ));
    lemma_sum_nonneg(level_sizes(lv));
    lemma_sum_nonneg(grant_sizes(b.sizemap@));
    lemma_pads_le(b.sizemap@);
    assert forall|i: int, j: int, k: int|
        0 <= i < b.num_levels() && 0 <= j < b.free_blocks(i).len() && 0 <= k < b.grants().len() implies apart(
        #[trigger] b.free_blocks(i)[j],
        as_block(#[trigger] b.grants()[k]),
    ) by {
        assert(b.free_blocks(i)[j] == lv[i].blocks@[j]);
    }
}

} // verus!
