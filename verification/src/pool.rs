//! A size-bucketed pool of device memory.
//!
//! Freed blocks are kept in a list per exact size in bytes, and a block of that
//! size is handed out again before the driver is asked for one. What the pool holds
//! is capped.

use std::collections::HashMap;

use vstd::prelude::*;

verus! {

broadcast use vstd::std_specs::hash::group_hash_axioms;

/// Keep at most this many bytes of freed device memory around.
pub const POOL_CAP: usize = 805_306_368;

/// The free blocks by their sizes.
pub type Blocks = Map<usize, Seq<u64>>;

/// The bytes in the blocks of some sizes.
pub open spec fn held(m: Blocks) -> nat
    decreases m.dom().len(),
    when m.dom().finite()
{
    if m.dom().is_empty() {
        0
    } else {
        let k = m.dom().choose();
        k as nat * m[k].len() + held(m.remove(k))
    }
}

proof fn lemma_held_remove(m: Blocks, k: usize)
    requires
        m.dom().finite(),
        m.contains_key(k),
    ensures
        held(m) == k * m[k].len() + held(m.remove(k)),
    decreases m.dom().len(),
{
    let c = m.dom().choose();
    if c != k {
        lemma_held_remove(m.remove(c), k);
        lemma_held_remove(m.remove(k), c);
        assert(m.remove(c).remove(k) =~= m.remove(k).remove(c));
    }
}

/// With one more block.
pub open spec fn given(m: Blocks, bytes: usize, block: u64) -> Blocks {
    if m.contains_key(bytes) {
        m.insert(bytes, m[bytes].push(block))
    } else {
        m.insert(bytes, seq![block])
    }
}

/// Without the block of a size that came last.
pub open spec fn taken(m: Blocks, bytes: usize) -> Blocks {
    if m[bytes].len() == 1 {
        m.remove(bytes)
    } else {
        m.insert(bytes, m[bytes].drop_last())
    }
}

proof fn lemma_held_given(m: Blocks, bytes: usize, block: u64)
    requires
        m.dom().finite(),
    ensures
        given(m, bytes, block).dom().finite(),
        held(given(m, bytes, block)) == held(m) + bytes,
{
    let g = given(m, bytes, block);
    lemma_held_remove(g, bytes);
    assert(g.remove(bytes) =~= m.remove(bytes));
    if m.contains_key(bytes) {
        lemma_held_remove(m, bytes);
        let n = m[bytes].len();
        assert(bytes * (n + 1) == bytes * n + bytes) by (nonlinear_arith);
    } else {
        assert(m.remove(bytes) =~= m);
        assert(bytes * 1 == bytes) by (nonlinear_arith);
    }
}

proof fn lemma_held_taken(m: Blocks, bytes: usize)
    requires
        m.dom().finite(),
        m.contains_key(bytes),
        m[bytes].len() > 0,
    ensures
        taken(m, bytes).dom().finite(),
        held(m) == held(taken(m, bytes)) + bytes,
{
    let t = taken(m, bytes);
    let n = m[bytes].len();
    lemma_held_remove(m, bytes);
    if n == 1 {
        assert(bytes * 1 == bytes) by (nonlinear_arith);
    } else {
        lemma_held_remove(t, bytes);
        assert(t.remove(bytes) =~= m.remove(bytes));
        let less = (n - 1) as nat;
        assert(bytes * n == bytes * less + bytes) by (nonlinear_arith)
            requires
                n == less + 1,
        ;
    }
}

/// What is given back last is handed out first, and the pool is then what it was.
pub proof fn take_undoes_give(m: Blocks, bytes: usize, block: u64)
    requires
        m.contains_key(bytes) ==> m[bytes].len() > 0,
    ensures
        given(m, bytes, block)[bytes].last() == block,
        taken(given(m, bytes, block), bytes) == m,
{
    let g = given(m, bytes, block);
    if m.contains_key(bytes) {
        assert(g[bytes].drop_last() =~= m[bytes]);
    }
    assert(taken(g, bytes) =~= m);
}

/// A block given back under one size is never handed out under another.
pub proof fn give_leaves_other_sizes(m: Blocks, bytes: usize, block: u64, other: usize)
    requires
        other != bytes,
    ensures
        given(m, bytes, block).contains_key(other) == m.contains_key(other),
        given(m, bytes, block)[other] == m[other],
{
}

/// A pool keeps no empty list, so what is given to it comes back.
pub proof fn no_empty_list(p: Pool, bytes: usize)
    requires
        p.wf(),
    ensures
        p@.contains_key(bytes) ==> p@[bytes].len() > 0,
{
}

/// A block that a pool keeps is the next one of its size that it hands out, and the
/// pool then holds what it held before.
pub proof fn pool_gives_back(p: Pool, bytes: usize, block: u64)
    requires
        p.wf(),
    ensures
        given(p@, bytes, block).contains_key(bytes),
        given(p@, bytes, block)[bytes].last() == block,
        taken(given(p@, bytes, block), bytes) == p@,
        held(taken(given(p@, bytes, block), bytes)) == held(p@),
{
    no_empty_list(p, bytes);
    take_undoes_give(p@, bytes, block);
}

/// A pool of freed blocks, by their addresses.
pub struct Pool {
    free: HashMap<usize, Vec<u64>>,
    bytes: usize,
    enabled: bool,
    hits: usize,
    misses: usize,
}

impl View for Pool {
    type V = Blocks;

    closed spec fn view(&self) -> Blocks {
        self.free@.map_values(|v: Vec<u64>| v@)
    }
}

impl Pool {
    /// The pool knows how much it holds, which is no more than the cap, and keeps
    /// no empty list.
    pub closed spec fn wf(&self) -> bool {
        &&& self@.dom().finite()
        &&& self.bytes == held(self@)
        &&& self.bytes <= POOL_CAP
        &&& forall|k: usize| #[trigger] self@.contains_key(k) ==> self@[k].len() > 0
    }

    pub closed spec fn on(&self) -> bool {
        self.enabled
    }

    pub closed spec fn hit_count(&self) -> usize {
        self.hits
    }

    pub closed spec fn miss_count(&self) -> usize {
        self.misses
    }

    /// An empty pool. One that is not enabled never holds anything.
    pub fn new(enabled: bool) -> (p: Pool)
        ensures
            p.wf(),
            p@ == Blocks::empty(),
            p.on() == enabled,
            p.hit_count() == 0,
            p.miss_count() == 0,
    {
        let p = Pool { free: HashMap::new(), bytes: 0, enabled, hits: 0, misses: 0 };
        assert(p@ =~= Blocks::empty());
        p
    }

    /// The bytes that the pool holds.
    pub fn cached(&self) -> (n: usize)
        requires
            self.wf(),
        ensures
            n == held(self@),
            n <= POOL_CAP,
    {
        self.bytes
    }

    pub fn hits(&self) -> (n: usize)
        ensures
            n == self.hit_count(),
    {
        self.hits
    }

    pub fn misses(&self) -> (n: usize)
        ensures
            n == self.miss_count(),
    {
        self.misses
    }

    /// Count a block that the driver had to give.
    pub fn miss(&mut self)
        requires
            old(self).wf(),
            old(self).miss_count() < usize::MAX,
        ensures
            final(self).wf(),
            final(self)@ == old(self)@,
            final(self).on() == old(self).on(),
            final(self).hit_count() == old(self).hit_count(),
            final(self).miss_count() == old(self).miss_count() + 1,
    {
        self.misses += 1;
    }

    /// Take a block of exactly `bytes` from the pool, if one is free.
    pub fn acquire(&mut self, bytes: usize) -> (r: Option<u64>)
        requires
            old(self).wf(),
            old(self).hit_count() < usize::MAX,
        ensures
            final(self).wf(),
            final(self).on() == old(self).on(),
            final(self).miss_count() == old(self).miss_count(),
            match r {
                Some(block) => {
                    &&& old(self).on()
                    &&& old(self)@.contains_key(bytes)
                    &&& block == old(self)@[bytes].last()
                    &&& final(self)@ == taken(old(self)@, bytes)
                    &&& final(self).hit_count() == old(self).hit_count() + 1
                },
                None => {
                    &&& !(old(self).on() && old(self)@.contains_key(bytes))
                    &&& final(self)@ == old(self)@
                    &&& final(self).hit_count() == old(self).hit_count()
                },
            },
    {
        if !self.enabled {
            return None;
        }
        let ghost before = self@;
        match self.free.remove(&bytes) {
            Some(list) => {
                let mut list = list;
                assert(before.contains_key(bytes) && before[bytes] == list@);
                let ghost all = list@;
                match list.pop() {
                    Some(block) => {
                        proof {
                            lemma_held_taken(before, bytes);
                        }
                        if list.len() > 0 {
                            self.free.insert(bytes, list);
                        }
                        self.bytes = self.bytes - bytes;
                        self.hits += 1;
                        assert(self@ =~= taken(before, bytes));
                        Some(block)
                    },
                    None => None,
                }
            },
            None => {
                assert(self@ =~= before);
                None
            },
        }
    }

    /// Give a block back. False where the caller must free it.
    pub fn release(&mut self, block: u64, bytes: usize) -> (kept: bool)
        requires
            old(self).wf(),
        ensures
            final(self).wf(),
            final(self).on() == old(self).on(),
            final(self).hit_count() == old(self).hit_count(),
            final(self).miss_count() == old(self).miss_count(),
            kept == (old(self).on() && held(old(self)@) + bytes <= POOL_CAP),
            final(self)@ == if kept {
                given(old(self)@, bytes, block)
            } else {
                old(self)@
            },
    {
        if !self.enabled || bytes > POOL_CAP - self.bytes {
            return false;
        }
        let ghost before = self@;
        proof {
            lemma_held_given(before, bytes, block);
        }
        let mut list = match self.free.remove(&bytes) {
            Some(list) => list,
            None => Vec::new(),
        };
        assert(before.contains_key(bytes) ==> list@ == before[bytes]);
        list.push(block);
        let ghost pushed = list@;
        self.free.insert(bytes, list);
        self.bytes = self.bytes + bytes;
        assert(self@ =~= given(before, bytes, block));
        true
    }
}

/// The bytes of a block for `floats` floats: at least one.
pub open spec fn block_len(floats: int) -> int {
    if floats == 0 {
        4
    } else {
        floats * 4
    }
}

/// The size of the block that an allocation of `floats` floats takes.
pub fn block_bytes(floats: usize) -> (n: usize)
    requires
        floats * 4 <= usize::MAX,
    ensures
        n == block_len(floats as int),
{
    if floats == 0 {
        4
    } else {
        floats * 4
    }
}

} // verus!
