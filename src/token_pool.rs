use vstd::prelude::*;

verus! {

/// Identifier of a pool slot. Slots are reused after being freed.
pub type PoolKey = u32;

/// The generation that follows `g`: a wrapping increment.
pub open spec fn next_generation(g: u32) -> u32 {
    if g == u32::MAX {
        0
    } else {
        (g + 1) as u32
    }
}

/// A key paired with the generation it was handed out under.
#[derive(Debug, Clone, Copy, PartialEq, Eq, Structural, PartialOrd, Ord, Hash)]
pub struct PoolToken {
    key: PoolKey,
    generation: u32,
}

impl View for PoolToken {
    /// `(key, generation)`
    type V = (u32, u32);

    closed spec fn view(&self) -> (u32, u32) {
        (self.key, self.generation)
    }
}

impl PoolToken {
    pub fn key(&self) -> (r: PoolKey)
        ensures
            r == self@.0,
    {
        self.key
    }

    pub fn generation(&self) -> (r: u32)
        ensures
            r == self@.1,
    {
        self.generation
    }

    /// The token with the given key and generation, for tokens kept as plain pairs.
    pub(crate) fn from_parts(key: PoolKey, generation: u32) -> (r: PoolToken)
        ensures
            r@ == (key, generation),
    {
        PoolToken { key, generation }
    }

    /// The half-open range of tokens, in token order, whose key is `key`.
    pub fn range_for_key(key: PoolKey) -> (r: std::ops::Range<PoolToken>)
        requires
            key < u32::MAX,
        ensures
            r.start@ == (key, 0u32),
            r.end@ == ((key + 1) as u32, 0u32),
    {
        let lo = PoolToken { key, generation: 0 };
        let hi = PoolToken { key: key + 1, generation: 0 };
        lo..hi
    }
}

/// Hands out tokens for the lowest unused key, tracking a generation per key.
pub struct TokenPool {
    generations: Vec<u32>,
    freed: Vec<PoolKey>,
}

impl View for TokenPool {
    /// The generation of every key ever handed out, and the set of freed keys.
    type V = (Seq<u32>, Set<u32>);

    closed spec fn view(&self) -> (Seq<u32>, Set<u32>) {
        (self.generations@, self.freed@.to_set())
    }
}

impl TokenPool {
    pub closed spec fn wf(&self) -> bool {
        &&& self.freed@.no_duplicates()
        &&& forall|i: int|
            0 <= i < self.freed@.len() ==> (#[trigger] self.freed@[i]) < self.generations@.len()
        &&& self.generations@.len() <= u32::MAX + 1
    }

    /// Whether no live token uses `k`.
    pub open spec fn is_unused(&self, k: u32) -> bool {
        k >= self@.0.len() || self@.1.contains(k)
    }

    /// Whether `key` with `generation` is the token currently handed out for `key`.
    pub open spec fn is_live_parts(&self, key: u32, generation: u32) -> bool {
        &&& key < self@.0.len()
        &&& !self@.1.contains(key)
        &&& self@.0[key as int] == generation
    }

    /// Whether `t` is the token currently handed out for its key.
    pub open spec fn is_live(&self, t: PoolToken) -> bool {
        self.is_live_parts(t@.0, t@.1)
    }

    /// Whether `alloc_token` can hand out a key.
    pub open spec fn can_alloc(&self) -> bool {
        self@.1.len() > 0 || self@.0.len() <= u32::MAX
    }

    /// Whether `alloc_token` can hand out a key.
    pub fn has_capacity(&self) -> (r: bool)
        requires
            self.wf(),
        ensures
            r == self.can_alloc(),
    {
        proof {
            self.freed@.unique_seq_to_set();
        }
        self.freed.len() > 0 || self.generations.len() <= u32::MAX as usize
    }

    pub fn new() -> (r: Self)
        ensures
            r.wf(),
            r@.0 == Seq::<u32>::empty(),
            r@.1 == Set::<u32>::empty(),
    {
        let r = TokenPool { generations: Vec::new(), freed: Vec::new() };
        proof {
            assert(r.freed@.to_set() =~= Set::<u32>::empty());
        }
        r
    }

    /// Hands out a token for the numerically lowest unused key, growing the pool
    /// when no freed key is available.
    pub fn alloc_token(&mut self) -> (r: PoolToken)
        requires
            old(self).wf(),
            old(self).can_alloc(),
        ensures
            final(self).wf(),
            old(self).is_unused(r@.0),
            forall|j: u32| j < r@.0 ==> !old(self).is_unused(j),
            r@.1 == if r@.0 < old(self)@.0.len() {
                old(self)@.0[r@.0 as int]
            } else {
                0u32
            },
            final(self)@.0 == if r@.0 < old(self)@.0.len() {
                old(self)@.0
            } else {
                old(self)@.0.push(0u32)
            },
            final(self)@.1 == old(self)@.1.remove(r@.0),
            final(self).is_live(r),
    {
        proof {
            self.freed@.unique_seq_to_set();
        }
        if self.freed.len() > 0 {
            let mut best: usize = 0;
            let mut i: usize = 1;
            while i < self.freed.len()
                invariant
                    0 <= best < i <= self.freed@.len(),
                    forall|j: int| 0 <= j < i ==> self.freed@[best as int] <= self.freed@[j],
                decreases self.freed@.len() - i,
            {
                if self.freed[i] < self.freed[best] {
                    best = i;
                }
                i = i + 1;
            }
            let ghost old_freed = self.freed@;
            let key = self.freed.swap_remove(best);
            let generation = self.generations[key as usize];
            proof {
                assert(old_freed.contains(key));
                assert forall|j: u32| j < key implies !old(self).is_unused(j) by {
                    if old_freed.contains(j) {
                        let idx = old_freed.index_of(j);
                        assert(old_freed[idx] == j);
                    }
                }
                let ghost n = old_freed.len() - 1;
                assert forall|x: u32| #[trigger] self.freed@.contains(x) <==> (old_freed.contains(x)
                    && x != key) by {
                    if self.freed@.contains(x) {
                        let i = self.freed@.index_of(x);
                        if i == best {
                            assert(x == old_freed[n]);
                            assert(n != best);
                        } else {
                            assert(x == old_freed[i]);
                        }
                    }
                    if old_freed.contains(x) && x != key {
                        let j = old_freed.index_of(x);
                        if j == n {
                            assert(self.freed@[best as int] == x);
                        } else {
                            assert(self.freed@[j] == x);
                        }
                    }
                }
                assert(self.freed@.to_set() =~= old_freed.to_set().remove(key));
                assert forall|i: int, k: int|
                    0 <= i < k < self.freed@.len() implies self.freed@[i] != self.freed@[k] by {
                    if i == best {
                        assert(self.freed@[i] == old_freed[n]);
                        assert(self.freed@[k] == old_freed[k]);
                    } else if k == best {
                        assert(self.freed@[k] == old_freed[n]);
                        assert(self.freed@[i] == old_freed[i]);
                    } else {
                        assert(self.freed@[i] == old_freed[i]);
                        assert(self.freed@[k] == old_freed[k]);
                    }
                }
                assert forall|i: int| 0 <= i < self.freed@.len() implies
                    (#[trigger] self.freed@[i]) < self.generations@.len() by {
                    if i == best {
                        assert(self.freed@[i] == old_freed[n]);
                    } else {
                        assert(self.freed@[i] == old_freed[i]);
                    }
                }
            }
            return PoolToken { key, generation };
        }
        let idx: PoolKey = self.generations.len() as u32;
        self.generations.push(0);
        proof {
            assert(self.freed@.to_set() =~= Set::<u32>::empty());
            assert(old(self)@.1.remove(idx) =~= Set::<u32>::empty());
        }
        PoolToken { key: idx, generation: 0 }
    }

    /// Returns `entry`'s key to the pool and moves the key to its next generation,
    /// so `entry` cannot be freed a second time.
    pub fn free(&mut self, entry: PoolToken)
        requires
            old(self).wf(),
            old(self).is_live(entry),
        ensures
            final(self).wf(),
            final(self)@.0 == old(self)@.0.update(
                entry@.0 as int,
                next_generation(entry@.1),
            ),
            final(self)@.1 == old(self)@.1.insert(entry@.0),
            !final(self).is_live(entry),
    {
        let key = entry.key;
        let g = self.generations[key as usize];
        let next = if g == u32::MAX {
            0
        } else {
            g + 1
        };
        self.generations.set(key as usize, next);
        proof {
            self.freed@.unique_seq_to_set();
        }
        self.freed.push(key);
        proof {
            let ghost prev = old(self).freed@;
            assert forall|x: u32| #[trigger] self.freed@.contains(x) <==> (prev.contains(x) || x
                == key) by {
                if self.freed@.contains(x) {
                    let i = self.freed@.index_of(x);
                    if i < prev.len() {
                        assert(prev[i] == x);
                    }
                }
                if prev.contains(x) {
                    let j = prev.index_of(x);
                    assert(self.freed@[j] == x);
                }
                if x == key {
                    assert(self.freed@[prev.len() as int] == x);
                }
            }
            assert(self.freed@.to_set() =~= old(self)@.1.insert(key));
            assert forall|i: int, k: int|
                0 <= i < k < self.freed@.len() implies self.freed@[i] != self.freed@[k] by {
                if k == prev.len() {
                    assert(!old(self)@.1.contains(key));
                    assert(prev[i] == self.freed@[i]);
                    assert(prev.contains(prev[i]));
                }
            }
        }
    }
}

} // verus!
