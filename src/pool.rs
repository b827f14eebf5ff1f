use vstd::prelude::*;

verus! {

/// The abstract state of a pool of slots.
pub struct PoolView {
    /// Slots minted earlier and held by no handle, as a stack (top last).
    pub free: Seq<usize>,
    /// Number of slots minted so far: the slots are `0 .. allocated`.
    pub allocated: nat,
    /// How many slots are minted at once when the free stack runs dry.
    pub chunk_size: nat,
}

impl PoolView {
    /// The state of a fresh pool: slots `0 .. size` minted, all free.
    pub open spec fn initial(size: nat, chunk_size: nat) -> PoolView {
        PoolView {
            free: Seq::new(size, |k: int| k as usize),
            allocated: size,
            chunk_size,
        }
    }

    /// A positive growth step, and a free stack of distinct minted slots.
    pub open spec fn wf(self) -> bool {
        &&& self.chunk_size > 0
        &&& self.allocated <= usize::MAX
        &&& self.free.no_duplicates()
        &&& forall|k: int| 0 <= k < self.free.len() ==> #[trigger] self.free[k] < self.allocated
    }

    /// A slot is held when it was minted and is not on the free stack.
    pub open spec fn is_held(self, v: usize) -> bool {
        v < self.allocated && !self.free.contains(v)
    }

    /// The slots minted by growth that are staged on the free stack.
    pub open spec fn staged(start: nat, count: nat) -> Seq<usize> {
        Seq::new(count, |k: int| (start + k) as usize)
    }

    /// The result of taking a slot, and the state after it: the top of the
    /// free stack if there is one; else growth by `chunk_size` slots, of which
    /// the last is handed out and the others staged; else nothing, where
    /// growth would pass the largest `usize`.
    pub open spec fn take(self) -> (PoolView, Option<usize>) {
        if self.free.len() > 0 {
            (PoolView { free: self.free.drop_last(), ..self }, Some(self.free.last()))
        } else if self.allocated + self.chunk_size <= usize::MAX {
            (
                PoolView {
                    free: PoolView::staged(self.allocated, (self.chunk_size - 1) as nat),
                    allocated: self.allocated + self.chunk_size,
                    ..self
                },
                Some((self.allocated + self.chunk_size - 1) as usize),
            )
        } else {
            (self, None)
        }
    }

    /// The result of giving a slot back, and the state after it: a held slot
    /// goes on top of the free stack; any other value leaves the pool as it is.
    pub open spec fn give_back(self, v: usize) -> (PoolView, bool) {
        if self.is_held(v) {
            (PoolView { free: self.free.push(v), ..self }, true)
        } else {
            (self, false)
        }
    }
}

/// A pool of slots: the free stack, and for each minted slot whether a
/// handle holds it.
pub struct Pool {
    free: Vec<usize>,
    held: Vec<bool>,
    chunk_size: usize,
}

impl View for Pool {
    type V = PoolView;

    closed spec fn view(&self) -> PoolView {
        PoolView { free: self.free@, allocated: self.held@.len(), chunk_size: self.chunk_size as nat }
    }
}

impl Pool {
    /// The abstract state is well formed and the flags agree with it.
    pub open spec fn wf(&self) -> bool {
        self@.wf() && self.flags_agree()
    }

    /// The flag of each minted slot says whether it is off the free stack.
    pub closed spec fn flags_agree(&self) -> bool {
        forall|v: usize| v < self.held@.len() ==> #[trigger] self.held@[v as int] == !self.free@.contains(v)
    }

    /// A pool with slots `0 .. default_size` minted and free.
    pub fn new(default_size: usize, chunk_size: usize) -> (r: Pool)
        requires
            chunk_size > 0,
        ensures
            r.wf(),
            r@ == PoolView::initial(default_size as nat, chunk_size as nat),
    {
        let mut free: Vec<usize> = Vec::with_capacity(default_size);
        let mut held: Vec<bool> = Vec::with_capacity(default_size);
        let mut i: usize = 0;
        while i < default_size
            invariant
                i <= default_size,
                free@ == Seq::new(i as nat, |k: int| k as usize),
                held@ == Seq::new(i as nat, |k: int| false),
            decreases default_size - i,
        {
            free.push(i);
            held.push(false);
            i = i + 1;
        }
        let r = Pool { free, held, chunk_size };
        assert forall|v: usize| v < r.held@.len() implies #[trigger] r.held@[v as int] == !r.free@.contains(v) by {
            assert(r.free@[v as int] == v);
        }
        assert(r@ =~= PoolView::initial(default_size as nat, chunk_size as nat));
        r
    }

    /// Hands out a free slot, growing the pool when none is free.
    pub fn take(&mut self) -> (r: Option<usize>)
        requires
            old(self).wf(),
        ensures
            final(self).wf(),
            (final(self)@, r) == old(self)@.take(),
    {
        match self.free.pop() {
            Some(v) => {
                self.held.set(v, true);
                proof {
                    assert forall|u: usize| u < self.held@.len() implies #[trigger] self.held@[u as int] == !self.free@.contains(u) by {
                        if u != v {
                            assert(old(self).free@.contains(u) ==> self.free@.contains(u)) by {
                                if old(self).free@.contains(u) {
                                    let k = choose|k: int| 0 <= k < old(self).free@.len() && old(self).free@[k] == u;
                                    assert(self.free@[k] == u);
                                }
                            }
                        } else {
                            assert(!self.free@.contains(v)) by {
                                if self.free@.contains(v) {
                                    let k = choose|k: int| 0 <= k < self.free@.len() && self.free@[k] == v;
                                    assert(old(self).free@[k] == old(self).free@[old(self).free@.len() - 1]);
                                }
                            }
                        }
                    }
                    assert(self@ =~= old(self)@.take().0);
                }
                Some(v)
            },
            None => {
                let allocated = self.held.len();
                if self.chunk_size > usize::MAX - allocated {
                    return None;
                }
                let last = allocated + (self.chunk_size - 1);
                let mut next: usize = allocated;
                while next < last
                    invariant
                        allocated <= next <= last,
                        last == allocated + self.chunk_size - 1,
                        self.chunk_size == old(self).chunk_size,
                        self.free@ == PoolView::staged(allocated as nat, (next - allocated) as nat),
                        self.held@ == old(self).held@ + Seq::new((next - allocated) as nat, |k: int| false),
                        old(self).held@.len() == allocated,
                    decreases last - next,
                {
                    self.free.push(next);
                    self.held.push(false);
                    next = next + 1;
                }
                self.held.push(true);
                proof {
                    assert forall|u: usize| u < self.held@.len() implies #[trigger] self.held@[u as int] == !self.free@.contains(u) by {
                        if u < allocated {
                            assert(self.held@[u as int] == old(self).held@[u as int]);
                            assert(!old(self).free@.contains(u));
                            if self.free@.contains(u) {
                                let k = choose|k: int| 0 <= k < self.free@.len() && self.free@[k] == u;
                            }
                        } else if u < last {
                            assert(self.free@[u - allocated] == u);
                        } else {
                            if self.free@.contains(u) {
                                let k = choose|k: int| 0 <= k < self.free@.len() && self.free@[k] == u;
                            }
                        }
                    }
                    assert(self@ =~= old(self)@.take().0);
                }
                Some(last)
            },
        }
    }

    /// Puts a held slot back on top of the free stack and reports `true`; a
    /// value that is no held slot changes nothing and reports `false`.
    pub fn give_back(&mut self, v: usize) -> (r: bool)
        requires
            old(self).wf(),
        ensures
            final(self).wf(),
            (final(self)@, r) == old(self)@.give_back(v),
    {
        if v < self.held.len() && self.held[v] {
            self.free.push(v);
            self.held.set(v, false);
            proof {
                assert forall|u: usize| u < self.held@.len() implies #[trigger] self.held@[u as int] == !self.free@.contains(u) by {
                    if u != v {
                        if self.free@.contains(u) {
                            let k = choose|k: int| 0 <= k < self.free@.len() && self.free@[k] == u;
                            assert(old(self).free@[k] == u);
                        }
                        if old(self).free@.contains(u) {
                            let k = choose|k: int| 0 <= k < old(self).free@.len() && old(self).free@[k] == u;
                            assert(self.free@[k] == u);
                        }
                    } else {
                        assert(self.free@[self.free@.len() - 1] == v);
                    }
                }
                assert(self@ =~= old(self)@.give_back(v).0);
            }
            true
        } else {
            false
        }
    }

    /// Number of slots minted so far.
    pub fn allocated(&self) -> (r: usize)
        ensures
            r == self@.allocated,
    {
        self.held.len()
    }

    /// The growth step.
    pub fn chunk_size(&self) -> (r: usize)
        ensures
            r == self@.chunk_size,
    {
        self.chunk_size
    }
}

} // verus!
