use vstd::prelude::*;
use crate::pool::PoolView;

verus! {

/// One operation on a pool: take a slot, or give one back.
pub enum PoolOp {
    Take,
    GiveBack(usize),
}

/// The values among a run of results.
pub open spec fn values(rs: Seq<Option<usize>>) -> Set<usize> {
    Set::new(|v: usize| rs.contains(Some(v)))
}

impl PoolView {
    /// `n` takes in a row: the state after them and what each returned.
    pub open spec fn take_many(self, n: nat) -> (PoolView, Seq<Option<usize>>)
        decreases n,
    {
        if n == 0 {
            (self, Seq::empty())
        } else {
            let (q, rs) = self.take_many((n - 1) as nat);
            (q.take().0, rs.push(q.take().1))
        }
    }

    /// Gives the values of `vs` back one after another, first to last.
    pub open spec fn give_back_all(self, vs: Seq<usize>) -> PoolView
        decreases vs.len(),
    {
        if vs.len() == 0 {
            self
        } else {
            self.give_back_all(vs.drop_last()).give_back(vs.last()).0
        }
    }

    /// Runs `ops` in order: the state after them and, for each, what a take
    /// returned (`None` for a give-back).
    pub open spec fn run(self, ops: Seq<PoolOp>) -> (PoolView, Seq<Option<usize>>)
        decreases ops.len(),
    {
        if ops.len() == 0 {
            (self, Seq::empty())
        } else {
            let (q, rs) = self.run(ops.drop_last());
            match ops.last() {
                PoolOp::Take => (q.take().0, rs.push(q.take().1)),
                PoolOp::GiveBack(v) => (q.give_back(v).0, rs.push(None)),
            }
        }
    }
}

/// Taking keeps a pool well formed and keeps held slots held; a slot that it
/// hands out was not held before and is held after.
pub proof fn lemma_take_step(p: PoolView)
    requires
        p.wf(),
    ensures
        p.take().0.wf(),
        p.take().0.chunk_size == p.chunk_size,
        p.take().0.allocated >= p.allocated,
        forall|u: usize| p.is_held(u) ==> #[trigger] p.take().0.is_held(u),
        p.take().1 matches Some(v) ==> !p.is_held(v) && p.take().0.is_held(v),
{
    let q = p.take().0;
    if p.free.len() > 0 {
        let n = p.free.len();
        assert(q.free =~= p.free.subrange(0, n - 1));
        assert forall|u: usize| p.is_held(u) implies #[trigger] q.is_held(u) by {
            if q.free.contains(u) {
                let k = choose|k: int| 0 <= k < q.free.len() && q.free[k] == u;
                assert(p.free[k] == u);
            }
        }
        let v = p.free.last();
        assert(p.free[n - 1] == v);
        if q.free.contains(v) {
            let k = choose|k: int| 0 <= k < q.free.len() && q.free[k] == v;
            assert(p.free[k] == p.free[n - 1]);
        }
    } else if p.allocated + p.chunk_size <= usize::MAX {
        let a = p.allocated;
        assert forall|u: usize| p.is_held(u) implies #[trigger] q.is_held(u) by {
            if q.free.contains(u) {
                let k = choose|k: int| 0 <= k < q.free.len() && q.free[k] == u;
            }
        }
        let v = (a + p.chunk_size - 1) as usize;
        if q.free.contains(v) {
            let k = choose|k: int| 0 <= k < q.free.len() && q.free[k] == v;
        }
    }
}

/// Giving back keeps a pool well formed, and keeps held every other slot
/// that was held.
pub proof fn lemma_give_back_step(p: PoolView, v: usize)
    requires
        p.wf(),
    ensures
        p.give_back(v).0.wf(),
        p.give_back(v).0.chunk_size == p.chunk_size,
        p.give_back(v).0.allocated == p.allocated,
        forall|u: usize| u != v && p.is_held(u) ==> #[trigger] p.give_back(v).0.is_held(u),
{
    let q = p.give_back(v).0;
    if p.is_held(v) {
        assert forall|i: int, j: int| 0 <= i < j < q.free.len() implies q.free[i] != q.free[j] by {
            if j == q.free.len() - 1 {
                assert(p.free.contains(q.free[i]));
            }
        }
        assert forall|u: usize| u != v && p.is_held(u) implies #[trigger] q.is_held(u) by {
            if q.free.contains(u) {
                let k = choose|k: int| 0 <= k < q.free.len() && q.free[k] == u;
                assert(p.free[k] == u);
            }
        }
    }
}

/// Handing out: a run of takes on a well-formed pool returns pairwise
/// distinct slots, none of them held before the run, all of them held after.
pub proof fn law_takes_are_distinct(p: PoolView, n: nat)
    requires
        p.wf(),
    ensures
        p.take_many(n).1.len() == n,
        p.take_many(n).0.wf(),
        forall|u: usize| p.is_held(u) ==> #[trigger] p.take_many(n).0.is_held(u),
        forall|i: int| #![auto] 0 <= i < n && p.take_many(n).1[i] is Some ==> {
            let v = p.take_many(n).1[i]->0;
            !p.is_held(v) && p.take_many(n).0.is_held(v)
        },
        forall|i: int, j: int| #![auto] 0 <= i < j < n && p.take_many(n).1[i] is Some ==>
            p.take_many(n).1[i] != p.take_many(n).1[j],
    decreases n,
{
    if n > 0 {
        let m = (n - 1) as nat;
        law_takes_are_distinct(p, m);
        let q = p.take_many(m).0;
        lemma_take_step(q);
        let rs = p.take_many(n).1;
        assert(rs =~= p.take_many(m).1.push(q.take().1));
        assert forall|i: int, j: int| #![auto] 0 <= i < j < n && rs[i] is Some implies rs[i] != rs[j] by {
            if j == m {
                assert(q.is_held(rs[i]->0));
            } else {
                assert(p.take_many(m).1[i] == rs[i]);
                assert(p.take_many(m).1[j] == rs[j]);
            }
        }
        assert forall|i: int| #![auto] 0 <= i < n && rs[i] is Some implies {
            let v = rs[i]->0;
            !p.is_held(v) && p.take_many(n).0.is_held(v)
        } by {
            if i < m {
                assert(p.take_many(m).1[i] == rs[i]);
            } else {
                let v = rs[i]->0;
                if p.is_held(v) {
                    assert(q.is_held(v));
                }
            }
        }
    }
}

/// Deferred reclamation: a held slot that a run of takes and give-backs never
/// gives back is never handed out by it, and is still held after it.
pub proof fn law_held_slot_not_reissued(p: PoolView, v: usize, ops: Seq<PoolOp>)
    requires
        p.wf(),
        p.is_held(v),
        forall|i: int| 0 <= i < ops.len() ==> ops[i] != PoolOp::GiveBack(v),
    ensures
        p.run(ops).1.len() == ops.len(),
        p.run(ops).0.wf(),
        p.run(ops).0.is_held(v),
        !p.run(ops).1.contains(Some(v)),
    decreases ops.len(),
{
    if ops.len() > 0 {
        let front = ops.drop_last();
        law_held_slot_not_reissued(p, v, front);
        let (q, rs) = p.run(front);
        lemma_take_step(q);
        match ops.last() {
            PoolOp::Take => {},
            PoolOp::GiveBack(u) => {
                lemma_give_back_step(q, u);
            },
        }
        let all = p.run(ops).1;
        if all.contains(Some(v)) {
            let k = choose|k: int| 0 <= k < all.len() && all[k] == Some(v);
            if k < rs.len() {
                assert(rs[k] == all[k]);
            }
        }
    }
}

/// While the free stack lasts, takes pop it from the top.
pub proof fn lemma_take_from_free(p: PoolView, n: nat)
    requires
        n <= p.free.len(),
    ensures
        p.take_many(n).0 == (PoolView { free: p.free.subrange(0, p.free.len() - n), ..p }),
        p.take_many(n).1 == Seq::new(n, |i: int| Some(p.free[p.free.len() - 1 - i])),
    decreases n,
{
    let len = p.free.len();
    if n == 0 {
        assert(p.free.subrange(0, len as int) =~= p.free);
        assert(p.take_many(n).1 =~= Seq::new(n, |i: int| Some(p.free[len - 1 - i])));
    } else {
        let m = (n - 1) as nat;
        lemma_take_from_free(p, m);
        let q = p.take_many(m).0;
        assert(q.free.last() == p.free[len - n]);
        assert(q.free.drop_last() =~= p.free.subrange(0, len - n));
        assert(p.take_many(n).1 =~= Seq::new(n, |i: int| Some(p.free[len - 1 - i])));
    }
}

/// `a + b` takes are `a` takes followed by `b` takes.
pub proof fn lemma_take_many_split(p: PoolView, a: nat, b: nat)
    ensures
        p.take_many(a + b).0 == p.take_many(a).0.take_many(b).0,
        p.take_many(a + b).1 == p.take_many(a).1 + p.take_many(a).0.take_many(b).1,
    decreases b,
{
    if b == 0 {
        assert(p.take_many(a).1 + Seq::empty() =~= p.take_many(a).1);
    } else {
        lemma_take_many_split(p, a, (b - 1) as nat);
        assert((a + b - 1) as nat == a + (b - 1) as nat);
        let q = p.take_many(a).0;
        assert(p.take_many(a + b).1 =~= p.take_many(a).1 + q.take_many(b).1);
    }
}

/// Giving back distinct held slots one after another stacks them on the free
/// stack in that order.
pub proof fn lemma_give_back_all_held(p: PoolView, vs: Seq<usize>)
    requires
        vs.no_duplicates(),
        forall|k: int| 0 <= k < vs.len() ==> p.is_held(#[trigger] vs[k]),
    ensures
        p.give_back_all(vs) == (PoolView { free: p.free + vs, ..p }),
    decreases vs.len(),
{
    if vs.len() == 0 {
        assert(p.free + vs =~= p.free);
    } else {
        let front = vs.drop_last();
        lemma_give_back_all_held(p, front);
        let q = p.give_back_all(front);
        let v = vs.last();
        assert(p.is_held(vs[vs.len() - 1]));
        if q.free.contains(v) {
            let k = choose|k: int| 0 <= k < q.free.len() && q.free[k] == v;
            if k < p.free.len() {
                assert(p.free[k] == v);
            } else {
                assert(vs[k - p.free.len()] == vs[vs.len() - 1]);
            }
        }
        assert(q.free.push(v) =~= p.free + vs);
    }
}

/// The slots that a fresh pool of `size` slots hands out first: all of them,
/// from the highest down.
proof fn lemma_initial_takes(size: nat, chunk: nat)
    requires
        size <= usize::MAX,
    ensures
        PoolView::initial(size, chunk).take_many(size).0 == (PoolView {
            free: Seq::empty(),
            allocated: size,
            chunk_size: chunk,
        }),
        PoolView::initial(size, chunk).take_many(size).1 == Seq::new(
            size,
            |i: int| Some((size - 1 - i) as usize),
        ),
{
    let p = PoolView::initial(size, chunk);
    lemma_take_from_free(p, size);
    assert(p.free.subrange(0, 0) =~= Seq::<usize>::empty());
    assert(p.take_many(size).1 =~= Seq::new(size, |i: int| Some((size - 1 - i) as usize)));
}

/// Reuse: on a fresh pool of `size` slots, take `size` slots, give all of
/// them back in any order, and take `size` again: the second run hands out
/// the same slots as the first, without growing the pool.
pub proof fn law_released_slots_reused(size: nat, chunk: nat, order: Seq<usize>)
    requires
        chunk > 0,
        size <= usize::MAX,
        order.len() == size,
        order.no_duplicates(),
        forall|v: usize| #[trigger] order.contains(v) <==> values(PoolView::initial(size, chunk).take_many(size).1).contains(v),
    ensures
        ({
            let first = PoolView::initial(size, chunk).take_many(size);
            let second = first.0.give_back_all(order).take_many(size);
            &&& values(second.1) == values(first.1)
            &&& second.0.allocated == size
        }),
{
    let first = PoolView::initial(size, chunk).take_many(size);
    lemma_initial_takes(size, chunk);
    assert forall|v: usize| #[trigger] values(first.1).contains(v) <==> v < size by {
        if v < size {
            assert(first.1[size - 1 - v] == Some(v));
        }
    }
    assert forall|k: int| 0 <= k < order.len() implies first.0.is_held(#[trigger] order[k]) by {
        assert(order.contains(order[k]));
    }
    lemma_give_back_all_held(first.0, order);
    let p2 = first.0.give_back_all(order);
    assert(p2.free =~= order);
    lemma_take_from_free(p2, size);
    let second = p2.take_many(size);
    assert forall|v: usize| #[trigger] values(second.1).contains(v) <==> order.contains(v) by {
        if order.contains(v) {
            let k = choose|k: int| 0 <= k < order.len() && order[k] == v;
            assert(second.1[size - 1 - k] == Some(v));
        }
        if values(second.1).contains(v) {
            let i = choose|i: int| 0 <= i < second.1.len() && second.1[i] == Some(v);
            assert(order[size - 1 - i] == v);
        }
    }
    assert(values(second.1) =~= values(first.1));
}

/// Growth: on a fresh pool of `size` slots with growth step `chunk`, once all
/// `size` slots are handed out, the next take returns `size + chunk - 1`, and
/// the `chunk - 1` takes after it return the slots `size .. size + chunk - 1`
/// without growing the pool again.
pub proof fn law_growth(size: nat, chunk: nat)
    requires
        chunk > 0,
        size + chunk <= usize::MAX,
    ensures
        ({
            let (q, rs) = PoolView::initial(size, chunk).take_many(size + chunk);
            &&& rs[size as int] == Some((size + chunk - 1) as usize)
            &&& values(rs.subrange(size + 1 as int, size + chunk as int)) == Set::new(
                |v: usize| size <= v < size + chunk - 1,
            )
            &&& q.allocated == size + chunk
        }),
{
    let p0 = PoolView::initial(size, chunk);
    lemma_initial_takes(size, chunk);
    lemma_take_many_split(p0, size, chunk);
    let p1 = p0.take_many(size).0;
    lemma_take_many_split(p1, 1, (chunk - 1) as nat);
    assert(1 + (chunk - 1) as nat == chunk);
    assert(p1.take_many(0) == (p1, Seq::<Option<usize>>::empty()));
    assert(p1.free.len() == 0);
    let p2 = p1.take_many(1).0;
    assert(p1.take_many(1).1 =~= seq![Some((size + chunk - 1) as usize)]);
    assert(p2.free == PoolView::staged(size, (chunk - 1) as nat));
    lemma_take_from_free(p2, (chunk - 1) as nat);
    let rest = p2.take_many((chunk - 1) as nat).1;
    let rs = p0.take_many(size + chunk).1;
    assert(rs.subrange(size + 1 as int, size + chunk as int) =~= rest);
    assert forall|v: usize| #[trigger] values(rest).contains(v) <==> size <= v < size + chunk - 1 by {
        if size <= v < size + chunk - 1 {
            assert(rest[size + chunk - 2 - v] == Some(v));
        }
    }
    assert(values(rest) =~= Set::new(|v: usize| size <= v < size + chunk - 1));
}

/// Giving back a run of values keeps a pool well formed, and keeps held
/// every held slot that the run does not name.
pub proof fn lemma_give_back_all_step(p: PoolView, vs: Seq<usize>)
    requires
        p.wf(),
    ensures
        p.give_back_all(vs).wf(),
        p.give_back_all(vs).allocated == p.allocated,
        forall|u: usize| p.is_held(u) && !vs.contains(u) ==> #[trigger] p.give_back_all(vs).is_held(u),
    decreases vs.len(),
{
    if vs.len() > 0 {
        let front = vs.drop_last();
        lemma_give_back_all_step(p, front);
        lemma_give_back_step(p.give_back_all(front), vs.last());
        assert forall|u: usize| p.is_held(u) && !vs.contains(u) implies #[trigger] p.give_back_all(vs).is_held(u) by {
            if front.contains(u) {
                let k = choose|k: int| 0 <= k < front.len() && front[k] == u;
                assert(vs[k] == u);
            }
            assert(vs[vs.len() - 1] == vs.last());
        }
    }
}

/// What `Generator::generate` does to a held slot: whatever came back
/// before the take, a slot that was held and was not sent back is not handed
/// out, and is still held after.
pub proof fn law_generate_spares_held_slots(p: PoolView, returned: Seq<usize>, v: usize)
    requires
        p.wf(),
        p.is_held(v),
        !returned.contains(v),
    ensures
        p.give_back_all(returned).take().1 != Some(v),
        p.give_back_all(returned).take().0.is_held(v),
{
    lemma_give_back_all_step(p, returned);
    lemma_take_step(p.give_back_all(returned));
}

} // verus!
