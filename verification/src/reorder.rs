//! Putting blocks back into stream order.
//!
//! Worker threads finish blocks in any order; the writer must emit them in
//! the order of their ids.  `Reorderer` holds blocks that arrive early and
//! releases each run of consecutive ids as soon as it is complete.

use vstd::prelude::*;

use std::collections::BTreeMap;

verus! {

broadcast use {vstd::std_specs::btree::group_btree_axioms, vstd::laws_cmp::group_laws_cmp};

/// The state of a `Reorderer`: the blocks held back, by id, and the id of
/// the next block to release.
pub struct ReorderState {
    pub pending: Map<usize, Vec<u8>>,
    pub next_id: usize,
}

/// Releases from `pending`, starting at `next`, every block whose id
/// continues the run `next`, `next + 1`, ...: the blocks still held, the id
/// after the run, and the released blocks in order.
pub open spec fn drain(pending: Map<usize, Vec<u8>>, next: usize) -> (Map<usize, Vec<u8>>, usize, Seq<Vec<u8>>)
    decreases pending.dom().len(),
    when pending.dom().finite()
{
    if pending.contains_key(next) && next < usize::MAX {
        let (held, after, released) = drain(pending.remove(next), (next + 1) as usize);
        (held, after, seq![pending[next]] + released)
    } else {
        (pending, next, Seq::empty())
    }
}

/// The arrival of block `id` with bytes `data` in state `st`: the new state
/// and the blocks released, in order.
pub open spec fn reorder_step(st: ReorderState, id: usize, data: Vec<u8>) -> (ReorderState, Seq<Vec<u8>>) {
    let (held, after, released) = drain(st.pending.insert(id, data), st.next_id);
    (ReorderState { pending: held, next_id: after }, released)
}

/// The state after a run of arrivals, and every block released during the
/// run, in order.
pub open spec fn reorder_run(st: ReorderState, arrivals: Seq<(usize, Vec<u8>)>) -> (ReorderState, Seq<Vec<u8>>)
    decreases arrivals.len(),
{
    if arrivals.len() == 0 {
        (st, Seq::empty())
    } else {
        let (mid, out) = reorder_run(st, arrivals.drop_last());
        let (last, released) = reorder_step(mid, arrivals.last().0, arrivals.last().1);
        (last, out + released)
    }
}

/// A reorderer that holds nothing and waits for block 0.
pub open spec fn initial_reorder_state() -> ReorderState {
    ReorderState { pending: Map::empty(), next_id: 0 }
}

/// Whether `order` lists each id below `n` exactly once.
pub open spec fn is_id_permutation(order: Seq<usize>, n: nat) -> bool {
    &&& order.len() == n
    &&& forall|k: int| 0 <= k < n ==> #[trigger] order[k] < n
    &&& forall|i: usize| i < n ==> #[trigger] order.contains(i)
    &&& forall|k: int, l: int| 0 <= k < l < n ==> order[k] != order[l]
}

/// The arrivals of `blocks` (indexed by id) in the order `order` of ids.
pub open spec fn arrivals_in_order(blocks: Seq<Vec<u8>>, order: Seq<usize>) -> Seq<(usize, Vec<u8>)> {
    Seq::new(order.len(), |k: int| (order[k], blocks[order[k] as int]))
}

/// The blocks of `blocks` whose ids lie in `ids` and are at least `m`.
spec fn held_blocks(blocks: Seq<Vec<u8>>, ids: Set<usize>, m: usize) -> Map<usize, Vec<u8>> {
    Map::new(|i: usize| ids.contains(i) && i >= m, |i: usize| blocks[i as int])
}

proof fn lemma_held_blocks_finite(blocks: Seq<Vec<u8>>, ids: Set<usize>, m: usize)
    requires
        ids.finite(),
    ensures
        held_blocks(blocks, ids, m).dom().finite(),
{
    assert(held_blocks(blocks, ids, m).dom().subset_of(ids));
    vstd::set_lib::lemma_set_subset_finite(ids, held_blocks(blocks, ids, m).dom());
}

/// Draining blocks held from a set of ids releases the longest run of ids
/// from `m` that are all present.
proof fn lemma_drain_held(blocks: Seq<Vec<u8>>, ids: Set<usize>, m: usize)
    requires
        ids.finite(),
        forall|i: usize| #[trigger] ids.contains(i) ==> i < blocks.len(),
        blocks.len() < usize::MAX,
        m <= blocks.len(),
    ensures
        ({
            let (held, after, released) = drain(held_blocks(blocks, ids, m), m);
            &&& m <= after <= blocks.len()
            &&& !ids.contains(after)
            &&& forall|j: usize| m <= j < after ==> ids.contains(j)
            &&& held == held_blocks(blocks, ids, after)
            &&& released == blocks.subrange(m as int, after as int)
        }),
    decreases blocks.len() - m,
{
    let p = held_blocks(blocks, ids, m);
    lemma_held_blocks_finite(blocks, ids, m);
    if ids.contains(m) {
        let next = (m + 1) as usize;
        assert(p.remove(m) =~= held_blocks(blocks, ids, next));
        lemma_drain_held(blocks, ids, next);
        let (held, after, released) = drain(held_blocks(blocks, ids, next), next);
        assert(seq![blocks[m as int]] + released =~= blocks.subrange(m as int, after as int));
    } else {
        assert(!p.contains_key(m));
        assert(blocks.subrange(m as int, m as int) =~= Seq::<Vec<u8>>::empty());
    }
}

proof fn lemma_reorder_prefix(blocks: Seq<Vec<u8>>, order: Seq<usize>, k: int)
    requires
        blocks.len() < usize::MAX,
        is_id_permutation(order, blocks.len()),
        0 <= k <= order.len(),
    ensures
        ({
            let (st, out) = reorder_run(initial_reorder_state(), arrivals_in_order(blocks, order).take(k));
            let seen = order.take(k).to_set();
            &&& st.next_id <= blocks.len()
            &&& forall|j: usize| j < st.next_id ==> seen.contains(j)
            &&& !seen.contains(st.next_id)
            &&& st.pending == held_blocks(blocks, seen, st.next_id)
            &&& out == blocks.take(st.next_id as int)
        }),
    decreases k,
{
    broadcast use vstd::seq_lib::seq_to_set_is_finite;

    let events = arrivals_in_order(blocks, order);
    let seen = order.take(k).to_set();
    if k == 0 {
        assert(order.take(0).to_set() =~= Set::<usize>::empty());
        assert(events.take(0) =~= Seq::<(usize, Vec<u8>)>::empty());
        assert(held_blocks(blocks, seen, 0) =~= Map::<usize, Vec<u8>>::empty());
        assert(blocks.take(0) =~= Seq::<Vec<u8>>::empty());
    } else {
        lemma_reorder_prefix(blocks, order, k - 1);
        let before = order.take(k - 1).to_set();
        assert(events.take(k).drop_last() =~= events.take(k - 1));
        let (mid, out) = reorder_run(initial_reorder_state(), events.take(k - 1));
        let m = mid.next_id;
        let x = order[k - 1];
        assert(order.take(k) =~= order.take(k - 1).push(x));
        order.take(k - 1).lemma_push_to_set_commute(x);
        assert(seen =~= before.insert(x));
        assert(!before.contains(x)) by {
            if before.contains(x) {
                let l = choose|l: int| 0 <= l < k - 1 && #[trigger] order.take(k - 1)[l] == x;
                assert(order[l] == x);
            }
        }
        assert(x >= m);
        assert forall|i: usize| #[trigger] seen.contains(i) implies i < blocks.len() by {
            let l = choose|l: int| 0 <= l < k && #[trigger] order.take(k)[l] == i;
            assert(order[l] == i);
        }
        assert(mid.pending.insert(x, blocks[x as int]) =~= held_blocks(blocks, seen, m));
        lemma_drain_held(blocks, seen, m);
        let (held, after, released) = drain(held_blocks(blocks, seen, m), m);
        assert(out + released =~= blocks.take(after as int));
    }
}

/// However the blocks of a stream arrive, a reorderer releases all of them,
/// each exactly once and in the order of their ids, and then holds nothing.
pub proof fn lemma_reorder_restores_order(blocks: Seq<Vec<u8>>, order: Seq<usize>)
    requires
        blocks.len() < usize::MAX,
        is_id_permutation(order, blocks.len()),
    ensures
        ({
            let (st, out) = reorder_run(initial_reorder_state(), arrivals_in_order(blocks, order));
            &&& out == blocks
            &&& st.pending == Map::<usize, Vec<u8>>::empty()
            &&& st.next_id == blocks.len()
        }),
{
    let n = order.len() as int;
    lemma_reorder_prefix(blocks, order, n);
    let events = arrivals_in_order(blocks, order);
    assert(events.take(n) =~= events);
    assert(order.take(n) =~= order);
    let seen = order.to_set();
    let (st, out) = reorder_run(initial_reorder_state(), events);
    if st.next_id < blocks.len() {
        let i = st.next_id;
        assert(order.contains(i));
        let k = choose|k: int| 0 <= k < n && #[trigger] order[k] == i;
        assert(seen.contains(order[k]));
    }
    assert forall|i: usize| !held_blocks(blocks, seen, st.next_id).contains_key(i) by {
        if seen.contains(i) {
            let k = choose|k: int| 0 <= k < n && #[trigger] order[k] == i;
            assert(order[k] < blocks.len());
        }
    }
    assert(held_blocks(blocks, seen, st.next_id) =~= Map::<usize, Vec<u8>>::empty());
    assert(blocks.take(blocks.len() as int) =~= blocks);
}

/// Puts blocks that arrive in any order back into the order of their ids.
pub struct Reorderer {
    pending: BTreeMap<usize, Vec<u8>>,
    next_id: usize,
}

impl View for Reorderer {
    type V = ReorderState;

    closed spec fn view(&self) -> ReorderState {
        ReorderState { pending: self.pending@, next_id: self.next_id }
    }
}

impl Reorderer {
    /// Only finitely many blocks are held, and none has the largest id.
    pub open spec fn wf(&self) -> bool {
        &&& self@.pending.dom().finite()
        &&& forall|k: usize| #[trigger] self@.pending.contains_key(k) ==> k < usize::MAX
    }

    /// A reorderer that waits for block 0 and holds nothing.
    pub fn new() -> (r: Self)
        ensures
            r.wf(),
            r@.pending == Map::<usize, Vec<u8>>::empty(),
            r@.next_id == 0,
    {
        Reorderer { pending: BTreeMap::new(), next_id: 0 }
    }

    /// The id of the next block to release.
    pub fn next_id(&self) -> (id: usize)
        ensures
            id == self@.next_id,
    {
        self.next_id
    }

    /// The number of blocks held back.
    pub fn pending_len(&self) -> (n: usize)
        requires
            self.wf(),
        ensures
            n == self@.pending.len(),
    {
        self.pending.len()
    }

    /// Takes block `id` and releases, in order, every block that can now
    /// follow those released before.  A block that arrives with an id
    /// already held replaces the one held.
    pub fn accept(&mut self, id: usize, data: Vec<u8>) -> (released: Vec<Vec<u8>>)
        requires
            old(self).wf(),
            id < usize::MAX,
        ensures
            final(self).wf(),
            (final(self)@, released@) == reorder_step(old(self)@, id, data),
    {
        self.pending.insert(id, data);
        let ghost start = self@;
        let mut released: Vec<Vec<u8>> = Vec::new();
        loop
            invariant
                self.wf(),
                self@.pending.dom().finite(),
                drain(start.pending, start.next_id) == (
                    drain(self@.pending, self@.next_id).0,
                    drain(self@.pending, self@.next_id).1,
                    released@ + drain(self@.pending, self@.next_id).2,
                ),
            ensures
                self.wf(),
                drain(start.pending, start.next_id) == (self@.pending, self@.next_id, released@),
            decreases self@.pending.dom().len(),
        {
            let ghost before = self@;
            match self.pending.remove(&self.next_id) {
                Some(data) => {
                    proof {
                        assert(before.next_id < usize::MAX);
                        let rest = drain(self@.pending, (before.next_id + 1) as usize);
                        assert(released@.push(data) + rest.2 =~= released@ + (seq![data]
                            + rest.2));
                    }
                    released.push(data);
                    self.next_id = self.next_id + 1;
                },
                None => {
                    assert(released@ + Seq::<Vec<u8>>::empty() =~= released@);
                    break;
                },
            }
        }
        released
    }
}

} // verus!
