//! Per-node bookkeeping of a pass: how often a node was reached and left.
//!
//! A node with several consumers is pushed once by each of them and popped
//! once by each of them. The first push and the last pop are the two moments
//! at which the node's hook may fire.

use vstd::prelude::*;
use crate::ids::{Epoch, NodeId};

verus! {

/// One outstanding level of a stack, as numbers.
pub struct Level {
    pub epoch: Epoch,
    pub pushes: nat,
    pub pops: nat,
}

/// What an [`OperatorStack`] holds: the node, its static in-degree, and the
/// outstanding levels, oldest first.
pub struct StackView {
    pub node_id: NodeId,
    pub in_degree: nat,
    pub levels: Seq<Level>,
}

impl StackView {
    /// Every outstanding level has been pushed more often than popped.
    pub open spec fn wf(self) -> bool {
        forall|i: int| 0 <= i < self.levels.len() ==> (#[trigger] self.levels[i]).pops < self.levels[i].pushes
    }

    /// The top level exists and belongs to `epoch`.
    pub open spec fn on_top(self, epoch: Epoch) -> bool {
        self.levels.len() > 0 && self.levels.last().epoch == epoch
    }

    /// The push count of the top level.
    pub open spec fn degree(self) -> nat
        recommends
            self.levels.len() > 0,
    {
        self.levels.last().pushes
    }

    /// The pop count of the top level.
    pub open spec fn popped(self) -> nat
        recommends
            self.levels.len() > 0,
    {
        self.levels.last().pops
    }

    /// The stack after one push for `epoch`: the top level counts one more
    /// push if it belongs to `epoch`, else a new level with one push and no
    /// pop goes on top.
    pub open spec fn push(self, epoch: Epoch) -> StackView {
        if self.on_top(epoch) {
            let top = self.levels.last();
            StackView {
                levels: self.levels.drop_last().push(Level { pushes: top.pushes + 1, ..top }),
                ..self
            }
        } else {
            StackView {
                levels: self.levels.push(Level { epoch: epoch, pushes: 1, pops: 0 }),
                ..self
            }
        }
    }

    /// The stack after one pop of the top level: the level counts one more
    /// pop, and leaves the stack when that makes its two counts equal.
    pub open spec fn pop(self) -> StackView
        recommends
            self.levels.len() > 0,
    {
        let top = self.levels.last();
        if top.pops + 1 == top.pushes {
            StackView { levels: self.levels.drop_last(), ..self }
        } else {
            StackView {
                levels: self.levels.drop_last().push(Level { pops: top.pops + 1, ..top }),
                ..self
            }
        }
    }

    /// The stack after `n` pushes for `epoch` in a row.
    pub open spec fn push_n(self, epoch: Epoch, n: nat) -> StackView
        decreases n,
    {
        if n == 0 {
            self
        } else {
            self.push_n(epoch, (n - 1) as nat).push(epoch)
        }
    }

    /// The stack after `n` pops in a row.
    pub open spec fn pop_n(self, n: nat) -> StackView
        decreases n,
    {
        if n == 0 {
            self
        } else {
            self.pop_n((n - 1) as nat).pop()
        }
    }
}

/// After `n >= 1` pushes for an epoch that was not on top, the top level
/// belongs to that epoch and has counted `n` pushes and no pop; below it the
/// stack is as before.
pub proof fn lemma_push_n(s: StackView, epoch: Epoch, n: nat)
    requires
        s.wf(),
        !s.on_top(epoch),
        n >= 1,
    ensures
        s.push_n(epoch, n) == (StackView {
            levels: s.levels.push(Level { epoch: epoch, pushes: n, pops: 0 }),
            ..s
        }),
        s.push_n(epoch, n).wf(),
        s.push_n(epoch, n).on_top(epoch),
    decreases n,
{
    reveal_with_fuel(StackView::push_n, 2);
    let before = s.push_n(epoch, (n - 1) as nat);
    let target = s.levels.push(Level { epoch: epoch, pushes: n, pops: 0 });
    if n > 1 {
        lemma_push_n(s, epoch, (n - 1) as nat);
        assert(before.levels.drop_last() == s.levels);
    } else {
        assert(before == s);
    }
    assert(before.push(epoch).levels == target);
    assert forall|i: int| 0 <= i < target.len() implies (#[trigger] target[i]).pops < target[i].pushes by {
        if i < s.levels.len() {
            assert(target[i] == s.levels[i]);
        }
    }
}

/// After `k < n` pops of a top level that was pushed `n` times and never
/// popped, the level is still on top and has counted `k` pops.
pub proof fn lemma_pop_n(s: StackView, epoch: Epoch, n: nat, k: nat)
    requires
        s.wf(),
        n >= 1,
        k < n,
    ensures
        (StackView { levels: s.levels.push(Level { epoch: epoch, pushes: n, pops: 0 }), ..s }).pop_n(k)
            == (StackView { levels: s.levels.push(Level { epoch: epoch, pushes: n, pops: k }), ..s }),
    decreases k,
{
    let full = StackView { levels: s.levels.push(Level { epoch: epoch, pushes: n, pops: 0 }), ..s };
    if k > 0 {
        lemma_pop_n(s, epoch, n, (k - 1) as nat);
        let before = full.pop_n((k - 1) as nat);
        assert(before.levels.drop_last() == s.levels);
        assert(full.pop_n(k).levels == s.levels.push(Level { epoch: epoch, pushes: n, pops: k }));
    }
}

/// A node with `n >= 1` consumer edges is pushed `n` times and then popped
/// `n` times in a pass. The push after `k` pushes returns `k + 1`, so
/// exactly the first returns 1, which is when the enter hook fires. The pop
/// after `k` pops finds the epoch on top and returns `k + 1`, so exactly
/// the last returns the node's degree, which is when the exit hook fires.
/// After the last pop the stack is what it was before the first push.
pub proof fn lemma_fan_in_fires_once(s: StackView, epoch: Epoch, n: nat)
    requires
        s.wf(),
        !s.on_top(epoch),
        n >= 1,
    ensures
        forall|k: nat| k < n ==> (#[trigger] s.push_n(epoch, k)).push(epoch).degree() == k + 1,
        forall|k: nat| k < n ==> ((#[trigger] s.push_n(epoch, k)).push(epoch).degree() == 1 <==> k == 0),
        s.push_n(epoch, n).degree() == n,
        forall|k: nat| k < n ==> (#[trigger] s.push_n(epoch, n).pop_n(k)).on_top(epoch),
        forall|k: nat| k < n ==> (#[trigger] s.push_n(epoch, n).pop_n(k)).popped() == k,
        forall|k: nat|
            k < n ==> ((#[trigger] s.push_n(epoch, n).pop_n(k)).popped() + 1 == s.push_n(epoch, n).pop_n(k).degree()
                <==> k + 1 == n),
        s.push_n(epoch, n).pop_n(n) == s,
{
    lemma_push_n(s, epoch, n);
    assert forall|k: nat| k < n implies (#[trigger] s.push_n(epoch, k)).push(epoch).degree() == k + 1 by {
        lemma_push_n(s, epoch, k + 1);
    }
    assert forall|k: nat| k < n implies {
        &&& (#[trigger] s.push_n(epoch, n).pop_n(k)).on_top(epoch)
        &&& s.push_n(epoch, n).pop_n(k).degree() == n
        &&& s.push_n(epoch, n).pop_n(k).popped() == k
    } by {
        lemma_pop_n(s, epoch, n, k);
    }
    lemma_pop_n(s, epoch, n, (n - 1) as nat);
    let last = s.push_n(epoch, n).pop_n((n - 1) as nat);
    assert(last.levels.drop_last() == s.levels);
    assert(last.pop().levels == s.levels);
}

/// One outstanding level of a node's stack.
pub struct OperatorStackEntry {
    epoch: Epoch,
    push_count: usize,
    pop_count: usize,
}

impl View for OperatorStackEntry {
    type V = Level;

    closed spec fn view(&self) -> Level {
        Level { epoch: self.epoch, pushes: self.push_count as nat, pops: self.pop_count as nat }
    }
}

/// A node's pass bookkeeping: one level per epoch that has reached the node
/// and not yet left it.
pub struct OperatorStack {
    node_id: NodeId,
    in_degree: usize,
    entries: Vec<OperatorStackEntry>,
}

impl View for OperatorStack {
    type V = StackView;

    closed spec fn view(&self) -> StackView {
        StackView {
            node_id: self.node_id,
            in_degree: self.in_degree as nat,
            levels: Seq::new(self.entries@.len(), |i: int| self.entries@[i]@),
        }
    }
}

impl OperatorStack {
    /// An empty stack for the node `node_id`.
    pub fn new(node_id: NodeId, in_degree: usize) -> (stack: OperatorStack)
        ensures
            stack@ == (StackView { node_id: node_id, in_degree: in_degree as nat, levels: Seq::empty() }),
            stack@.wf(),
    {
        let stack = OperatorStack { node_id: node_id, in_degree: in_degree, entries: Vec::new() };
        assert(stack@.levels == Seq::<Level>::empty());
        stack
    }

    /// Whether the top level exists and belongs to `epoch`.
    pub fn on_top(&self, epoch: Epoch) -> (b: bool)
        ensures
            b == self@.on_top(epoch),
    {
        let n = self.entries.len();
        n > 0 && self.entries[n - 1].epoch == epoch
    }

    /// Whether one more push for `epoch` can be counted.
    pub fn can_push(&self, epoch: Epoch) -> (b: bool)
        ensures
            b == (self@.on_top(epoch) ==> self@.degree() < usize::MAX),
    {
        let n = self.entries.len();
        !(n > 0 && self.entries[n - 1].epoch == epoch) || self.entries[n - 1].push_count < usize::MAX
    }

    /// Counts one arrival of `epoch` at the node and returns how many have
    /// been counted; 1 marks the first arrival.
    pub fn push(&mut self, epoch: Epoch) -> (count: usize)
        requires
            old(self)@.wf(),
            old(self)@.on_top(epoch) ==> old(self)@.degree() < usize::MAX,
        ensures
            final(self)@ == old(self)@.push(epoch),
            final(self)@.wf(),
            final(self)@.on_top(epoch),
            count == final(self)@.degree(),
    {
        let n = self.entries.len();
        if n > 0 && self.entries[n - 1].epoch == epoch {
            self.entries[n - 1].push_count += 1;
        } else {
            self.entries.push(OperatorStackEntry { epoch: epoch, push_count: 1, pop_count: 0 });
        }
        assert(self@.levels == old(self)@.push(epoch).levels);
        self.entries[self.entries.len() - 1].push_count
    }

    /// How many arrivals of `epoch` have been counted.
    pub fn degree(&self, epoch: Epoch) -> (count: usize)
        requires
            self@.on_top(epoch),
        ensures
            count == self@.degree(),
    {
        let level = self.entries.len() - 1;
        self.entries[level].push_count
    }

    /// Counts one departure of `epoch` from the node and returns how many
    /// have been counted. The departure that makes the count equal to the
    /// degree is the last, and takes the level off the stack.
    pub fn pop(&mut self, epoch: Epoch) -> (count: usize)
        requires
            old(self)@.wf(),
            old(self)@.on_top(epoch),
        ensures
            final(self)@ == old(self)@.pop(),
            final(self)@.wf(),
            count == old(self)@.popped() + 1,
            count <= old(self)@.degree(),
    {
        let level = self.entries.len() - 1;
        assert(old(self)@.levels[level as int].pops < old(self)@.levels[level as int].pushes);
        self.entries[level].pop_count += 1;
        let saved_pop_count = self.entries[level].pop_count;
        if self.entries[level].push_count == self.entries[level].pop_count {
            self.entries.pop();
        }
        assert(self@.levels == old(self)@.pop().levels);
        assert forall|i: int| 0 <= i < self@.levels.len() implies (#[trigger] self@.levels[i]).pops
            < self@.levels[i].pushes by {
            if i < level {
                assert(self@.levels[i] == old(self)@.levels[i]);
            }
        }
        saved_pop_count
    }
}

} // verus!
