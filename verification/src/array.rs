//! The output of one operator node: value, adjoint, tangent and tangent
//! adjoint, over one clock horizon and with one allocator.

use vstd::prelude::*;
use std::rc::Rc;
use crate::ids::{IdCounts, IdSource, NodeId, TxnId};
use crate::refs::{DataKind, DataRef, DataRefSet};
use crate::txn::{allocates_always, SlotView, TxnData, TxnDataView};

verus! {

/// Storage that can be allocated from its dimensions.
pub trait ArrayStorage<Idx> {
    /// New storage of the dimensions `dim`.
    fn allocate(dim: Idx) -> Self where Self: Sized;
}

/// Whether `data` is as [`TxnData::new`] makes it: of kind `kind`, under the
/// node number `node`, with `horizon` untouched slots and the clock at 0.
pub open spec fn untouched<A>(data: TxnDataView<A>, kind: DataKind, node: nat, horizon: nat) -> bool {
    &&& data.kind == kind
    &&& data.data_ref.kind == kind
    &&& data.data_ref.node_id@ == node
    &&& data.clock == 0
    &&& data.slots.len() == horizon
    &&& forall|i: int| 0 <= i < horizon ==> #[trigger] data.slots[i] == SlotView::<A>::fresh(i as nat)
}

/// The four kinds of data of one node.
pub struct ArrayData<A, F> {
    pub clk_horizon: usize,
    pub alloc: Rc<F>,
    pub val: TxnData<A, F>,
    pub grad: TxnData<A, F>,
    pub r_val: TxnData<A, F>,
    pub r_grad: TxnData<A, F>,
}

impl<A, F: Fn(TxnId, NodeId) -> A> ArrayData<A, F> {
    /// The four parts are well formed.
    pub open spec fn wf(&self) -> bool {
        &&& self.val.wf()
        &&& self.grad.wf()
        &&& self.r_val.wf()
        &&& self.r_grad.wf()
    }

    /// Whether the four clocks are within their horizons.
    pub open spec fn in_horizon(&self) -> bool {
        &&& self.val@.in_horizon()
        &&& self.grad@.in_horizon()
        &&& self.r_val@.in_horizon()
        &&& self.r_grad@.in_horizon()
    }

    /// Data of the four kinds, each under a fresh address and with
    /// `clk_horizon` untouched slots, sharing the allocator `alloc`.
    pub fn new(clk_horizon: usize, alloc: Rc<F>, ids: &mut IdSource) -> (data: ArrayData<A, F>)
        requires
            old(ids)@.nodes + 4 <= u64::MAX,
            allocates_always(*alloc),
        ensures
            data.wf(),
            data.clk_horizon == clk_horizon,
            data.alloc == alloc,
            untouched(data.val@, DataKind::Val, old(ids)@.nodes + 1, clk_horizon as nat),
            untouched(data.grad@, DataKind::Grad, old(ids)@.nodes + 2, clk_horizon as nat),
            untouched(data.r_val@, DataKind::RVal, old(ids)@.nodes + 3, clk_horizon as nat),
            untouched(data.r_grad@, DataKind::RGrad, old(ids)@.nodes + 4, clk_horizon as nat),
            data.val.allocator() == alloc,
            data.grad.allocator() == alloc,
            data.r_val.allocator() == alloc,
            data.r_grad.allocator() == alloc,
            final(ids)@ == (IdCounts { nodes: old(ids)@.nodes + 4, ..old(ids)@ }),
    {
        let val = TxnData::new(DataKind::Val, clk_horizon, alloc.clone(), ids);
        let grad = TxnData::new(DataKind::Grad, clk_horizon, alloc.clone(), ids);
        let r_val = TxnData::new(DataKind::RVal, clk_horizon, alloc.clone(), ids);
        let r_grad = TxnData::new(DataKind::RGrad, clk_horizon, alloc.clone(), ids);
        ArrayData { clk_horizon: clk_horizon, alloc: alloc, val: val, grad: grad, r_val: r_val, r_grad: r_grad }
    }

    /// The addresses of the value, the adjoint, the tangent and the tangent
    /// adjoint, in this order.
    pub fn refs(&self) -> (refs: (DataRef, DataRef, DataRef, DataRef))
        ensures
            refs.0 == self.val@.data_ref,
            refs.1 == self.grad@.data_ref,
            refs.2 == self.r_val@.data_ref,
            refs.3 == self.r_grad@.data_ref,
    {
        (self.val._ref(), self.grad._ref(), self.r_val._ref(), self.r_grad._ref())
    }

    /// The clock horizon that the data was made with.
    pub fn horizon(&self) -> (clk_horizon: usize)
        ensures
            clk_horizon == self.clk_horizon,
    {
        self.clk_horizon
    }

    /// Sets the four clocks to 0.
    pub fn reset_all(&mut self)
        requires
            old(self).wf(),
        ensures
            final(self).wf(),
            final(self).clk_horizon == old(self).clk_horizon,
            final(self).alloc == old(self).alloc,
            final(self).val@ == (TxnDataView { clock: 0, ..old(self).val@ }),
            final(self).grad@ == (TxnDataView { clock: 0, ..old(self).grad@ }),
            final(self).r_val@ == (TxnDataView { clock: 0, ..old(self).r_val@ }),
            final(self).r_grad@ == (TxnDataView { clock: 0, ..old(self).r_grad@ }),
            final(self).val.allocator() == old(self).val.allocator(),
            final(self).grad.allocator() == old(self).grad.allocator(),
            final(self).r_val.allocator() == old(self).r_val.allocator(),
            final(self).r_grad.allocator() == old(self).r_grad.allocator(),
    {
        self.val.reset_clock();
        self.grad.reset_clock();
        self.r_val.reset_clock();
        self.r_grad.reset_clock();
    }

    /// Moves the four clocks one step on.
    pub fn step_all(&mut self)
        requires
            old(self).wf(),
            old(self).val@.clock < usize::MAX,
            old(self).grad@.clock < usize::MAX,
            old(self).r_val@.clock < usize::MAX,
            old(self).r_grad@.clock < usize::MAX,
        ensures
            final(self).wf(),
            final(self).clk_horizon == old(self).clk_horizon,
            final(self).alloc == old(self).alloc,
            final(self).val@ == (TxnDataView { clock: old(self).val@.clock + 1, ..old(self).val@ }),
            final(self).grad@ == (TxnDataView { clock: old(self).grad@.clock + 1, ..old(self).grad@ }),
            final(self).r_val@ == (TxnDataView { clock: old(self).r_val@.clock + 1, ..old(self).r_val@ }),
            final(self).r_grad@ == (TxnDataView { clock: old(self).r_grad@.clock + 1, ..old(self).r_grad@ }),
            final(self).val.allocator() == old(self).val.allocator(),
            final(self).grad.allocator() == old(self).grad.allocator(),
            final(self).r_val.allocator() == old(self).r_val.allocator(),
            final(self).r_grad.allocator() == old(self).r_grad.allocator(),
    {
        self.val.step_clock();
        self.grad.step_clock();
        self.r_val.step_clock();
        self.r_grad.step_clock();
    }

    /// Takes the current slot of each of the four parts across a
    /// transaction boundary, as [`TxnData::rollover`] does for one.
    pub fn rollover_all(&mut self, txn: TxnId, ref_set: &mut DataRefSet)
        requires
            old(self).wf(),
            old(self).in_horizon(),
        ensures
            final(self).wf(),
            final(self).clk_horizon == old(self).clk_horizon,
            final(self).alloc == old(self).alloc,
            final(self).val@ == old(self).val@.with_current(
                old(self).val@.current().rollover(txn, old(ref_set)@.included.contains(old(self).val@.data_ref)),
            ),
            final(self).grad@ == old(self).grad@.with_current(
                old(self).grad@.current().rollover(txn, old(ref_set)@.included.contains(old(self).grad@.data_ref)),
            ),
            final(self).r_val@ == old(self).r_val@.with_current(
                old(self).r_val@.current().rollover(
                    txn,
                    old(ref_set)@.included.contains(old(self).r_val@.data_ref),
                ),
            ),
            final(self).r_grad@ == old(self).r_grad@.with_current(
                old(self).r_grad@.current().rollover(
                    txn,
                    old(ref_set)@.included.contains(old(self).r_grad@.data_ref),
                ),
            ),
            final(self).val.allocator() == old(self).val.allocator(),
            final(self).grad.allocator() == old(self).grad.allocator(),
            final(self).r_val.allocator() == old(self).r_val.allocator(),
            final(self).r_grad.allocator() == old(self).r_grad.allocator(),
            final(ref_set)@ == old(ref_set)@,
    {
        self.val.rollover(txn, ref_set);
        self.grad.rollover(txn, ref_set);
        self.r_val.rollover(txn, ref_set);
        self.r_grad.rollover(txn, ref_set);
    }
}

} // verus!
