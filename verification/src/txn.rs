//! Transactional, clock-indexed storage of one kind of data of one node.
//!
//! A [`TxnData`] holds one slot per step of its clock horizon. A slot is
//! owned by at most one transaction at a time. Within the owning
//! transaction a node either reads the slot or writes it, never both, and
//! the payload is allocated on the first write and then kept.

use vstd::prelude::*;
use std::collections::HashSet;
use std::rc::Rc;
use crate::ids::{IdKind, IdSource, NodeId, TxnId};
use crate::refs::{DataKind, DataRef, DataRefSet};

verus! {

/// The state of one clock slot.
pub struct SlotView<A> {
    pub clk: nat,
    pub owner: Option<TxnId>,
    pub readers: Set<NodeId>,
    pub writers: Set<NodeId>,
    pub payload: Option<A>,
}

impl<A> SlotView<A> {
    /// The slot of clock index `clk` before anything touched it.
    pub open spec fn fresh(clk: nat) -> SlotView<A> {
        SlotView { clk: clk, owner: None, readers: Set::empty(), writers: Set::empty(), payload: None }
    }

    /// Whether `txn` does not own the slot: no transaction owns it, or
    /// another one does.
    pub open spec fn stale(self, txn: TxnId) -> bool {
        self.owner != Some(txn)
    }

    /// Whether a write by `node` in `txn` is incomplete: the slot is stale,
    /// or `node` has not written it in `txn` yet.
    pub open spec fn incomplete(self, txn: TxnId, node: NodeId) -> bool {
        self.stale(txn) || !self.writers.contains(node)
    }

    /// The slot taken over by `txn`: no reader or writer is left, the
    /// payload stays.
    pub open spec fn claim(self, txn: TxnId) -> SlotView<A> {
        SlotView { owner: Some(txn), readers: Set::empty(), writers: Set::empty(), ..self }
    }

    /// The slot given up by its owner: no reader or writer is left, the
    /// payload stays.
    pub open spec fn release(self) -> SlotView<A> {
        SlotView { owner: None, readers: Set::empty(), writers: Set::empty(), ..self }
    }

    /// The slot holding `payload`.
    pub open spec fn store(self, payload: A) -> SlotView<A> {
        SlotView { payload: Some(payload), ..self }
    }

    /// Whether `node` may read the slot in `txn`: `txn` owns it, `node` is
    /// not writing it, and it holds a payload.
    pub open spec fn readable(self, txn: TxnId, node: NodeId) -> bool {
        !self.stale(txn) && !self.writers.contains(node) && self.payload is Some
    }

    /// The slot after `node` read it.
    pub open spec fn read(self, node: NodeId) -> SlotView<A> {
        SlotView { readers: self.readers.insert(node), ..self }
    }

    /// The slot as `txn` finds it when it is about to write: taken over if
    /// it was stale, else as it is.
    pub open spec fn entered(self, txn: TxnId) -> SlotView<A> {
        if self.stale(txn) {
            self.claim(txn)
        } else {
            self
        }
    }

    /// Whether `node` may write the slot in `txn`: it holds a payload, and
    /// `node` has not read it in `txn`.
    pub open spec fn writable(self, txn: TxnId, node: NodeId) -> bool {
        self.payload is Some && !self.entered(txn).readers.contains(node)
    }

    /// The slot after `node` took write access in `txn`, before it changes
    /// the payload.
    pub open spec fn written(self, txn: TxnId, node: NodeId) -> SlotView<A> {
        SlotView { writers: self.entered(txn).writers.insert(node), ..self.entered(txn) }
    }

    /// The slot after a transaction boundary: carried over to `txn` if its
    /// address is selected, else given up.
    pub open spec fn rollover(self, txn: TxnId, selected: bool) -> SlotView<A> {
        if selected {
            self.claim(txn)
        } else {
            self.release()
        }
    }
}

/// The first write to a slot in a transaction reports incomplete and
/// initializes the payload. After it the slot is not stale for that
/// transaction, so no later write in the transaction initializes it again,
/// whichever node writes; such a write still reports incomplete until the
/// node has taken write access.
pub proof fn lemma_first_write_initializes_once<A>(
    slot: SlotView<A>,
    txn: TxnId,
    first: NodeId,
    later: NodeId,
    payload: A,
)
    requires
        slot.stale(txn),
    ensures
        slot.incomplete(txn, first),
        !slot.claim(txn).store(payload).stale(txn),
        slot.claim(txn).store(payload).incomplete(txn, later),
{
}

/// After a write in a transaction, a node that has not taken write access
/// to the slot in that transaction may read it without a new write, and
/// finds the payload that the slot holds after the write: the initialized
/// one if the write found the slot stale, in which case no node has write
/// access yet, else the one it held. Reading neither changes the payload
/// nor makes the slot stale.
pub proof fn lemma_read_after_write<A>(slot: SlotView<A>, txn: TxnId, reader: NodeId, payload: A)
    requires
        !slot.stale(txn) ==> slot.payload == Some(payload) && !slot.writers.contains(reader),
    ensures
        ({
            let written = if slot.stale(txn) {
                slot.claim(txn).store(payload)
            } else {
                slot
            };
            &&& written.readable(txn, reader)
            &&& written.payload == Some(payload)
            &&& written.read(reader).payload == Some(payload)
            &&& !written.read(reader).stale(txn)
        }),
{
}

/// A node that has taken write access to a slot in a transaction may not
/// read it in that transaction, whatever it left in the payload.
pub proof fn lemma_writer_cannot_read<A>(slot: SlotView<A>, txn: TxnId, node: NodeId, payload: A)
    ensures
        !slot.written(txn, node).store(payload).readable(txn, node),
{
}

/// A node that has read a slot in the owning transaction may not take write
/// access to it in that transaction.
pub proof fn lemma_reader_cannot_write<A>(slot: SlotView<A>, txn: TxnId, node: NodeId)
    requires
        !slot.stale(txn),
    ensures
        !slot.read(node).writable(txn, node),
{
}

/// Across a transaction boundary a selected slot passes to the new
/// transaction with its payload: every node may read it there without a new
/// write, provided it ever held a payload. A slot that is not selected has
/// no owner afterwards: no node may read it in any transaction before it is
/// written again.
pub proof fn lemma_rollover_keeps_or_clears<A>(slot: SlotView<A>, txn: TxnId, any: TxnId, node: NodeId)
    ensures
        slot.rollover(txn, true).payload == slot.payload,
        slot.rollover(txn, true).readable(txn, node) <==> slot.payload is Some,
        slot.rollover(txn, false).payload == slot.payload,
        !slot.rollover(txn, false).readable(any, node),
        slot.rollover(txn, false).stale(any),
{
}

/// One clock slot of a [`TxnData`].
pub struct TxnDataBuf<A> {
    clk: usize,
    curr_txn: Option<TxnId>,
    readers: HashSet<u64>,
    writers: HashSet<u64>,
    buffer: Option<A>,
}

impl<A> View for TxnDataBuf<A> {
    type V = SlotView<A>;

    closed spec fn view(&self) -> SlotView<A> {
        SlotView {
            clk: self.clk as nat,
            owner: self.curr_txn,
            readers: Set::new(|n: NodeId| self.readers@.contains(n.0)),
            writers: Set::new(|n: NodeId| self.writers@.contains(n.0)),
            payload: self.buffer,
        }
    }
}

impl<A> TxnDataBuf<A> {
    /// The slot of clock index `clk`, untouched.
    pub fn new(clk: usize) -> (buf: TxnDataBuf<A>)
        ensures
            buf@ == SlotView::<A>::fresh(clk as nat),
    {
        let buf = TxnDataBuf {
            clk: clk,
            curr_txn: None,
            readers: HashSet::new(),
            writers: HashSet::new(),
            buffer: None,
        };
        assert(buf@.readers =~= Set::<NodeId>::empty());
        assert(buf@.writers =~= Set::<NodeId>::empty());
        buf
    }

    fn stale(&self, txn: TxnId) -> (b: bool)
        ensures
            b == self@.stale(txn),
    {
        match self.curr_txn {
            None => true,
            Some(curr_txn) => curr_txn != txn,
        }
    }

    fn claim(&mut self, txn: TxnId)
        ensures
            final(self)@ == old(self)@.claim(txn),
    {
        self.curr_txn = Some(txn);
        self.readers.clear();
        self.writers.clear();
        assert(self@.readers =~= Set::<NodeId>::empty());
        assert(self@.writers =~= Set::<NodeId>::empty());
    }

    fn release(&mut self)
        ensures
            final(self)@ == old(self)@.release(),
    {
        self.curr_txn = None;
        self.readers.clear();
        self.writers.clear();
        assert(self@.readers =~= Set::<NodeId>::empty());
        assert(self@.writers =~= Set::<NodeId>::empty());
    }

    fn readable(&self, txn: TxnId, node: NodeId) -> (b: bool)
        ensures
            b == self@.readable(txn, node),
    {
        !self.stale(txn) && !self.writers.contains(&node.0) && self.buffer.is_some()
    }

    fn writable(&self, txn: TxnId, node: NodeId) -> (b: bool)
        ensures
            b == self@.writable(txn, node),
    {
        self.buffer.is_some() && (self.stale(txn) || !self.readers.contains(&node.0))
    }

    fn read(&mut self, node: NodeId)
        ensures
            final(self)@ == old(self)@.read(node),
    {
        self.readers.insert(node.0);
        assert(self@.readers =~= old(self)@.readers.insert(node));
    }

    fn write(&mut self, node: NodeId)
        ensures
            final(self)@ == (SlotView { writers: old(self)@.writers.insert(node), ..old(self)@ }),
    {
        self.writers.insert(node.0);
        assert(self@.writers =~= old(self)@.writers.insert(node));
    }

    fn payload_mut(&mut self) -> (payload: &mut A)
        requires
            old(self)@.payload is Some,
        ensures
            Some(*payload) == old(self)@.payload,
            final(self)@ == old(self)@.store(*final(payload)),
    {
        self.buffer.as_mut().unwrap()
    }

    fn payload(&self) -> (payload: &A)
        requires
            self@.payload is Some,
        ensures
            Some(*payload) == self@.payload,
    {
        self.buffer.as_ref().unwrap()
    }
}

/// The state of a [`TxnData`]: its address, its kind, the clock index and
/// the slots, one per step of the clock horizon.
pub struct TxnDataView<A> {
    pub data_ref: DataRef,
    pub kind: DataKind,
    pub clock: nat,
    pub slots: Seq<SlotView<A>>,
}

impl<A> TxnDataView<A> {
    /// The address is of the data's kind, and slot `i` has clock index `i`.
    pub open spec fn wf(self) -> bool {
        &&& self.data_ref.kind == self.kind
        &&& forall|i: int| 0 <= i < self.slots.len() ==> (#[trigger] self.slots[i]).clk == i
    }

    /// Whether the clock index is within the horizon.
    pub open spec fn in_horizon(self) -> bool {
        self.clock < self.slots.len()
    }

    /// The slot at the clock index.
    pub open spec fn current(self) -> SlotView<A>
        recommends
            self.in_horizon(),
    {
        self.slots[self.clock as int]
    }

    /// The slot one step before the clock index.
    pub open spec fn previous(self) -> SlotView<A>
        recommends
            0 < self.clock <= self.slots.len(),
    {
        self.slots[self.clock - 1]
    }

    /// The same data with `slot` at the clock index.
    pub open spec fn with_current(self, slot: SlotView<A>) -> TxnDataView<A>
        recommends
            self.in_horizon(),
    {
        TxnDataView { slots: self.slots.update(self.clock as int, slot), ..self }
    }

    /// The same data with `slot` one step before the clock index.
    pub open spec fn with_previous(self, slot: SlotView<A>) -> TxnDataView<A>
        recommends
            0 < self.clock <= self.slots.len(),
    {
        TxnDataView { slots: self.slots.update(self.clock - 1, slot), ..self }
    }
}

/// Whether the allocator `alloc` accepts every call.
pub open spec fn allocates_always<A, F: Fn(TxnId, NodeId) -> A>(alloc: F) -> bool {
    forall|txn: TxnId, node: NodeId| call_requires(alloc, (txn, node))
}

/// One kind of data of one node, over a clock horizon. `F` is the type of
/// the function that allocates a slot's payload when the slot is first
/// written.
pub struct TxnData<A, F> {
    data_ref: DataRef,
    kind: DataKind,
    alloc: Rc<F>,
    curr_clk: usize,
    clk_bufs: Vec<TxnDataBuf<A>>,
}

impl<A, F> View for TxnData<A, F> {
    type V = TxnDataView<A>;

    closed spec fn view(&self) -> TxnDataView<A> {
        TxnDataView {
            data_ref: self.data_ref,
            kind: self.kind,
            clock: self.curr_clk as nat,
            slots: Seq::new(self.clk_bufs@.len(), |i: int| self.clk_bufs@[i]@),
        }
    }
}

impl<A, F: Fn(TxnId, NodeId) -> A> TxnData<A, F> {
    /// The function that allocates payloads.
    pub closed spec fn allocator(&self) -> Rc<F> {
        self.alloc
    }

    /// The state is well formed, and the allocator accepts every call.
    pub open spec fn wf(&self) -> bool {
        &&& self@.wf()
        &&& allocates_always(*self.allocator())
    }

    /// Data of the given kind under a fresh address, with `clk_horizon`
    /// untouched slots and the clock at 0.
    pub fn new(kind: DataKind, clk_horizon: usize, alloc: Rc<F>, ids: &mut IdSource) -> (data: TxnData<A, F>)
        requires
            old(ids)@.nodes < u64::MAX,
            allocates_always(*alloc),
        ensures
            data.wf(),
            data.allocator() == alloc,
            data@.kind == kind,
            data@.data_ref.node_id@ == old(ids)@.next(IdKind::Node),
            data@.clock == 0,
            data@.slots.len() == clk_horizon,
            forall|i: int| 0 <= i < clk_horizon ==> data@.slots[i] == SlotView::<A>::fresh(i as nat),
            final(ids)@ == old(ids)@.issue(IdKind::Node),
    {
        let mut clk_bufs: Vec<TxnDataBuf<A>> = Vec::with_capacity(clk_horizon);
        let mut clk: usize = 0;
        while clk < clk_horizon
            invariant
                clk <= clk_horizon,
                clk_bufs@.len() == clk,
                forall|i: int| 0 <= i < clk ==> (#[trigger] clk_bufs@[i])@ == SlotView::<A>::fresh(i as nat),
            decreases clk_horizon - clk,
        {
            clk_bufs.push(TxnDataBuf::new(clk));
            clk = clk + 1;
        }
        TxnData { data_ref: DataRef::new(kind, ids), kind: kind, alloc: alloc, curr_clk: 0, clk_bufs: clk_bufs }
    }

    /// The address of this data.
    pub fn _ref(&self) -> (data_ref: DataRef)
        ensures
            data_ref == self@.data_ref,
    {
        self.data_ref.clone()
    }

    /// The clock index.
    pub fn clock(&self) -> (clk: usize)
        ensures
            clk == self@.clock,
    {
        self.curr_clk
    }

    /// The number of slots.
    pub fn horizon(&self) -> (len: usize)
        ensures
            len == self@.slots.len(),
    {
        self.clk_bufs.len()
    }

    /// Sets the clock to 0 and drops every slot.
    pub fn hard_reset(&mut self)
        requires
            old(self).wf(),
        ensures
            final(self).wf(),
            final(self).allocator() == old(self).allocator(),
            final(self)@ == (TxnDataView { clock: 0, slots: Seq::empty(), ..old(self)@ }),
    {
        self.curr_clk = 0;
        self.clk_bufs.clear();
        assert(self@.slots =~= Seq::<SlotView<A>>::empty());
    }

    /// Sets the clock to 0.
    pub fn reset_clock(&mut self)
        requires
            old(self).wf(),
        ensures
            final(self).wf(),
            final(self).allocator() == old(self).allocator(),
            final(self)@ == (TxnDataView { clock: 0, ..old(self)@ }),
    {
        self.curr_clk = 0;
        assert(self@.slots =~= old(self)@.slots);
    }

    /// Moves the clock one step on.
    pub fn step_clock(&mut self)
        requires
            old(self).wf(),
            old(self)@.clock < usize::MAX,
        ensures
            final(self).wf(),
            final(self).allocator() == old(self).allocator(),
            final(self)@ == (TxnDataView { clock: old(self)@.clock + 1, ..old(self)@ }),
    {
        self.curr_clk = self.curr_clk + 1;
        assert(self@.slots =~= old(self)@.slots);
    }

    /// Takes the current slot across a transaction boundary: if this data's
    /// address is selected in `ref_set` the slot passes to `txn` with its
    /// payload, to be read without a new write; if not, nobody owns the slot
    /// until it is written again.
    pub fn rollover(&mut self, txn: TxnId, ref_set: &mut DataRefSet)
        requires
            old(self).wf(),
            old(self)@.in_horizon(),
        ensures
            final(self).wf(),
            final(self).allocator() == old(self).allocator(),
            final(self)@ == old(self)@.with_current(
                old(self)@.current().rollover(txn, old(ref_set)@.included.contains(old(self)@.data_ref)),
            ),
            final(ref_set)@ == old(ref_set)@,
    {
        let clk = self.curr_clk;
        if ref_set.contains(&self.data_ref) {
            self.clk_bufs[clk].claim(txn);
        } else {
            self.clk_bufs[clk].release();
        }
        assert(self@.slots =~= old(self)@.with_current(
            old(self)@.current().rollover(txn, old(ref_set)@.included.contains(old(self)@.data_ref)),
        ).slots);
    }

    /// Whether `node` may read the current slot in `txn`.
    pub fn readable(&self, txn: TxnId, node: NodeId) -> (b: bool)
        ensures
            b == (self@.in_horizon() && self@.current().readable(txn, node)),
    {
        self.curr_clk < self.clk_bufs.len() && self.clk_bufs[self.curr_clk].readable(txn, node)
    }

    /// Whether `get_prev` may be called for `node` in `txn`: the clock is
    /// at 0, or `node` may read the slot one step before it.
    pub fn readable_prev(&self, txn: TxnId, node: NodeId) -> (b: bool)
        ensures
            b == (self@.clock <= self@.slots.len() && (self@.clock > 0 ==> self@.previous().readable(txn, node))),
    {
        self.curr_clk <= self.clk_bufs.len() && (self.curr_clk == 0 || self.clk_bufs[self.curr_clk - 1].readable(
            txn,
            node,
        ))
    }

    /// Whether `node` may write the current slot in `txn`.
    pub fn writable(&self, txn: TxnId, node: NodeId) -> (b: bool)
        ensures
            b == (self@.in_horizon() && self@.current().writable(txn, node)),
    {
        self.curr_clk < self.clk_bufs.len() && self.clk_bufs[self.curr_clk].writable(txn, node)
    }

    /// Announces a write of the current slot by `node` in `txn`, and says
    /// whether that write is incomplete: whether the slot was stale, or
    /// `node` has not yet taken write access to it in `txn`.
    ///
    /// A stale slot is taken over by `txn`: its readers and writers are
    /// forgotten, its payload is allocated if it has none, and `init` runs
    /// on the payload once. A slot that `txn` owns already is left as it
    /// is, and `init` does not run. So `init` has to accept only the
    /// payload that a stale slot holds, or what the allocator returns for
    /// it.
    pub fn write<I: Fn(&mut A)>(&mut self, txn: TxnId, node: NodeId, init: I) -> (incomplete: bool)
        requires
            old(self).wf(),
            old(self)@.in_horizon(),
            old(self)@.current().stale(txn) ==> forall|p: &mut A|
                (match old(self)@.current().payload {
                    Some(payload) => *p == payload,
                    None => call_ensures(*old(self).allocator(), (txn, node), *p),
                }) ==> #[trigger] init.requires((p,)),
        ensures
            final(self).wf(),
            final(self).allocator() == old(self).allocator(),
            incomplete == old(self)@.current().incomplete(txn, node),
            !old(self)@.current().stale(txn) ==> final(self)@ == old(self)@,
            old(self)@.current().stale(txn) ==> exists|p: &mut A|
                {
                    &&& match old(self)@.current().payload {
                        Some(payload) => *p == payload,
                        None => call_ensures(*old(self).allocator(), (txn, node), *p),
                    }
                    &&& #[trigger] init.ensures((p,), ())
                    &&& final(self)@ == old(self)@.with_current(
                        old(self)@.current().claim(txn).store(*final(p)),
                    )
                },
    {
        let clk = self.curr_clk;
        let stale = self.clk_bufs[clk].stale(txn);
        let incomplete = stale || !self.clk_bufs[clk].writers.contains(&node.0);
        if stale {
            self.clk_bufs[clk].claim(txn);
            if self.clk_bufs[clk].buffer.is_none() {
                let payload = (*self.alloc)(txn, node);
                self.clk_bufs[clk].buffer = Some(payload);
            }
            let payload = self.clk_bufs[clk].buffer.as_mut().unwrap();
            init(payload);
            assert(self@.slots =~= old(self)@.slots.update(
                clk as int,
                old(self)@.current().claim(txn).store(self@.current().payload.unwrap()),
            ));
        } else {
            assert(self@.slots =~= old(self)@.slots);
        }
        incomplete
    }

    /// Read access for `node` to the current slot's payload in `txn`, which
    /// must own the slot. `node` is recorded as a reader.
    pub fn get(&mut self, txn: TxnId, node: NodeId) -> (payload: &A)
        requires
            old(self).wf(),
            old(self)@.in_horizon(),
            old(self)@.current().readable(txn, node),
        ensures
            final(self).wf(),
            final(self).allocator() == old(self).allocator(),
            Some(*payload) == old(self)@.current().payload,
            final(self)@ == old(self)@.with_current(old(self)@.current().read(node)),
    {
        let clk = self.curr_clk;
        self.clk_bufs[clk].read(node);
        assert(self@.slots =~= old(self)@.slots.update(clk as int, old(self)@.current().read(node)));
        self.clk_bufs[clk].payload()
    }

    /// Read access for `node` to the payload of the slot one step before the
    /// clock index, or `None` at clock index 0, where there is no earlier
    /// step. `node` is recorded as a reader of that slot.
    pub fn get_prev(&mut self, txn: TxnId, node: NodeId) -> (payload: Option<&A>)
        requires
            old(self).wf(),
            old(self)@.clock <= old(self)@.slots.len(),
            old(self)@.clock > 0 ==> old(self)@.previous().readable(txn, node),
        ensures
            final(self).wf(),
            final(self).allocator() == old(self).allocator(),
            old(self)@.clock == 0 ==> payload is None && final(self)@ == old(self)@,
            old(self)@.clock > 0 ==> payload is Some && Some(*payload.unwrap()) == old(self)@.previous().payload
                && final(self)@ == old(self)@.with_previous(old(self)@.previous().read(node)),
    {
        let clk = self.curr_clk;
        if clk == 0 {
            assert(self@.slots =~= old(self)@.slots);
            return None;
        }
        self.clk_bufs[clk - 1].read(node);
        assert(self@.slots =~= old(self)@.slots.update(clk - 1, old(self)@.previous().read(node)));
        Some(self.clk_bufs[clk - 1].payload())
    }

    /// Write access for `node` to the current slot's payload in `txn`. A
    /// stale slot is first taken over by `txn`, its readers and writers
    /// forgotten. `node` is recorded as a writer; the slot then holds
    /// whatever the caller leaves behind the returned reference.
    pub fn get_mut(&mut self, txn: TxnId, node: NodeId) -> (payload: &mut A)
        requires
            old(self).wf(),
            old(self)@.in_horizon(),
            old(self)@.current().writable(txn, node),
        ensures
            final(self).wf(),
            final(self).allocator() == old(self).allocator(),
            Some(*payload) == old(self)@.current().payload,
            final(self)@ == old(self)@.with_current(
                old(self)@.current().written(txn, node).store(*final(payload)),
            ),
    {
        let clk = self.curr_clk;
        if self.clk_bufs[clk].stale(txn) {
            self.clk_bufs[clk].claim(txn);
        }
        self.clk_bufs[clk].write(node);
        assert(self@.slots =~= old(self)@.slots.update(clk as int, old(self)@.current().written(txn, node)));
        let payload = self.clk_bufs[clk].payload_mut();
        assert(after_borrow(self)@.slots =~= old(self)@.slots.update(
            clk as int,
            old(self)@.current().written(txn, node).store(*final(payload)),
        ));
        payload
    }
}

} // verus!
