//! What an operator node supplies: its identity and its hooks.
//!
//! The graph decides when a hook runs; what a hook does to the buffers is
//! the operator's business. The contracts of the passes are stated over
//! the hooks' own contracts: over what a call of a hook ensures, and, for
//! the hooks of differentiation and of rollover, over a relation between
//! the state before and after the hook, which the operator may define and
//! which says nothing unless it does.

use vstd::prelude::*;
use crate::array::ArrayData;
use crate::ids::{NodeId, TxnId};
use crate::refs::{DataRefSet, RefSetView};

verus! {

/// The hooks of differentiation, one of which a pass fires at every node it
/// reaches.
#[derive(Clone, Copy, PartialEq, Eq, Structural, Debug)]
pub enum Pass {
    /// Compute the node's value from the values of its inputs.
    Forward,
    /// Add the node's adjoint into the adjoints of its inputs.
    Backward { gauss_newton: bool },
    /// Compute the node's tangent from the tangents of its inputs.
    RForward { gauss_newton: bool },
    /// Add the node's tangent adjoint into those of its inputs.
    RBackward,
    /// Move the node's clock one step on.
    Clock,
}

/// An operator was asked for a hook that it does not implement.
#[derive(Clone, Copy, PartialEq, Eq, Structural, Debug)]
pub struct NotImplemented {
    pub node: NodeId,
    pub pass: Pass,
}

/// The transfers between the graph's buffers and a payload outside it.
#[derive(Clone, Copy, PartialEq, Eq, Structural, Debug)]
pub enum Transfer {
    /// Read values from the payload.
    Load,
    /// Read tangents from the payload.
    LoadRVal,
    /// Write values to the payload.
    Store,
    /// Write adjoints to the payload.
    StoreGrad,
    /// Write tangent adjoints to the payload.
    StoreRGrad,
}

/// An operator node of the graph.
///
/// `Store` holds the buffers that the hooks read and write, and whatever
/// else they need, such as a source of seeds for initialization. `Payload`
/// is what the transfer hooks read from or write to.
///
/// The two relations say what the hooks of the passes and of rollover may
/// do. Each is `true` unless the operator defines it, so that an operator
/// is held to nothing that it does not state itself. A hook that has a
/// body here does what its contract says of that body: it does nothing,
/// or it reports that it is not implemented.
pub trait DiffOperator {
    type Store;

    type Payload;

    /// What the hook of `pass` may do to the store when it completes.
    open spec fn pass_spec(&self, pass: Pass, txn: TxnId, pre: Self::Store, post: Self::Store) -> bool {
        true
    }

    /// What the rollover hook may do to the selection and the store.
    open spec fn rollover_spec(
        &self,
        txn: TxnId,
        pre: (RefSetView, Self::Store),
        post: (RefSetView, Self::Store),
    ) -> bool {
        true
    }

    /// The node's identifier.
    fn _id(&self) -> NodeId;

    /// The size of the node's data that `ref_set` selects. An operator
    /// without this hook has size 0 and leaves the selection as it is.
    fn _data_sz(&self, ref_set: &mut DataRefSet, store: &Self::Store) -> (size: usize)
        default_ensures
            size == 0,
            *final(ref_set) == *old(ref_set),
    {
        0
    }

    /// Reads the node's selected values from `reader`. An operator without
    /// this hook reads nothing: it leaves the selection, the payload and
    /// the store as they are.
    fn _load(&self, txn: TxnId, ref_set: &mut DataRefSet, reader: &mut Self::Payload, store: &mut Self::Store)
        default_ensures
            *final(ref_set) == *old(ref_set),
            *final(reader) == *old(reader),
            *final(store) == *old(store),
    {
    }

    /// Reads the node's selected tangents from `reader`. An operator
    /// without this hook reads nothing: it leaves the selection, the
    /// payload and the store as they are.
    fn _load_r_val(&self, txn: TxnId, ref_set: &mut DataRefSet, reader: &mut Self::Payload, store: &mut Self::Store)
        default_ensures
            *final(ref_set) == *old(ref_set),
            *final(reader) == *old(reader),
            *final(store) == *old(store),
    {
    }

    /// Writes the node's selected values to `writer`. An operator without
    /// this hook writes nothing: it leaves the selection, the payload and
    /// the store as they are.
    fn _store(&self, txn: TxnId, ref_set: &mut DataRefSet, writer: &mut Self::Payload, store: &mut Self::Store)
        default_ensures
            *final(ref_set) == *old(ref_set),
            *final(writer) == *old(writer),
            *final(store) == *old(store),
    {
    }

    /// Writes the node's selected adjoints to `writer`. An operator
    /// without this hook writes nothing: it leaves the selection, the
    /// payload and the store as they are.
    fn _store_grad(&self, txn: TxnId, ref_set: &mut DataRefSet, writer: &mut Self::Payload, store: &mut Self::Store)
        default_ensures
            *final(ref_set) == *old(ref_set),
            *final(writer) == *old(writer),
            *final(store) == *old(store),
    {
    }

    /// Writes the node's selected tangent adjoints to `writer`. An
    /// operator without this hook writes nothing: it leaves the selection,
    /// the payload and the store as they are.
    fn _store_r_grad(&self, txn: TxnId, ref_set: &mut DataRefSet, writer: &mut Self::Payload, store: &mut Self::Store)
        default_ensures
            *final(ref_set) == *old(ref_set),
            *final(writer) == *old(writer),
            *final(store) == *old(store),
    {
    }

    /// Takes the node's data across a transaction boundary.
    fn _rollover(&self, txn: TxnId, ref_set: &mut DataRefSet, store: &mut Self::Store)
        ensures
            self.rollover_spec(txn, (old(ref_set)@, *old(store)), (final(ref_set)@, *final(store))),
    ;

    /// Initializes the node's parameters. An operator without this hook
    /// has nothing to initialize: it leaves the store as it is.
    fn _init(&self, txn: TxnId, store: &mut Self::Store)
        default_ensures
            *final(store) == *old(store),
    {
    }

    /// Computes the node's value from the values of its inputs.
    fn _forward(&self, txn: TxnId, store: &mut Self::Store)
        ensures
            self.pass_spec(Pass::Forward, txn, *old(store), *final(store)),
    ;

    /// Adds the node's adjoint into the adjoints of its inputs. An operator
    /// without this hook reports that under its identifier, and leaves the
    /// store as it is.
    fn _backward(&self, txn: TxnId, gauss_newton: bool, store: &mut Self::Store) -> (done: Result<(), NotImplemented>)
        ensures
            done is Ok ==> self.pass_spec(
                Pass::Backward { gauss_newton: gauss_newton },
                txn,
                *old(store),
                *final(store),
            ),
        default_ensures
            done matches Err(missing) && missing.pass == (Pass::Backward { gauss_newton: gauss_newton })
                && call_ensures(Self::_id, (self,), missing.node),
            *final(store) == *old(store),
    {
        Err(NotImplemented { node: self._id(), pass: Pass::Backward { gauss_newton: gauss_newton } })
    }

    /// Computes the node's tangent from the tangents of its inputs. An
    /// operator without this hook reports that under its identifier, and
    /// leaves the store as it is.
    fn _r_forward(&self, txn: TxnId, gauss_newton: bool, store: &mut Self::Store) -> (done: Result<(), NotImplemented>)
        ensures
            done is Ok ==> self.pass_spec(
                Pass::RForward { gauss_newton: gauss_newton },
                txn,
                *old(store),
                *final(store),
            ),
        default_ensures
            done matches Err(missing) && missing.pass == (Pass::RForward { gauss_newton: gauss_newton })
                && call_ensures(Self::_id, (self,), missing.node),
            *final(store) == *old(store),
    {
        Err(NotImplemented { node: self._id(), pass: Pass::RForward { gauss_newton: gauss_newton } })
    }

    /// Adds the node's tangent adjoint into those of its inputs. An
    /// operator without this hook reports that under its identifier, and
    /// leaves the store as it is.
    fn _r_backward(&self, txn: TxnId, store: &mut Self::Store) -> (done: Result<(), NotImplemented>)
        ensures
            done is Ok ==> self.pass_spec(Pass::RBackward, txn, *old(store), *final(store)),
        default_ensures
            done matches Err(missing) && missing.pass == Pass::RBackward && call_ensures(
                Self::_id,
                (self,),
                missing.node,
            ),
            *final(store) == *old(store),
    {
        Err(NotImplemented { node: self._id(), pass: Pass::RBackward })
    }

    /// Moves the node's clock one step on. An operator without this hook
    /// reports that under its identifier, and leaves the store as it is.
    fn _clock(&self, txn: TxnId, store: &mut Self::Store) -> (done: Result<(), NotImplemented>)
        ensures
            done is Ok ==> self.pass_spec(Pass::Clock, txn, *old(store), *final(store)),
        default_ensures
            done matches Err(missing) && missing.pass == Pass::Clock && call_ensures(
                Self::_id,
                (self,),
                missing.node,
            ),
            *final(store) == *old(store),
    {
        Err(NotImplemented { node: self._id(), pass: Pass::Clock })
    }
}

/// An operator whose output is a scalar loss, from which gradients start.
pub trait DiffScalarLoss: DiffOperator {
    /// What the source hook may do to the store.
    open spec fn set_source_spec(&self, txn: TxnId, pre: Self::Store, post: Self::Store) -> bool {
        true
    }

    /// Sets the node's own adjoint and tangent adjoint to one.
    fn _set_source(&self, txn: TxnId, store: &mut Self::Store)
        ensures
            self.set_source_spec(txn, *old(store), *final(store)),
    ;
}

/// An operator whose output is an array.
pub trait ArrayOp<A, F>: DiffOperator {
    /// The node's output in the store.
    fn data<'a>(&self, store: &'a Self::Store) -> &'a ArrayData<A, F>;
}

} // verus!
