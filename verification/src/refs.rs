//! Addresses of data slots, and the sets of slots that a pass selects.

use vstd::prelude::*;
use std::collections::HashSet;
use crate::ids::{IdKind, IdSource, NodeId};

verus! {

/// What a slot holds: the value, its adjoint, the tangent of the value, or
/// the adjoint of the tangent.
#[derive(Clone, Copy, PartialEq, Eq, Structural, Hash)]
pub enum DataKind {
    Val,
    Grad,
    RVal,
    RGrad,
}

/// The address of one logical data slot.
#[derive(PartialEq, Eq, Structural, Hash)]
pub struct DataRef {
    pub node_id: NodeId,
    pub kind: DataKind,
}

impl Clone for DataRef {
    fn clone(&self) -> (copy: DataRef)
        ensures
            copy == *self,
    {
        DataRef { node_id: self.node_id, kind: self.kind }
    }
}

impl DataRef {
    /// The address of a new slot of the given kind, under a fresh node
    /// identifier.
    pub fn new(kind: DataKind, ids: &mut IdSource) -> (data_ref: DataRef)
        requires
            old(ids)@.nodes < u64::MAX,
        ensures
            data_ref.kind == kind,
            data_ref.node_id@ == old(ids)@.next(IdKind::Node),
            final(ids)@ == old(ids)@.issue(IdKind::Node),
    {
        DataRef { node_id: NodeId::new(ids), kind: kind }
    }
}

/// The number under which a kind is kept in a slot's key.
spec fn kind_code(kind: DataKind) -> nat {
    match kind {
        DataKind::Val => 0,
        DataKind::Grad => 1,
        DataKind::RVal => 2,
        DataKind::RGrad => 3,
    }
}

/// The integer under which a slot address is kept in a hash set: four times
/// the node's number plus the kind's code.
spec fn slot_key(data_ref: DataRef) -> u128 {
    (data_ref.node_id.0 * 4 + kind_code(data_ref.kind)) as u128
}

fn key_of(data_ref: &DataRef) -> (key: u128)
    ensures
        key == slot_key(*data_ref),
{
    let code: u128 = match data_ref.kind {
        DataKind::Val => 0,
        DataKind::Grad => 1,
        DataKind::RVal => 2,
        DataKind::RGrad => 3,
    };
    (data_ref.node_id.0 as u128) * 4 + code
}

/// What a [`DataRefSet`] holds: the slots selected for a pass, and those
/// masked during it.
pub struct RefSetView {
    pub included: Set<DataRef>,
    pub masked: Set<DataRef>,
}

impl RefSetView {
    /// Nothing selected, nothing masked.
    pub open spec fn empty() -> RefSetView {
        RefSetView { included: Set::empty(), masked: Set::empty() }
    }

    /// The set with `data_ref` selected as well.
    pub open spec fn add(self, data_ref: DataRef) -> RefSetView {
        RefSetView { included: self.included.insert(data_ref), ..self }
    }

    /// The set with `data_ref` masked as well.
    pub open spec fn mask(self, data_ref: DataRef) -> RefSetView {
        RefSetView { masked: self.masked.insert(data_ref), ..self }
    }

    /// The same selection with no slot masked.
    pub open spec fn unmask_all(self) -> RefSetView {
        RefSetView { masked: Set::empty(), ..self }
    }
}

/// The slots selected for a pass, with a mask that lasts for one pass.
pub struct DataRefSet {
    inner: HashSet<u128>,
    mask: HashSet<u128>,
}

impl View for DataRefSet {
    type V = RefSetView;

    closed spec fn view(&self) -> RefSetView {
        RefSetView {
            included: Set::new(|r: DataRef| self.inner@.contains(slot_key(r))),
            masked: Set::new(|r: DataRef| self.mask@.contains(slot_key(r))),
        }
    }
}

/// Copies a set of keys with `HashSet::clone`, which returns a set with the
/// same elements.
#[verifier::external_body]
fn clone_keys(keys: &HashSet<u128>) -> (copy: HashSet<u128>)
    ensures
        copy@ == keys@,
{
    keys.clone()
}

impl Clone for DataRefSet {
    fn clone(&self) -> (copy: DataRefSet)
        ensures
            copy@ == self@,
    {
        DataRefSet { inner: clone_keys(&self.inner), mask: clone_keys(&self.mask) }
    }
}

impl DataRefSet {
    /// A set that selects nothing and masks nothing.
    pub fn empty() -> (set: DataRefSet)
        ensures
            set@ == RefSetView::empty(),
    {
        let set = DataRefSet { inner: HashSet::new(), mask: HashSet::new() };
        assert(set@.included =~= Set::<DataRef>::empty());
        assert(set@.masked =~= Set::<DataRef>::empty());
        set
    }

    /// The set with `data_ref` selected as well.
    pub fn add(self, data_ref: DataRef) -> (set: DataRefSet)
        ensures
            set@ == self@.add(data_ref),
    {
        let mut set = self;
        let key = key_of(&data_ref);
        set.inner.insert(key);
        assert(set@.included =~= self@.included.insert(data_ref));
        set
    }

    /// Deselects and unmasks every slot.
    pub fn clear(&mut self)
        ensures
            final(self)@ == RefSetView::empty(),
    {
        self.inner.clear();
        self.mask.clear();
        assert(self@.included =~= Set::<DataRef>::empty());
        assert(self@.masked =~= Set::<DataRef>::empty());
    }

    /// Whether `data_ref` is selected.
    pub fn contains(&mut self, data_ref: &DataRef) -> (b: bool)
        ensures
            b == old(self)@.included.contains(*data_ref),
            final(self)@ == old(self)@,
    {
        let key = key_of(data_ref);
        self.inner.contains(&key)
    }

    /// Unmasks every slot; the selection stays.
    pub fn unmask_all(&mut self)
        ensures
            final(self)@ == old(self)@.unmask_all(),
    {
        self.mask.clear();
        assert(self@.masked =~= Set::<DataRef>::empty());
    }

    /// Masks `data_ref`; the selection stays.
    pub fn mask(&mut self, data_ref: DataRef)
        ensures
            final(self)@ == old(self)@.mask(data_ref),
    {
        let key = key_of(&data_ref);
        self.mask.insert(key);
        assert(self@.masked =~= old(self)@.masked.insert(data_ref));
    }

    /// Whether `data_ref` is masked.
    pub fn is_masked(&mut self, data_ref: &DataRef) -> (b: bool)
        ensures
            b == old(self)@.masked.contains(*data_ref),
            final(self)@ == old(self)@,
    {
        let key = key_of(data_ref);
        self.mask.contains(&key)
    }
}

} // verus!
