//! Node, transaction and epoch identifiers, and the counters that issue them.

use vstd::prelude::*;

verus! {

/// The three kinds of identifier, each drawn from a counter of its own.
#[derive(Clone, Copy, PartialEq, Eq, Structural, Debug)]
pub enum IdKind {
    Node,
    Txn,
    Epoch,
}

/// How many identifiers of each kind have been issued.
pub struct IdCounts {
    pub nodes: nat,
    pub txns: nat,
    pub epochs: nat,
}

impl IdCounts {
    /// No identifier issued yet.
    pub open spec fn fresh() -> IdCounts {
        IdCounts { nodes: 0, txns: 0, epochs: 0 }
    }

    /// The number of identifiers of `kind` issued so far; also the largest
    /// value issued, since the values are 1, 2, 3, ...
    pub open spec fn count(self, kind: IdKind) -> nat {
        match kind {
            IdKind::Node => self.nodes,
            IdKind::Txn => self.txns,
            IdKind::Epoch => self.epochs,
        }
    }

    /// The value that the next allocation of `kind` returns.
    pub open spec fn next(self, kind: IdKind) -> nat {
        self.count(kind) + 1
    }

    /// The counts after one allocation of `kind`: that counter moves by one,
    /// the other two stay.
    pub open spec fn issue(self, kind: IdKind) -> IdCounts {
        match kind {
            IdKind::Node => IdCounts { nodes: self.nodes + 1, ..self },
            IdKind::Txn => IdCounts { txns: self.txns + 1, ..self },
            IdKind::Epoch => IdCounts { epochs: self.epochs + 1, ..self },
        }
    }

    /// The counts after a run of allocations, in the order given.
    pub open spec fn after(self, kinds: Seq<IdKind>) -> IdCounts
        decreases kinds.len(),
    {
        if kinds.len() == 0 {
            self
        } else {
            self.after(kinds.drop_last()).issue(kinds.last())
        }
    }

    /// The value returned by allocation number `i` of the run `kinds`.
    pub open spec fn issued(self, kinds: Seq<IdKind>, i: int) -> nat
        recommends
            0 <= i < kinds.len(),
    {
        self.after(kinds.take(i)).next(kinds[i])
    }
}

/// Within one run, two counts taken at different times are ordered like the
/// times.
pub proof fn lemma_after_prefix(start: IdCounts, kinds: Seq<IdKind>, i: int, j: int, kind: IdKind)
    requires
        0 <= i <= j <= kinds.len(),
    ensures
        start.after(kinds.take(i)).count(kind) <= start.after(kinds.take(j)).count(kind),
    decreases j - i,
{
    if i < j {
        lemma_after_prefix(start, kinds, i, j - 1, kind);
        assert(kinds.take(j).drop_last() == kinds.take(j - 1));
    }
}

/// No allocation returns zero, and no two allocations of one kind in a run
/// return the same value, however allocations of the three kinds are
/// interleaved.
pub proof fn lemma_ids_never_repeat(start: IdCounts, kinds: Seq<IdKind>, i: int, j: int)
    requires
        0 <= i < j < kinds.len(),
        kinds[i] == kinds[j],
    ensures
        start.issued(kinds, i) != 0,
        start.issued(kinds, j) != 0,
        start.issued(kinds, i) < start.issued(kinds, j),
{
    let kind = kinds[i];
    lemma_after_prefix(start, kinds, i + 1, j, kind);
    assert(kinds.take(i + 1).drop_last() == kinds.take(i));
    assert(kinds.take(i + 1).last() == kinds[i]);
}

/// The three counters from which identifiers are issued.
pub struct IdSource {
    nodes: u64,
    txns: u64,
    epochs: u64,
}

impl View for IdSource {
    type V = IdCounts;

    closed spec fn view(&self) -> IdCounts {
        IdCounts { nodes: self.nodes as nat, txns: self.txns as nat, epochs: self.epochs as nat }
    }
}

impl IdSource {
    /// Counters from which nothing has been issued.
    pub fn new() -> (ids: IdSource)
        ensures
            ids@ == IdCounts::fresh(),
    {
        IdSource { nodes: 0, txns: 0, epochs: 0 }
    }

    /// Whether one more identifier of `kind` can be issued.
    pub fn has_next(&self, kind: IdKind) -> (b: bool)
        ensures
            b == (self@.count(kind) < u64::MAX),
    {
        match kind {
            IdKind::Node => self.nodes < u64::MAX,
            IdKind::Txn => self.txns < u64::MAX,
            IdKind::Epoch => self.epochs < u64::MAX,
        }
    }

    /// How many identifiers of `kind` have been issued.
    pub fn issued(&self, kind: IdKind) -> (n: u64)
        ensures
            n == self@.count(kind),
    {
        match kind {
            IdKind::Node => self.nodes,
            IdKind::Txn => self.txns,
            IdKind::Epoch => self.epochs,
        }
    }
}

/// Identifies a node of the operator graph.
#[derive(Clone, Copy, PartialEq, Eq, Structural, Hash, Debug)]
pub struct NodeId(pub(crate) u64);

impl View for NodeId {
    type V = u64;

    closed spec fn view(&self) -> u64 {
        self.0
    }
}

impl NodeId {
    /// Issues the next node identifier.
    pub fn new(ids: &mut IdSource) -> (id: NodeId)
        requires
            old(ids)@.nodes < u64::MAX,
        ensures
            id@ == old(ids)@.next(IdKind::Node),
            final(ids)@ == old(ids)@.issue(IdKind::Node),
    {
        ids.nodes = ids.nodes + 1;
        NodeId(ids.nodes)
    }

    /// The identifier's number.
    pub fn raw(&self) -> (n: u64)
        ensures
            n == self@,
    {
        self.0
    }
}

/// Identifies a transaction.
#[derive(Clone, Copy, PartialEq, Eq, Structural, Hash, Debug)]
pub struct TxnId(pub(crate) u64);

impl View for TxnId {
    type V = u64;

    closed spec fn view(&self) -> u64 {
        self.0
    }
}

impl TxnId {
    /// Issues the next transaction identifier.
    pub fn new(ids: &mut IdSource) -> (id: TxnId)
        requires
            old(ids)@.txns < u64::MAX,
        ensures
            id@ == old(ids)@.next(IdKind::Txn),
            final(ids)@ == old(ids)@.issue(IdKind::Txn),
    {
        ids.txns = ids.txns + 1;
        TxnId(ids.txns)
    }

    /// The identifier's number.
    pub fn raw(&self) -> (n: u64)
        ensures
            n == self@,
    {
        self.0
    }
}

/// Numbers one pass over the graph.
#[derive(Clone, Copy, PartialEq, Eq, Structural, Debug)]
pub struct EpochNr(pub(crate) u64);

impl View for EpochNr {
    type V = u64;

    closed spec fn view(&self) -> u64 {
        self.0
    }
}

impl EpochNr {
    /// Issues the next epoch number.
    pub fn new(ids: &mut IdSource) -> (nr: EpochNr)
        requires
            old(ids)@.epochs < u64::MAX,
        ensures
            nr@ == old(ids)@.next(IdKind::Epoch),
            final(ids)@ == old(ids)@.issue(IdKind::Epoch),
    {
        ids.epochs = ids.epochs + 1;
        EpochNr(ids.epochs)
    }

    /// The epoch's number.
    pub fn raw(&self) -> (n: u64)
        ensures
            n == self@,
    {
        self.0
    }
}

/// One pass over the graph: the node it starts from and its number.
#[derive(Clone, Copy, PartialEq, Eq, Structural, Debug)]
pub struct Epoch {
    pub root: NodeId,
    pub epoch_nr: EpochNr,
}

impl Epoch {
    /// A fresh epoch rooted at `root`.
    pub fn new(root: NodeId, ids: &mut IdSource) -> (epoch: Epoch)
        requires
            old(ids)@.epochs < u64::MAX,
        ensures
            epoch.root == root,
            epoch.epoch_nr@ == old(ids)@.next(IdKind::Epoch),
            final(ids)@ == old(ids)@.issue(IdKind::Epoch),
    {
        Epoch { root: root, epoch_nr: EpochNr::new(ids) }
    }
}

} // verus!
