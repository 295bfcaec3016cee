use arraydiff::{
    DataRef, DataRefSet, DiffOperator, DiffScalarLoss, Graph, IdKind, IdSource, NodeId, NotImplemented, Pass,
    TxnId, Val,
};

/// What a hook call leaves in the log: the node's number and the hook.
#[derive(Clone, Copy, PartialEq, Eq, Debug)]
enum Call {
    Forward(u64),
    Backward(u64, bool),
    RForward(u64, bool),
    RBackward(u64),
    Clock(u64),
    SetSource(u64),
    Rollover(u64),
    Init(u64),
    Load(u64),
    Store(u64),
}

/// An operator that records which of its hooks ran, and implements the
/// optional ones only as far as `level` says.
struct Probe {
    id: NodeId,
    level: u8,
    size: usize,
}

impl DiffOperator for Probe {
    type Store = Vec<Call>;
    type Payload = Vec<u64>;

    fn _id(&self) -> NodeId {
        self.id
    }

    fn _data_sz(&self, _ref_set: &mut DataRefSet, _store: &Vec<Call>) -> usize {
        self.size
    }

    fn _load(&self, _txn: TxnId, ref_set: &mut DataRefSet, reader: &mut Vec<u64>, store: &mut Vec<Call>) {
        ref_set.mask(DataRef { node_id: self.id, kind: Val });
        reader.push(self.id.raw());
        store.push(Call::Load(self.id.raw()));
    }

    fn _store(&self, _txn: TxnId, ref_set: &mut DataRefSet, writer: &mut Vec<u64>, store: &mut Vec<Call>) {
        if !ref_set.is_masked(&DataRef { node_id: self.id, kind: Val }) {
            writer.push(self.id.raw());
        }
        store.push(Call::Store(self.id.raw()));
    }

    fn _rollover(&self, _txn: TxnId, ref_set: &mut DataRefSet, store: &mut Vec<Call>) {
        ref_set.mask(DataRef { node_id: self.id, kind: Val });
        store.push(Call::Rollover(self.id.raw()));
    }

    fn _init(&self, _txn: TxnId, store: &mut Vec<Call>) {
        store.push(Call::Init(self.id.raw()));
    }

    fn _forward(&self, _txn: TxnId, store: &mut Vec<Call>) {
        store.push(Call::Forward(self.id.raw()));
    }

    fn _backward(&self, _txn: TxnId, gauss_newton: bool, store: &mut Vec<Call>) -> Result<(), NotImplemented> {
        if self.level < 1 {
            return Err(NotImplemented { node: self.id, pass: Pass::Backward { gauss_newton } });
        }
        store.push(Call::Backward(self.id.raw(), gauss_newton));
        Ok(())
    }

    fn _r_forward(&self, _txn: TxnId, gauss_newton: bool, store: &mut Vec<Call>) -> Result<(), NotImplemented> {
        if self.level < 2 {
            return Err(NotImplemented { node: self.id, pass: Pass::RForward { gauss_newton } });
        }
        store.push(Call::RForward(self.id.raw(), gauss_newton));
        Ok(())
    }

    fn _r_backward(&self, _txn: TxnId, store: &mut Vec<Call>) -> Result<(), NotImplemented> {
        if self.level < 3 {
            return Err(NotImplemented { node: self.id, pass: Pass::RBackward });
        }
        store.push(Call::RBackward(self.id.raw()));
        Ok(())
    }

    fn _clock(&self, _txn: TxnId, store: &mut Vec<Call>) -> Result<(), NotImplemented> {
        if self.level < 3 {
            return Err(NotImplemented { node: self.id, pass: Pass::Clock });
        }
        store.push(Call::Clock(self.id.raw()));
        Ok(())
    }
}

impl DiffScalarLoss for Probe {
    fn _set_source(&self, _txn: TxnId, store: &mut Vec<Call>) {
        store.push(Call::SetSource(self.id.raw()));
    }
}

/// An operator that implements only what it must.
struct Bare {
    id: NodeId,
}

impl DiffOperator for Bare {
    type Store = Vec<Call>;
    type Payload = Vec<u64>;

    fn _id(&self) -> NodeId {
        self.id
    }

    fn _rollover(&self, _txn: TxnId, _ref_set: &mut DataRefSet, store: &mut Vec<Call>) {
        store.push(Call::Rollover(self.id.raw()));
    }

    fn _forward(&self, _txn: TxnId, store: &mut Vec<Call>) {
        store.push(Call::Forward(self.id.raw()));
    }
}

impl DiffScalarLoss for Bare {
    fn _set_source(&self, _txn: TxnId, store: &mut Vec<Call>) {
        store.push(Call::SetSource(self.id.raw()));
    }
}

fn probe(ids: &mut IdSource, level: u8) -> Probe {
    Probe { id: NodeId::new(ids), level: level, size: 3 }
}

/// c feeds a and b, which feed the loss r; the nodes have the numbers 1 to 4.
fn diamond(level: u8) -> (IdSource, Graph<Probe>, usize, TxnId) {
    let mut ids = IdSource::new();
    let mut graph = Graph::new();
    let c = graph.add(probe(&mut ids, level), vec![]).unwrap();
    let a = graph.add(probe(&mut ids, level), vec![c]).unwrap();
    let b = graph.add(probe(&mut ids, level), vec![c]).unwrap();
    let r = graph.add(probe(&mut ids, level), vec![a, b]).unwrap();
    let txn = TxnId::new(&mut ids);
    (ids, graph, r, txn)
}

#[test]
fn eval_runs_a_shared_input_once() {
    let mut ids = IdSource::new();
    let mut graph: Graph<Probe> = Graph::new();
    let a = graph.add(probe(&mut ids, 3), vec![]).unwrap();
    let y = graph.add(probe(&mut ids, 3), vec![a, a]).unwrap();
    let txn = TxnId::new(&mut ids);
    let mut log = Vec::new();
    graph.eval(y, txn, &mut ids, &mut log);
    assert_eq!(log, vec![Call::Forward(1), Call::Forward(2)]);
}

#[test]
fn eval_runs_every_node_once_with_inputs_first() {
    let (mut ids, mut graph, r, txn) = diamond(3);
    let mut log = Vec::new();
    graph.eval(r, txn, &mut ids, &mut log);
    assert_eq!(log, vec![Call::Forward(1), Call::Forward(2), Call::Forward(3), Call::Forward(4)]);
    log.clear();
    graph.eval(r, txn, &mut ids, &mut log);
    assert_eq!(log, vec![Call::Forward(1), Call::Forward(2), Call::Forward(3), Call::Forward(4)]);
}

#[test]
fn every_pass_takes_one_epoch() {
    let (mut ids, mut graph, r, txn) = diamond(3);
    let mut log = Vec::new();
    assert_eq!(ids.issued(IdKind::Epoch), 0);
    graph.eval(r, txn, &mut ids, &mut log);
    assert_eq!(ids.issued(IdKind::Epoch), 1);
    assert_eq!(graph.gradient(r, txn, &mut ids, &mut log), Ok(()));
    assert_eq!(ids.issued(IdKind::Epoch), 2);
    assert_eq!(graph.hessian_vector_product(r, txn, &mut ids, &mut log), Ok(()));
    assert_eq!(ids.issued(IdKind::Epoch), 3);
    graph.init(r, txn, &mut ids, &mut log);
    assert_eq!(ids.issued(IdKind::Epoch), 4);
    assert_eq!(ids.issued(IdKind::Node), 4);
    assert_eq!(ids.issued(IdKind::Txn), 1);
}

#[test]
fn gradient_evaluates_sets_the_source_and_goes_back() {
    let (mut ids, mut graph, r, txn) = diamond(1);
    let mut log = Vec::new();
    assert_eq!(graph.gradient(r, txn, &mut ids, &mut log), Ok(()));
    assert_eq!(
        log,
        vec![
            Call::Forward(1),
            Call::Forward(2),
            Call::Forward(3),
            Call::Forward(4),
            Call::SetSource(4),
            Call::Backward(4, false),
            Call::Backward(3, false),
            Call::Backward(2, false),
            Call::Backward(1, false),
        ]
    );
}

#[test]
fn gradient_reports_the_node_without_a_backward_hook() {
    let (mut ids, mut graph, r, txn) = diamond(0);
    let mut log = Vec::new();
    assert_eq!(
        graph.gradient(r, txn, &mut ids, &mut log),
        Err(NotImplemented { node: graph.op(r)._id(), pass: Pass::Backward { gauss_newton: false } })
    );
    assert_eq!(graph.op(r)._id().raw(), 4);
    log.clear();
    graph.eval(r, txn, &mut ids, &mut log);
    assert_eq!(log.len(), 4);
}

#[test]
fn gauss_newton_product_runs_its_four_stages() {
    let (mut ids, mut graph, r, txn) = diamond(2);
    let mut log = Vec::new();
    assert_eq!(graph.gauss_newton_vector_product(r, txn, &mut ids, &mut log), Ok(()));
    assert_eq!(
        log,
        vec![
            Call::Forward(1),
            Call::Forward(2),
            Call::Forward(3),
            Call::Forward(4),
            Call::RForward(1, true),
            Call::RForward(2, true),
            Call::RForward(3, true),
            Call::RForward(4, true),
            Call::SetSource(4),
            Call::Backward(4, true),
            Call::Backward(3, true),
            Call::Backward(2, true),
            Call::Backward(1, true),
        ]
    );
}

#[test]
fn gauss_newton_product_reports_a_missing_tangent_hook() {
    let (mut ids, mut graph, r, txn) = diamond(1);
    let mut log = Vec::new();
    assert_eq!(
        graph.gauss_newton_vector_product(r, txn, &mut ids, &mut log),
        Err(NotImplemented { node: graph.op(0)._id(), pass: Pass::RForward { gauss_newton: true } })
    );
}

#[test]
fn hessian_product_runs_its_five_stages() {
    let (mut ids, mut graph, r, txn) = diamond(3);
    let mut log = Vec::new();
    assert_eq!(graph.hessian_vector_product(r, txn, &mut ids, &mut log), Ok(()));
    assert_eq!(
        log,
        vec![
            Call::Forward(1),
            Call::Forward(2),
            Call::Forward(3),
            Call::Forward(4),
            Call::RForward(1, false),
            Call::RForward(2, false),
            Call::RForward(3, false),
            Call::RForward(4, false),
            Call::SetSource(4),
            Call::Backward(4, false),
            Call::Backward(3, false),
            Call::Backward(2, false),
            Call::Backward(1, false),
            Call::RBackward(4),
            Call::RBackward(3),
            Call::RBackward(2),
            Call::RBackward(1),
        ]
    );
}

#[test]
fn hessian_product_reports_a_missing_tangent_backward_hook() {
    let (mut ids, mut graph, r, txn) = diamond(2);
    let mut log = Vec::new();
    assert_eq!(
        graph.hessian_vector_product(r, txn, &mut ids, &mut log),
        Err(NotImplemented { node: graph.op(r)._id(), pass: Pass::RBackward })
    );
}

#[test]
fn clock_goes_forward() {
    let (mut ids, mut graph, r, txn) = diamond(3);
    let mut log = Vec::new();
    assert_eq!(graph.clock(r, txn, &mut ids, &mut log), Ok(()));
    assert_eq!(log, vec![Call::Clock(1), Call::Clock(2), Call::Clock(3), Call::Clock(4)]);
}

#[test]
fn hooks_that_are_left_out_report_not_implemented() {
    let mut ids = IdSource::new();
    let mut graph: Graph<Bare> = Graph::new();
    let a = graph.add(Bare { id: NodeId::new(&mut ids) }, vec![]).unwrap();
    let y = graph.add(Bare { id: NodeId::new(&mut ids) }, vec![a]).unwrap();
    let txn = TxnId::new(&mut ids);
    let mut log = Vec::new();
    assert_eq!(
        graph.clock(y, txn, &mut ids, &mut log),
        Err(NotImplemented { node: graph.op(a)._id(), pass: Pass::Clock })
    );
    assert_eq!(
        graph.gradient(y, txn, &mut ids, &mut log),
        Err(NotImplemented { node: graph.op(y)._id(), pass: Pass::Backward { gauss_newton: false } })
    );
    assert_eq!(
        graph.gauss_newton_vector_product(y, txn, &mut ids, &mut log),
        Err(NotImplemented { node: graph.op(a)._id(), pass: Pass::RForward { gauss_newton: true } })
    );
    assert_eq!(
        graph.hessian_vector_product(y, txn, &mut ids, &mut log),
        Err(NotImplemented { node: graph.op(a)._id(), pass: Pass::RForward { gauss_newton: false } })
    );
}

#[test]
fn hooks_that_are_left_out_do_nothing_in_housekeeping() {
    let mut ids = IdSource::new();
    let mut graph: Graph<Bare> = Graph::new();
    let a = graph.add(Bare { id: NodeId::new(&mut ids) }, vec![]).unwrap();
    let y = graph.add(Bare { id: NodeId::new(&mut ids) }, vec![a, a]).unwrap();
    let txn = TxnId::new(&mut ids);
    let mut log = Vec::new();
    let mut payload = Vec::new();
    let mut refs = DataRefSet::empty();
    graph.load(y, txn, &mut refs, &mut payload, &mut ids, &mut log);
    graph.load_r_val(y, txn, &mut refs, &mut payload, &mut ids, &mut log);
    graph.store(y, txn, &mut refs, &mut payload, &mut ids, &mut log);
    graph.store_grad(y, txn, &mut refs, &mut payload, &mut ids, &mut log);
    graph.store_r_grad(y, txn, &mut refs, &mut payload, &mut ids, &mut log);
    graph.init(y, txn, &mut ids, &mut log);
    assert_eq!(graph.data_sz(y, &mut refs, &mut ids, &log), Some(0));
    assert_eq!(log, vec![]);
    assert_eq!(payload, Vec::<u64>::new());
}

#[test]
fn init_goes_back_from_the_root() {
    let (mut ids, mut graph, r, txn) = diamond(3);
    let mut log = Vec::new();
    graph.init(r, txn, &mut ids, &mut log);
    assert_eq!(log, vec![Call::Init(4), Call::Init(3), Call::Init(2), Call::Init(1)]);
}

#[test]
fn rollover_goes_back_and_clears_the_mask() {
    let (mut ids, mut graph, r, txn) = diamond(3);
    let mut log = Vec::new();
    let stale = DataRef { node_id: graph.op(0)._id(), kind: Val };
    let mut refs = DataRefSet::empty().add(stale.clone());
    refs.mask(stale.clone());
    graph.rollover(r, txn, &mut refs, &mut ids, &mut log);
    assert_eq!(log, vec![Call::Rollover(4), Call::Rollover(3), Call::Rollover(2), Call::Rollover(1)]);
    assert!(refs.contains(&stale));
    for v in 0..graph.len() {
        assert!(!refs.is_masked(&DataRef { node_id: graph.op(v)._id(), kind: Val }));
    }
}

#[test]
fn load_goes_back_with_a_clean_mask() {
    let (mut ids, mut graph, r, txn) = diamond(3);
    let mut log = Vec::new();
    let mut payload = Vec::new();
    let mut refs = DataRefSet::empty();
    graph.load(r, txn, &mut refs, &mut payload, &mut ids, &mut log);
    assert_eq!(log, vec![Call::Load(4), Call::Load(3), Call::Load(2), Call::Load(1)]);
    assert_eq!(payload, vec![4, 3, 2, 1]);
    for v in 0..graph.len() {
        assert!(!refs.is_masked(&DataRef { node_id: graph.op(v)._id(), kind: Val }));
    }
}

#[test]
fn store_starts_from_a_clean_mask() {
    let (mut ids, mut graph, r, txn) = diamond(3);
    let mut log = Vec::new();
    let mut payload = Vec::new();
    let mut refs = DataRefSet::empty();
    for v in 0..graph.len() {
        refs.mask(DataRef { node_id: graph.op(v)._id(), kind: Val });
    }
    graph.store(r, txn, &mut refs, &mut payload, &mut ids, &mut log);
    assert_eq!(log, vec![Call::Store(4), Call::Store(3), Call::Store(2), Call::Store(1)]);
    assert_eq!(payload, vec![4, 3, 2, 1]);
}

#[test]
fn data_sz_adds_up_what_the_nodes_report() {
    let (mut ids, mut graph, r, _txn) = diamond(3);
    let log = Vec::new();
    let mut refs = DataRefSet::empty();
    assert_eq!(graph.data_sz(r, &mut refs, &mut ids, &log), Some(12));
    assert_eq!(graph.data_sz(1, &mut refs, &mut ids, &log), Some(6));
    assert_eq!(graph.data_sz(0, &mut refs, &mut ids, &log), Some(3));
}

#[test]
fn data_sz_is_none_when_the_sum_does_not_fit() {
    let mut ids = IdSource::new();
    let mut graph = Graph::new();
    let a = graph.add(Probe { id: NodeId::new(&mut ids), level: 0, size: usize::MAX }, vec![]).unwrap();
    let y = graph.add(Probe { id: NodeId::new(&mut ids), level: 0, size: 1 }, vec![a]).unwrap();
    let log = Vec::new();
    let mut refs = DataRefSet::empty();
    assert_eq!(graph.data_sz(a, &mut refs, &mut ids, &log), Some(usize::MAX));
    assert_eq!(graph.data_sz(y, &mut refs, &mut ids, &log), None);
}

#[test]
fn a_hook_that_is_left_out_names_its_node_and_leaves_the_store() {
    let mut ids = IdSource::new();
    let _other = NodeId::new(&mut ids);
    let op = Bare { id: NodeId::new(&mut ids) };
    let txn = TxnId::new(&mut ids);
    let mut log = vec![Call::Init(9)];
    assert_eq!(
        op._backward(txn, true, &mut log),
        Err(NotImplemented { node: op.id, pass: Pass::Backward { gauss_newton: true } })
    );
    assert_eq!(
        op._backward(txn, false, &mut log),
        Err(NotImplemented { node: op.id, pass: Pass::Backward { gauss_newton: false } })
    );
    assert_eq!(
        op._r_forward(txn, true, &mut log),
        Err(NotImplemented { node: op.id, pass: Pass::RForward { gauss_newton: true } })
    );
    assert_eq!(
        op._r_forward(txn, false, &mut log),
        Err(NotImplemented { node: op.id, pass: Pass::RForward { gauss_newton: false } })
    );
    assert_eq!(op._r_backward(txn, &mut log), Err(NotImplemented { node: op.id, pass: Pass::RBackward }));
    assert_eq!(op._clock(txn, &mut log), Err(NotImplemented { node: op.id, pass: Pass::Clock }));
    assert_eq!(op.id.raw(), 2);
    assert_eq!(log, vec![Call::Init(9)]);
}

#[test]
fn a_reverse_pass_stops_at_the_first_hook_that_fails() {
    let mut ids = IdSource::new();
    let mut graph = Graph::new();
    let c = graph.add(probe(&mut ids, 1), vec![]).unwrap();
    let a = graph.add(probe(&mut ids, 0), vec![c]).unwrap();
    let b = graph.add(probe(&mut ids, 1), vec![c]).unwrap();
    let r = graph.add(probe(&mut ids, 1), vec![a, b]).unwrap();
    let txn = TxnId::new(&mut ids);
    let mut log = Vec::new();
    assert_eq!(
        graph.gradient(r, txn, &mut ids, &mut log),
        Err(NotImplemented { node: graph.op(a)._id(), pass: Pass::Backward { gauss_newton: false } })
    );
    assert_eq!(
        log,
        vec![
            Call::Forward(1),
            Call::Forward(2),
            Call::Forward(3),
            Call::Forward(4),
            Call::SetSource(4),
            Call::Backward(4, false),
            Call::Backward(3, false),
        ]
    );
    log.clear();
    assert_eq!(graph.gradient(b, txn, &mut ids, &mut log), Ok(()));
    assert_eq!(
        log,
        vec![Call::Forward(1), Call::Forward(3), Call::SetSource(3), Call::Backward(3, false), Call::Backward(1, false)]
    );
}

#[test]
fn hooks_that_are_left_out_leave_everything_as_it_is() {
    let mut ids = IdSource::new();
    let op = Bare { id: NodeId::new(&mut ids) };
    let txn = TxnId::new(&mut ids);
    let slot = DataRef { node_id: op.id, kind: Val };
    let mut refs = DataRefSet::empty().add(slot.clone());
    refs.mask(slot.clone());
    let mut payload = vec![1, 2, 3];
    let mut log = vec![Call::Init(9)];
    assert_eq!(op._data_sz(&mut refs, &log), 0);
    op._load(txn, &mut refs, &mut payload, &mut log);
    op._load_r_val(txn, &mut refs, &mut payload, &mut log);
    op._store(txn, &mut refs, &mut payload, &mut log);
    op._store_grad(txn, &mut refs, &mut payload, &mut log);
    op._store_r_grad(txn, &mut refs, &mut payload, &mut log);
    op._init(txn, &mut log);
    assert!(refs.contains(&slot));
    assert!(refs.is_masked(&slot));
    assert_eq!(payload, vec![1, 2, 3]);
    assert_eq!(log, vec![Call::Init(9)]);
}

#[test]
fn data_sz_counts_a_shared_node_once() {
    let mut ids = IdSource::new();
    let mut graph = Graph::new();
    let a = graph.add(Probe { id: NodeId::new(&mut ids), level: 0, size: 5 }, vec![]).unwrap();
    let y = graph.add(Probe { id: NodeId::new(&mut ids), level: 0, size: 7 }, vec![a, a, a]).unwrap();
    let log = Vec::new();
    let mut refs = DataRefSet::empty();
    assert_eq!(graph.data_sz(y, &mut refs, &mut ids, &log), Some(12));
}

#[test]
fn the_hessian_product_completes_where_every_hook_is_there() {
    let mut ids = IdSource::new();
    let mut graph = Graph::new();
    let a = graph.add(probe(&mut ids, 3), vec![]).unwrap();
    let y = graph.add(probe(&mut ids, 3), vec![a, a]).unwrap();
    let txn = TxnId::new(&mut ids);
    let mut log = Vec::new();
    assert_eq!(graph.hessian_vector_product(y, txn, &mut ids, &mut log), Ok(()));
    assert_eq!(
        log,
        vec![
            Call::Forward(1),
            Call::Forward(2),
            Call::RForward(1, false),
            Call::RForward(2, false),
            Call::SetSource(2),
            Call::Backward(2, false),
            Call::Backward(1, false),
            Call::RBackward(2),
            Call::RBackward(1),
        ]
    );
}

#[test]
fn a_forward_pass_stops_at_the_first_hook_that_fails() {
    let mut ids = IdSource::new();
    let mut graph = Graph::new();
    let c = graph.add(probe(&mut ids, 3), vec![]).unwrap();
    let a = graph.add(probe(&mut ids, 1), vec![c]).unwrap();
    let r = graph.add(probe(&mut ids, 3), vec![a, c]).unwrap();
    let txn = TxnId::new(&mut ids);
    let mut log = Vec::new();
    assert_eq!(
        graph.hessian_vector_product(r, txn, &mut ids, &mut log),
        Err(NotImplemented { node: graph.op(a)._id(), pass: Pass::RForward { gauss_newton: false } })
    );
    assert_eq!(log, vec![Call::Forward(1), Call::Forward(2), Call::Forward(3), Call::RForward(1, false)]);
    log.clear();
    assert_eq!(
        graph.clock(r, txn, &mut ids, &mut log),
        Err(NotImplemented { node: graph.op(a)._id(), pass: Pass::Clock })
    );
    assert_eq!(log, vec![Call::Clock(1)]);
}
