use arraydiff::{
    ArrayData, ArrayOp, DataRefSet, DiffOperator, DiffScalarLoss, Graph, IdSource, NodeId, NotImplemented, TxnId,
};
use std::rc::Rc;

type Scalar = ArrayData<f32, fn(TxnId, NodeId) -> f32>;

fn zero(_txn: TxnId, _node: NodeId) -> f32 {
    0.0
}

/// Scalar operators; each names the places of its own output and of its
/// inputs' outputs in the store.
enum Kind {
    Source,
    Sum(usize, usize),
    Square(usize),
}

struct ScalarOp {
    id: NodeId,
    out: usize,
    kind: Kind,
}

fn accumulate(data: &mut Scalar, txn: TxnId, node: NodeId, delta: f32) {
    data.grad.write(txn, node, |grad| *grad = 0.0);
    *data.grad.get_mut(txn, node) += delta;
}

impl DiffOperator for ScalarOp {
    type Store = Vec<Scalar>;
    type Payload = ();

    fn _id(&self) -> NodeId {
        self.id
    }

    fn _rollover(&self, txn: TxnId, ref_set: &mut DataRefSet, store: &mut Vec<Scalar>) {
        store[self.out].rollover_all(txn, ref_set);
    }

    fn _forward(&self, txn: TxnId, store: &mut Vec<Scalar>) {
        let value = match self.kind {
            Kind::Source => return,
            Kind::Sum(a, b) => *store[a].val.get(txn, self.id) + *store[b].val.get(txn, self.id),
            Kind::Square(a) => {
                let x = *store[a].val.get(txn, self.id);
                x * x
            }
        };
        if store[self.out].val.write(txn, self.id, |_| {}) {
            *store[self.out].val.get_mut(txn, self.id) = value;
        }
    }

    fn _backward(&self, txn: TxnId, _gauss_newton: bool, store: &mut Vec<Scalar>) -> Result<(), NotImplemented> {
        match self.kind {
            Kind::Source => {}
            Kind::Sum(a, b) => {
                let dy = *store[self.out].grad.get(txn, self.id);
                accumulate(&mut store[a], txn, self.id, dy);
                accumulate(&mut store[b], txn, self.id, dy);
            }
            Kind::Square(a) => {
                let dy = *store[self.out].grad.get(txn, self.id);
                let x = *store[a].val.get(txn, self.id);
                accumulate(&mut store[a], txn, self.id, 2.0 * x * dy);
            }
        }
        Ok(())
    }
}

impl DiffScalarLoss for ScalarOp {
    fn _set_source(&self, txn: TxnId, store: &mut Vec<Scalar>) {
        store[self.out].grad.write(txn, self.id, |grad| *grad = 1.0);
    }
}

impl ArrayOp<f32, fn(TxnId, NodeId) -> f32> for ScalarOp {
    fn data<'a>(&self, store: &'a Vec<Scalar>) -> &'a Scalar {
        &store[self.out]
    }
}

struct Net {
    ids: IdSource,
    graph: Graph<ScalarOp>,
    store: Vec<Scalar>,
}

impl Net {
    fn new() -> Net {
        Net { ids: IdSource::new(), graph: Graph::new(), store: Vec::new() }
    }

    fn add(&mut self, kind: Kind, inputs: Vec<usize>) -> usize {
        let out = self.store.len();
        self.store.push(ArrayData::new(1, Rc::new(zero as fn(TxnId, NodeId) -> f32), &mut self.ids));
        let op = ScalarOp { id: NodeId::new(&mut self.ids), out: out, kind: kind };
        self.graph.add(op, inputs).unwrap()
    }

    fn set(&mut self, node: usize, txn: TxnId, value: f32) {
        let id = self.graph.op(node)._id();
        let out = self.graph.op(node).out;
        self.store[out].val.write(txn, id, |val| *val = value);
    }

    fn val(&mut self, node: usize, txn: TxnId) -> f32 {
        let probe = NodeId::new(&mut self.ids);
        let out = self.graph.op(node).out;
        *self.store[out].val.get(txn, probe)
    }

    fn grad(&mut self, node: usize, txn: TxnId) -> f32 {
        let probe = NodeId::new(&mut self.ids);
        let out = self.graph.op(node).out;
        *self.store[out].grad.get(txn, probe)
    }
}

#[test]
fn the_sum_of_a_node_with_itself_has_gradient_two() {
    let mut net = Net::new();
    let a = net.add(Kind::Source, vec![]);
    let y = net.add(Kind::Sum(0, 0), vec![a, a]);
    let txn = TxnId::new(&mut net.ids);
    net.set(a, txn, 3.0);
    assert_eq!(net.graph.gradient(y, txn, &mut net.ids, &mut net.store), Ok(()));
    assert_eq!(net.val(y, txn), 6.0);
    assert_eq!(net.grad(y, txn), 1.0);
    assert_eq!(net.grad(a, txn), 2.0);
}

#[test]
fn the_loss_has_adjoint_one() {
    let mut net = Net::new();
    let a = net.add(Kind::Source, vec![]);
    let y = net.add(Kind::Square(0), vec![a]);
    let txn = TxnId::new(&mut net.ids);
    net.set(a, txn, -4.0);
    assert_eq!(net.graph.gradient(y, txn, &mut net.ids, &mut net.store), Ok(()));
    assert_eq!(net.grad(y, txn), 1.0);
    assert_eq!(net.val(y, txn), 16.0);
    assert_eq!(net.grad(a, txn), -8.0);
}

/// (a + a)^2 + a^2, with a shared between three consumers.
fn shared() -> (Net, usize, usize) {
    let mut net = Net::new();
    let a = net.add(Kind::Source, vec![]);
    let twice = net.add(Kind::Sum(0, 0), vec![a, a]);
    let left = net.add(Kind::Square(1), vec![twice]);
    let right = net.add(Kind::Square(0), vec![a]);
    let loss = net.add(Kind::Sum(2, 3), vec![left, right]);
    (net, a, loss)
}

#[test]
fn the_gradient_of_a_shared_input_adds_up() {
    let (mut net, a, loss) = shared();
    let txn = TxnId::new(&mut net.ids);
    net.set(a, txn, 1.5);
    assert_eq!(net.graph.gradient(loss, txn, &mut net.ids, &mut net.store), Ok(()));
    assert_eq!(net.val(loss, txn), 11.25);
    assert_eq!(net.grad(a, txn), 15.0);
}

#[test]
fn the_gradient_matches_a_finite_difference() {
    let (mut net, a, loss) = shared();
    let x = 0.75f32;
    let h = 1.0e-2f32;
    let txn = TxnId::new(&mut net.ids);
    net.set(a, txn, x);
    assert_eq!(net.graph.gradient(loss, txn, &mut net.ids, &mut net.store), Ok(()));
    let analytic = net.grad(a, txn);
    let up = TxnId::new(&mut net.ids);
    net.set(a, up, x + h);
    net.graph.eval(loss, up, &mut net.ids, &mut net.store);
    let above = net.val(loss, up);
    let down = TxnId::new(&mut net.ids);
    net.set(a, down, x - h);
    net.graph.eval(loss, down, &mut net.ids, &mut net.store);
    let below = net.val(loss, down);
    let numeric = (above - below) / (2.0 * h);
    assert!((numeric - analytic).abs() <= 1.0e-3 * analytic.abs());
}

#[test]
fn values_are_computed_once_per_transaction() {
    let (mut net, a, loss) = shared();
    let txn = TxnId::new(&mut net.ids);
    net.set(a, txn, 2.0);
    net.graph.eval(loss, txn, &mut net.ids, &mut net.store);
    assert_eq!(net.val(loss, txn), 20.0);
    net.graph.eval(loss, txn, &mut net.ids, &mut net.store);
    assert_eq!(net.val(loss, txn), 20.0);
}

#[test]
fn rollover_carries_selected_values_into_the_next_transaction() {
    let (mut net, a, loss) = shared();
    let first = TxnId::new(&mut net.ids);
    net.set(a, first, 2.0);
    net.graph.eval(loss, first, &mut net.ids, &mut net.store);
    let second = TxnId::new(&mut net.ids);
    let source = net.graph.op(a).data(&net.store).val._ref();
    let mut keep = DataRefSet::empty().add(source);
    net.graph.rollover(loss, second, &mut keep, &mut net.ids, &mut net.store);
    assert_eq!(net.val(a, second), 2.0);
    let probe = NodeId::new(&mut net.ids);
    let out = net.graph.op(loss).out;
    assert!(!net.store[out].val.readable(second, probe));
    net.graph.eval(loss, second, &mut net.ids, &mut net.store);
    assert_eq!(net.val(loss, second), 20.0);
}
