use arraydiff::{ArrayData, DataKind, DataRefSet, IdKind, IdSource, NodeId, TxnId};
use std::rc::Rc;

fn zeros(_txn: TxnId, _node: NodeId) -> Vec<u8> {
    vec![0; 4]
}

type Data = ArrayData<Vec<u8>, fn(TxnId, NodeId) -> Vec<u8>>;

fn setup(horizon: usize) -> (IdSource, Data) {
    let mut ids = IdSource::new();
    let data = ArrayData::new(horizon, Rc::new(zeros as fn(TxnId, NodeId) -> Vec<u8>), &mut ids);
    (ids, data)
}

#[test]
fn new_array_data_has_four_parts_under_fresh_addresses() {
    let (ids, data) = setup(5);
    assert_eq!(data.horizon(), 5);
    assert_eq!(ids.issued(IdKind::Node), 4);
    let (val, grad, r_val, r_grad) = data.refs();
    assert!(val.kind == DataKind::Val);
    assert!(grad.kind == DataKind::Grad);
    assert!(r_val.kind == DataKind::RVal);
    assert!(r_grad.kind == DataKind::RGrad);
    assert_eq!(val.node_id.raw(), 1);
    assert_eq!(grad.node_id.raw(), 2);
    assert_eq!(r_val.node_id.raw(), 3);
    assert_eq!(r_grad.node_id.raw(), 4);
    assert!(val == data.val._ref());
    assert!(grad == data.grad._ref());
    assert!(r_val == data.r_val._ref());
    assert!(r_grad == data.r_grad._ref());
    assert_eq!(data.val.horizon(), 5);
    assert_eq!(data.r_grad.horizon(), 5);
}

#[test]
fn step_all_and_reset_all_move_the_four_clocks() {
    let (_ids, mut data) = setup(3);
    data.step_all();
    data.step_all();
    assert_eq!(data.val.clock(), 2);
    assert_eq!(data.grad.clock(), 2);
    assert_eq!(data.r_val.clock(), 2);
    assert_eq!(data.r_grad.clock(), 2);
    data.reset_all();
    assert_eq!(data.val.clock(), 0);
    assert_eq!(data.grad.clock(), 0);
    assert_eq!(data.r_val.clock(), 0);
    assert_eq!(data.r_grad.clock(), 0);
    assert_eq!(data.horizon(), 3);
}

#[test]
fn the_parts_share_the_allocator_and_nothing_else() {
    let (mut ids, mut data) = setup(1);
    let txn = TxnId::new(&mut ids);
    let node = NodeId::new(&mut ids);
    data.val.write(txn, node, |payload| payload[0] = 1);
    assert_eq!(*data.val.get(txn, node), vec![1, 0, 0, 0]);
    assert!(!data.grad.readable(txn, node));
    data.grad.write(txn, node, |_| {});
    assert_eq!(*data.grad.get(txn, node), vec![0, 0, 0, 0]);
}

#[test]
fn rollover_all_keeps_the_selected_parts() {
    let (mut ids, mut data) = setup(1);
    let first = TxnId::new(&mut ids);
    let second = TxnId::new(&mut ids);
    let node = NodeId::new(&mut ids);
    data.val.write(first, node, |payload| payload[0] = 1);
    data.grad.write(first, node, |payload| payload[0] = 2);
    data.r_val.write(first, node, |payload| payload[0] = 3);
    data.r_grad.write(first, node, |payload| payload[0] = 4);
    let mut kept = DataRefSet::empty().add(data.val._ref()).add(data.r_grad._ref());
    data.rollover_all(second, &mut kept);
    assert!(data.val.readable(second, node));
    assert!(!data.grad.readable(second, node));
    assert!(!data.r_val.readable(second, node));
    assert!(data.r_grad.readable(second, node));
    assert_eq!(data.val.get(second, node)[0], 1);
    assert_eq!(data.r_grad.get(second, node)[0], 4);
    assert!(kept.contains(&data.val._ref()));
    assert!(!kept.contains(&data.grad._ref()));
}
