use arraydiff::{DataKind, DataRefSet, IdSource, NodeId, TxnData, TxnDataBuf, TxnId};
use std::cell::Cell;
use std::rc::Rc;

fn seven(_txn: TxnId, _node: NodeId) -> i64 {
    7
}

type Data = TxnData<i64, fn(TxnId, NodeId) -> i64>;

fn setup(horizon: usize) -> (IdSource, Data) {
    let mut ids = IdSource::new();
    let data = TxnData::new(DataKind::Val, horizon, Rc::new(seven as fn(TxnId, NodeId) -> i64), &mut ids);
    (ids, data)
}

#[test]
fn new_data_is_untouched() {
    let (mut ids, data) = setup(3);
    let txn = TxnId::new(&mut ids);
    let node = NodeId::new(&mut ids);
    assert_eq!(data.clock(), 0);
    assert_eq!(data.horizon(), 3);
    assert!(data._ref().kind == DataKind::Val);
    assert_eq!(data._ref().node_id.raw(), 1);
    assert!(!data.readable(txn, node));
    assert!(!data.writable(txn, node));
}

#[test]
fn a_slot_can_be_made_on_its_own() {
    let _slot: TxnDataBuf<i64> = TxnDataBuf::new(4);
}

#[test]
fn the_first_write_allocates_and_initializes() {
    let (mut ids, mut data) = setup(1);
    let txn = TxnId::new(&mut ids);
    let node = NodeId::new(&mut ids);
    let seen = Cell::new(0i64);
    assert!(data.write(txn, node, |payload| {
        seen.set(*payload);
        *payload = *payload + 1;
    }));
    assert_eq!(seen.get(), 7);
    assert_eq!(*data.get(txn, node), 8);
}

#[test]
fn init_runs_once_however_many_nodes_write() {
    let (mut ids, mut data) = setup(1);
    let txn = TxnId::new(&mut ids);
    let nodes = [NodeId::new(&mut ids), NodeId::new(&mut ids), NodeId::new(&mut ids)];
    let calls = Cell::new(0u32);
    for node in nodes {
        assert!(data.write(txn, node, |payload| {
            calls.set(calls.get() + 1);
            *payload = 0;
        }));
    }
    for node in nodes {
        assert!(data.write(txn, node, |_| calls.set(calls.get() + 1)));
    }
    assert_eq!(calls.get(), 1);
}

#[test]
fn a_write_is_complete_once_the_node_has_written() {
    let (mut ids, mut data) = setup(1);
    let txn = TxnId::new(&mut ids);
    let node = NodeId::new(&mut ids);
    let other = NodeId::new(&mut ids);
    assert!(data.write(txn, node, |payload| *payload = 0));
    assert!(data.writable(txn, node));
    *data.get_mut(txn, node) = 42;
    assert!(!data.write(txn, node, |payload| *payload = 0));
    assert!(data.write(txn, other, |payload| *payload = 0));
    assert_eq!(*data.get(txn, other), 42);
}

#[test]
fn gradients_accumulate_after_one_zeroing() {
    let (mut ids, mut data) = setup(1);
    let txn = TxnId::new(&mut ids);
    let reader = NodeId::new(&mut ids);
    let writers = [NodeId::new(&mut ids), NodeId::new(&mut ids), NodeId::new(&mut ids)];
    for (step, node) in writers.iter().enumerate() {
        data.write(txn, *node, |payload| *payload = 0);
        *data.get_mut(txn, *node) += 10 * (step as i64 + 1);
    }
    assert_eq!(*data.get(txn, reader), 60);
}

#[test]
fn get_returns_what_was_written_without_a_new_init() {
    let (mut ids, mut data) = setup(1);
    let txn = TxnId::new(&mut ids);
    let writer = NodeId::new(&mut ids);
    let reader = NodeId::new(&mut ids);
    let calls = Cell::new(0u32);
    data.write(txn, writer, |payload| {
        calls.set(calls.get() + 1);
        *payload = 5;
    });
    assert!(data.readable(txn, reader));
    assert_eq!(*data.get(txn, reader), 5);
    assert_eq!(*data.get(txn, reader), 5);
    assert!(data.write(txn, writer, |_| calls.set(calls.get() + 1)));
    assert_eq!(calls.get(), 1);
    assert_eq!(*data.get(txn, reader), 5);
}

#[test]
fn a_writer_may_not_read() {
    let (mut ids, mut data) = setup(1);
    let txn = TxnId::new(&mut ids);
    let writer = NodeId::new(&mut ids);
    let other = NodeId::new(&mut ids);
    data.write(txn, writer, |payload| *payload = 0);
    assert!(data.readable(txn, writer));
    *data.get_mut(txn, writer) = 1;
    assert!(!data.readable(txn, writer));
    assert!(data.readable(txn, other));
}

#[test]
fn a_reader_may_not_write() {
    let (mut ids, mut data) = setup(1);
    let txn = TxnId::new(&mut ids);
    let reader = NodeId::new(&mut ids);
    let other = NodeId::new(&mut ids);
    data.write(txn, reader, |payload| *payload = 0);
    assert!(data.writable(txn, reader));
    data.get(txn, reader);
    assert!(!data.writable(txn, reader));
    assert!(data.writable(txn, other));
    *data.get_mut(txn, other) = 3;
    assert_eq!(*data.get(txn, reader), 3);
}

#[test]
fn another_transaction_may_not_read_before_it_writes() {
    let (mut ids, mut data) = setup(1);
    let first = TxnId::new(&mut ids);
    let second = TxnId::new(&mut ids);
    let node = NodeId::new(&mut ids);
    data.write(first, node, |payload| *payload = 1);
    assert!(data.readable(first, node));
    assert!(!data.readable(second, node));
    assert!(data.write(second, node, |payload| *payload = 2));
    assert!(!data.readable(first, node));
    assert_eq!(*data.get(second, node), 2);
}

#[test]
fn a_new_transaction_keeps_the_payload_and_forgets_readers_and_writers() {
    let (mut ids, mut data) = setup(1);
    let first = TxnId::new(&mut ids);
    let second = TxnId::new(&mut ids);
    let node = NodeId::new(&mut ids);
    data.write(first, node, |payload| *payload = 1);
    data.get(first, node);
    assert!(!data.writable(first, node));
    assert!(data.writable(second, node));
    let payload = data.get_mut(second, node);
    assert_eq!(*payload, 1);
    *payload = 9;
    assert!(!data.readable(second, node));
    let seen = Cell::new(0i64);
    let third = TxnId::new(&mut ids);
    assert!(data.write(third, node, |payload| seen.set(*payload)));
    assert_eq!(seen.get(), 9);
}

#[test]
fn rollover_of_a_selected_slot_keeps_it_readable() {
    let (mut ids, mut data) = setup(1);
    let first = TxnId::new(&mut ids);
    let second = TxnId::new(&mut ids);
    let node = NodeId::new(&mut ids);
    data.write(first, node, |payload| *payload = 0);
    *data.get_mut(first, node) = 11;
    let mut selected = DataRefSet::empty().add(data._ref());
    data.rollover(second, &mut selected);
    assert!(selected.contains(&data._ref()));
    assert!(data.readable(second, node));
    assert_eq!(*data.get(second, node), 11);
    assert!(data.write(second, node, |payload| *payload = 0));
    assert_eq!(*data.get(second, node), 11);
}

#[test]
fn rollover_of_an_unselected_slot_clears_ownership() {
    let (mut ids, mut data) = setup(1);
    let first = TxnId::new(&mut ids);
    let second = TxnId::new(&mut ids);
    let node = NodeId::new(&mut ids);
    data.write(first, node, |payload| *payload = 11);
    let mut nothing = DataRefSet::empty();
    data.rollover(second, &mut nothing);
    assert!(!data.readable(second, node));
    assert!(!data.readable(first, node));
    let seen = Cell::new(0i64);
    assert!(data.write(second, node, |payload| {
        seen.set(*payload);
        *payload = 12;
    }));
    assert_eq!(seen.get(), 11);
    assert_eq!(*data.get(second, node), 12);
}

#[test]
fn rollover_lets_a_former_writer_read() {
    let (mut ids, mut data) = setup(1);
    let first = TxnId::new(&mut ids);
    let second = TxnId::new(&mut ids);
    let node = NodeId::new(&mut ids);
    data.write(first, node, |payload| *payload = 0);
    *data.get_mut(first, node) = 4;
    assert!(!data.readable(first, node));
    let mut selected = DataRefSet::empty().add(data._ref());
    data.rollover(second, &mut selected);
    assert_eq!(*data.get(second, node), 4);
}

#[test]
fn get_prev_is_none_at_clock_zero() {
    let (mut ids, mut data) = setup(3);
    let txn = TxnId::new(&mut ids);
    let node = NodeId::new(&mut ids);
    assert!(data.readable_prev(txn, node));
    assert!(data.get_prev(txn, node).is_none());
    data.write(txn, node, |payload| *payload = 1);
    assert!(data.get_prev(txn, node).is_none());
}

#[test]
fn get_prev_reads_the_slot_one_step_back() {
    let (mut ids, mut data) = setup(3);
    let txn = TxnId::new(&mut ids);
    let node = NodeId::new(&mut ids);
    data.write(txn, node, |payload| *payload = 100);
    data.step_clock();
    assert_eq!(data.clock(), 1);
    assert!(!data.readable(txn, node));
    data.write(txn, node, |payload| *payload = 101);
    assert!(data.readable_prev(txn, node));
    assert_eq!(data.get_prev(txn, node).copied(), Some(100));
    assert_eq!(*data.get(txn, node), 101);
    data.step_clock();
    data.write(txn, node, |payload| *payload = 102);
    assert_eq!(data.get_prev(txn, node).copied(), Some(101));
    data.step_clock();
    assert_eq!(data.clock(), 3);
    assert!(!data.readable(txn, node));
    assert_eq!(data.get_prev(txn, node).copied(), Some(102));
}

#[test]
fn get_prev_needs_the_earlier_slot_to_be_readable() {
    let (mut ids, mut data) = setup(2);
    let txn = TxnId::new(&mut ids);
    let node = NodeId::new(&mut ids);
    data.step_clock();
    assert!(!data.readable_prev(txn, node));
    data.reset_clock();
    data.write(txn, node, |payload| *payload = 0);
    *data.get_mut(txn, node) = 1;
    data.step_clock();
    assert!(!data.readable_prev(txn, node));
    let other = NodeId::new(&mut ids);
    assert!(data.readable_prev(txn, other));
}

#[test]
fn the_slots_of_the_horizon_are_independent() {
    let (mut ids, mut data) = setup(2);
    let txn = TxnId::new(&mut ids);
    let node = NodeId::new(&mut ids);
    data.write(txn, node, |payload| *payload = 1);
    data.step_clock();
    let calls = Cell::new(0u32);
    assert!(data.write(txn, node, |payload| {
        calls.set(calls.get() + 1);
        *payload = 2;
    }));
    assert_eq!(calls.get(), 1);
    data.reset_clock();
    assert_eq!(data.clock(), 0);
    assert_eq!(*data.get(txn, node), 1);
}

#[test]
fn hard_reset_drops_the_slots() {
    let (mut ids, mut data) = setup(2);
    let txn = TxnId::new(&mut ids);
    let node = NodeId::new(&mut ids);
    data.write(txn, node, |payload| *payload = 1);
    data.step_clock();
    data.hard_reset();
    assert_eq!(data.clock(), 0);
    assert_eq!(data.horizon(), 0);
    assert!(!data.readable(txn, node));
    assert!(!data.writable(txn, node));
    assert!(data.readable_prev(txn, node));
    assert!(data.get_prev(txn, node).is_none());
}

#[test]
fn the_allocator_gets_the_transaction_and_the_node() {
    let mut ids = IdSource::new();
    let alloc = Rc::new(|txn: TxnId, node: NodeId| (txn.raw(), node.raw()));
    let mut data = TxnData::new(DataKind::Grad, 1, alloc, &mut ids);
    let _spare = TxnId::new(&mut ids);
    let txn = TxnId::new(&mut ids);
    let node = NodeId::new(&mut ids);
    data.write(txn, node, |_| {});
    assert_eq!(*data.get(txn, node), (2, 2));
}
