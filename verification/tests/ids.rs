use arraydiff::{Epoch, EpochNr, IdKind, IdSource, NodeId, TxnId};

#[test]
fn allocators_start_at_one_and_count_up() {
    let mut ids = IdSource::new();
    assert_eq!(NodeId::new(&mut ids).raw(), 1);
    assert_eq!(NodeId::new(&mut ids).raw(), 2);
    assert_eq!(NodeId::new(&mut ids).raw(), 3);
    assert_eq!(TxnId::new(&mut ids).raw(), 1);
    assert_eq!(EpochNr::new(&mut ids).raw(), 1);
    assert_eq!(TxnId::new(&mut ids).raw(), 2);
}

#[test]
fn interleaved_allocation_never_repeats_and_never_gives_zero() {
    let mut ids = IdSource::new();
    let mut nodes = Vec::new();
    let mut txns = Vec::new();
    let mut epochs = Vec::new();
    for round in 0..300u32 {
        match round % 5 {
            0 | 3 => nodes.push(NodeId::new(&mut ids).raw()),
            1 => txns.push(TxnId::new(&mut ids).raw()),
            _ => epochs.push(EpochNr::new(&mut ids).raw()),
        }
    }
    for issued in [&nodes, &txns, &epochs] {
        for i in 0..issued.len() {
            assert_ne!(issued[i], 0);
            for j in 0..i {
                assert_ne!(issued[i], issued[j]);
            }
        }
    }
    assert_eq!(nodes.len(), 120);
    assert_eq!(txns.len(), 60);
    assert_eq!(epochs.len(), 120);
    assert_eq!(nodes[119], 120);
    assert_eq!(txns[59], 60);
    assert_eq!(epochs[119], 120);
}

#[test]
fn each_counter_moves_alone() {
    let mut ids = IdSource::new();
    assert_eq!(ids.issued(IdKind::Node), 0);
    assert_eq!(ids.issued(IdKind::Txn), 0);
    assert_eq!(ids.issued(IdKind::Epoch), 0);
    NodeId::new(&mut ids);
    NodeId::new(&mut ids);
    assert_eq!(ids.issued(IdKind::Node), 2);
    assert_eq!(ids.issued(IdKind::Txn), 0);
    assert_eq!(ids.issued(IdKind::Epoch), 0);
    TxnId::new(&mut ids);
    assert_eq!(ids.issued(IdKind::Node), 2);
    assert_eq!(ids.issued(IdKind::Txn), 1);
    assert_eq!(ids.issued(IdKind::Epoch), 0);
    assert!(ids.has_next(IdKind::Node));
    assert!(ids.has_next(IdKind::Txn));
    assert!(ids.has_next(IdKind::Epoch));
}

#[test]
fn identifiers_compare_by_number() {
    let mut ids = IdSource::new();
    let a = NodeId::new(&mut ids);
    let b = NodeId::new(&mut ids);
    let copy = a;
    assert_eq!(a, copy);
    assert_ne!(a, b);
    let s = TxnId::new(&mut ids);
    let t = TxnId::new(&mut ids);
    assert_ne!(s, t);
}

#[test]
fn an_epoch_has_its_root_and_a_fresh_number() {
    let mut ids = IdSource::new();
    let root = NodeId::new(&mut ids);
    let first = Epoch::new(root, &mut ids);
    let second = Epoch::new(root, &mut ids);
    assert_eq!(first.root, root);
    assert_eq!(second.root, root);
    assert_eq!(first.epoch_nr.raw(), 1);
    assert_eq!(second.epoch_nr.raw(), 2);
    assert_ne!(first, second);
    assert_eq!(ids.issued(IdKind::Epoch), 2);
    assert_eq!(ids.issued(IdKind::Node), 1);
}
