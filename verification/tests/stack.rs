use arraydiff::{Epoch, IdSource, NodeId, OperatorStack};

fn setup() -> (IdSource, NodeId, OperatorStack) {
    let mut ids = IdSource::new();
    let node = NodeId::new(&mut ids);
    let stack = OperatorStack::new(node, 2);
    (ids, node, stack)
}

#[test]
fn a_new_stack_has_no_level() {
    let (mut ids, node, stack) = setup();
    let epoch = Epoch::new(node, &mut ids);
    assert!(!stack.on_top(epoch));
    assert!(stack.can_push(epoch));
}

#[test]
fn pushes_count_up_from_one() {
    let (mut ids, node, mut stack) = setup();
    let epoch = Epoch::new(node, &mut ids);
    assert_eq!(stack.push(epoch), 1);
    assert!(stack.on_top(epoch));
    assert_eq!(stack.degree(epoch), 1);
    assert_eq!(stack.push(epoch), 2);
    assert_eq!(stack.push(epoch), 3);
    assert_eq!(stack.degree(epoch), 3);
}

#[test]
fn pops_count_up_and_the_last_removes_the_level() {
    let (mut ids, node, mut stack) = setup();
    let epoch = Epoch::new(node, &mut ids);
    stack.push(epoch);
    stack.push(epoch);
    stack.push(epoch);
    assert_eq!(stack.pop(epoch), 1);
    assert!(stack.on_top(epoch));
    assert_eq!(stack.degree(epoch), 3);
    assert_eq!(stack.pop(epoch), 2);
    assert!(stack.on_top(epoch));
    assert_eq!(stack.pop(epoch), 3);
    assert!(!stack.on_top(epoch));
}

#[test]
fn hooks_fire_once_for_every_fan_in() {
    for fan_in in 1..=64usize {
        let (mut ids, node, mut stack) = setup();
        let epoch = Epoch::new(node, &mut ids);
        let mut entered = 0;
        for _ in 0..fan_in {
            if stack.push(epoch) == 1 {
                entered += 1;
            }
        }
        assert_eq!(entered, 1);
        let mut left = 0;
        for _ in 0..fan_in {
            assert!(stack.on_top(epoch));
            if stack.degree(epoch) == stack.pop(epoch) {
                left += 1;
            }
        }
        assert_eq!(left, 1);
        assert!(!stack.on_top(epoch));
    }
}

#[test]
fn hooks_fire_once_for_a_large_fan_in() {
    let (mut ids, node, mut stack) = setup();
    let epoch = Epoch::new(node, &mut ids);
    let fan_in = 100_000usize;
    let mut entered = 0;
    for _ in 0..fan_in {
        if stack.push(epoch) == 1 {
            entered += 1;
        }
    }
    let mut left = 0;
    for _ in 0..fan_in {
        if stack.degree(epoch) == stack.pop(epoch) {
            left += 1;
        }
    }
    assert_eq!((entered, left), (1, 1));
    assert!(!stack.on_top(epoch));
}

#[test]
fn a_second_epoch_gets_a_level_of_its_own() {
    let (mut ids, node, mut stack) = setup();
    let outer = Epoch::new(node, &mut ids);
    let inner = Epoch::new(node, &mut ids);
    assert_eq!(stack.push(outer), 1);
    assert_eq!(stack.push(outer), 2);
    assert_eq!(stack.push(inner), 1);
    assert!(stack.on_top(inner));
    assert!(!stack.on_top(outer));
    assert_eq!(stack.degree(inner), 1);
    assert_eq!(stack.pop(inner), 1);
    assert!(stack.on_top(outer));
    assert_eq!(stack.degree(outer), 2);
    assert_eq!(stack.pop(outer), 1);
    assert_eq!(stack.pop(outer), 2);
    assert!(!stack.on_top(outer));
}

#[test]
fn the_same_epoch_can_pass_again_after_it_left() {
    let (mut ids, node, mut stack) = setup();
    let epoch = Epoch::new(node, &mut ids);
    assert_eq!(stack.push(epoch), 1);
    assert_eq!(stack.pop(epoch), 1);
    assert_eq!(stack.push(epoch), 1);
    assert_eq!(stack.push(epoch), 2);
    assert_eq!(stack.pop(epoch), 1);
    assert_eq!(stack.pop(epoch), 2);
    assert!(!stack.on_top(epoch));
}
