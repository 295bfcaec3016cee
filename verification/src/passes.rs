//! The passes over the graph: evaluation, gradients, curvature-vector
//! products, and the housekeeping between transactions.
//!
//! Every pass takes one fresh epoch, finds the order in which the nodes
//! that the root reaches fire, and runs one hook at each of them in that
//! order. A forward pass runs a node's hook after those of its inputs, a
//! reverse pass before them. A pass whose hook can fail stops at the first
//! hook that does, and returns what that hook returned.
//!
//! The contracts say which calls of the hooks a pass makes, and that each
//! call finds the state as the call before left it. Where a pass has
//! completed they say it over the relations that the operators state of
//! their hooks; where it has failed, and for the hooks of housekeeping,
//! over what the calls themselves ensure.

use vstd::prelude::*;
use crate::graph::Graph;
use crate::ids::{Epoch, IdKind, IdSource, TxnId};
use crate::operator::{DiffOperator, DiffScalarLoss, NotImplemented, Pass, Transfer};
use crate::order::{
    forward_order, lemma_forward_order_fires_once, lemma_order_ends_at_root, lemma_reverse_order_covers,
    reverse_order,
};
use crate::refs::{DataRefSet, RefSetView};

verus! {

/// Whether `trace` lists the states that a run of hooks over the nodes of
/// `order` goes through, where `step` says what the hook at a node may do:
/// the state before the first hook, and then the state after each hook.
pub open spec fn chain<T>(order: Seq<usize>, step: spec_fn(usize, T, T) -> bool, trace: Seq<T>) -> bool {
    &&& trace.len() == order.len() + 1
    &&& forall|i: int| 0 <= i < order.len() ==> step(#[trigger] order[i], trace[i], trace[i + 1])
}

/// Whether running one hook at each node of `order`, in that order, can
/// take the state from `pre` to `post`.
pub open spec fn leads<T>(order: Seq<usize>, step: spec_fn(usize, T, T) -> bool, pre: T, post: T) -> bool {
    exists|trace: Seq<T>| (#[trigger] chain(order, step, trace)) && trace.first() == pre && trace.last() == post
}

/// A run that is followed by one more hook is a run over the longer order.
pub proof fn lemma_chain_push<T>(order: Seq<usize>, step: spec_fn(usize, T, T) -> bool, trace: Seq<T>, v: usize, next: T)
    requires
        chain(order, step, trace),
        step(v, trace.last(), next),
    ensures
        chain(order.push(v), step, trace.push(next)),
        trace.push(next).first() == trace.first(),
        trace.push(next).last() == next,
{
    let longer = order.push(v);
    let traced = trace.push(next);
    assert forall|i: int| 0 <= i < longer.len() implies step(#[trigger] longer[i], traced[i], traced[i + 1]) by {
        if i < order.len() {
            assert(longer[i] == order[i]);
        }
    }
}

/// Whether the hook of `pass` of the operator `op` can take the store from
/// `pre` to `post`: the hook, called with the store `pre`, may complete,
/// and what the operator states of the hook holds of the two stores.
pub open spec fn completes<Op: DiffOperator>(op: Op, pass: Pass, txn: TxnId, pre: Op::Store, post: Op::Store) -> bool {
    &&& op.pass_spec(pass, txn, pre, post)
    &&& exists|at: &mut Op::Store, done: Result<(), NotImplemented>|
        *at == pre && done is Ok && #[trigger] hook_result(&op, pass, txn, at, done)
}

/// What the hook of `pass` may do at each node when it completes.
pub open spec fn pass_step<Op: DiffOperator>(ops: Seq<Op>, pass: Pass, txn: TxnId) -> spec_fn(
    usize,
    Op::Store,
    Op::Store,
) -> bool {
    |v: usize, pre: Op::Store, post: Op::Store| completes(ops[v as int], pass, txn, pre, post)
}

/// What the rollover hook may do at each node.
pub open spec fn rollover_step<Op: DiffOperator>(ops: Seq<Op>, txn: TxnId) -> spec_fn(
    usize,
    (RefSetView, Op::Store),
    (RefSetView, Op::Store),
) -> bool {
    |v: usize, pre: (RefSetView, Op::Store), post: (RefSetView, Op::Store)| ops[v as int].rollover_spec(txn, pre, post)
}

/// Whether the hook of the transfer `which` of the operator `op` may return
/// from a call that takes the selection, the payload and the store by the
/// references given: the call finds each as its reference holds it, and
/// leaves it as the reference holds it in the end.
pub open spec fn transfer_call<Op: DiffOperator>(
    op: &Op,
    which: Transfer,
    txn: TxnId,
    refs: &mut DataRefSet,
    payload: &mut Op::Payload,
    store: &mut Op::Store,
) -> bool {
    match which {
        Transfer::Load => call_ensures(Op::_load, (op, txn, refs, payload, store), ()),
        Transfer::LoadRVal => call_ensures(Op::_load_r_val, (op, txn, refs, payload, store), ()),
        Transfer::Store => call_ensures(Op::_store, (op, txn, refs, payload, store), ()),
        Transfer::StoreGrad => call_ensures(Op::_store_grad, (op, txn, refs, payload, store), ()),
        Transfer::StoreRGrad => call_ensures(Op::_store_r_grad, (op, txn, refs, payload, store), ()),
    }
}

/// Whether `ats` are the selections, payloads and stores that the hooks of
/// the transfer `which` of the nodes of `order` are called with, one call
/// at each node and in that order.
pub open spec fn transfer_calls<Op: DiffOperator>(
    ops: Seq<Op>,
    order: Seq<usize>,
    which: Transfer,
    txn: TxnId,
    ats: Seq<(&mut DataRefSet, &mut Op::Payload, &mut Op::Store)>,
) -> bool {
    &&& ats.len() == order.len()
    &&& forall|i: int|
        0 <= i < ats.len() ==> transfer_call(
            &ops[order[i] as int],
            which,
            txn,
            (#[trigger] ats[i]).0,
            ats[i].1,
            ats[i].2,
        )
}

/// The sum of `sizes`.
pub open spec fn total(sizes: Seq<usize>) -> nat
    decreases sizes.len(),
{
    if sizes.len() == 0 {
        0
    } else {
        total(sizes.drop_last()) + sizes.last() as nat
    }
}

/// Whether `refs` are the selections that the size hooks of the nodes of
/// `order` are called with, and `sizes` what they return, one call at each
/// node and in that order.
pub open spec fn size_calls<Op: DiffOperator>(
    ops: Seq<Op>,
    order: Seq<usize>,
    store: Op::Store,
    refs: Seq<&mut DataRefSet>,
    sizes: Seq<usize>,
) -> bool {
    &&& refs.len() == order.len()
    &&& sizes.len() == order.len()
    &&& forall|i: int|
        0 <= i < refs.len() ==> call_ensures(Op::_data_sz, (&ops[order[i] as int], #[trigger] refs[i], &store), sizes[i])
}

/// Whether `ats` are the stores that the initialization hooks of the nodes
/// of `order` are called with, one call at each node and in that order.
pub open spec fn init_calls<Op: DiffOperator>(
    ops: Seq<Op>,
    order: Seq<usize>,
    txn: TxnId,
    ats: Seq<&mut Op::Store>,
) -> bool {
    &&& ats.len() == order.len()
    &&& forall|i: int|
        0 <= i < ats.len() ==> call_ensures(Op::_init, (&ops[order[i] as int], txn, #[trigger] ats[i]), ())
}

/// Whether running the hook of `pass` once at each node of `order`, in that
/// order, can take the store from `pre` to `post`.
pub open spec fn fires<Op: DiffOperator>(
    ops: Seq<Op>,
    order: Seq<usize>,
    pass: Pass,
    txn: TxnId,
    pre: Op::Store,
    post: Op::Store,
) -> bool {
    leads(order, pass_step(ops, pass, txn), pre, post)
}

/// Whether a rollover from `root` can take the selection and the store
/// from `pre` to `post`: the mask is cleared, the rollover hook runs once
/// at each node that `root` reaches, in reverse order, and the mask is
/// cleared again.
pub open spec fn rolls_over<Op: DiffOperator>(
    ops: Seq<Op>,
    edges: Seq<Seq<usize>>,
    root: int,
    txn: TxnId,
    pre: (RefSetView, Op::Store),
    post: (RefSetView, Op::Store),
) -> bool {
    exists|refs: RefSetView|
        (#[trigger] leads(
            reverse_order(edges, root),
            rollover_step(ops, txn),
            (pre.0.unmask_all(), pre.1),
            (refs, post.1),
        )) && post.0 == refs.unmask_all()
}

/// Whether `done` is what the hook of `pass` of the operator `op` may
/// return from a call that takes the store by the reference `at`: the call
/// finds the store as `at` holds it, and leaves it as `at` holds it in the
/// end. The forward hook returns nothing, which counts as `Ok`.
pub open spec fn hook_result<Op: DiffOperator>(
    op: &Op,
    pass: Pass,
    txn: TxnId,
    at: &mut Op::Store,
    done: Result<(), NotImplemented>,
) -> bool {
    match pass {
        Pass::Forward => done is Ok && call_ensures(Op::_forward, (op, txn, at), ()),
        Pass::Backward { gauss_newton } => call_ensures(Op::_backward, (op, txn, gauss_newton, at), done),
        Pass::RForward { gauss_newton } => call_ensures(Op::_r_forward, (op, txn, gauss_newton, at), done),
        Pass::RBackward => call_ensures(Op::_r_backward, (op, txn, at), done),
        Pass::Clock => call_ensures(Op::_clock, (op, txn, at), done),
    }
}

/// Whether a pass of the hook of `pass` over `order`, begun with the store
/// `pre`, stops at the position `stop` with `done`: the hooks before `stop`
/// have run, and the hook at `stop`, called with the store by the
/// reference `at`, returns `done`.
pub open spec fn stops<Op: DiffOperator>(
    ops: Seq<Op>,
    order: Seq<usize>,
    pass: Pass,
    txn: TxnId,
    pre: Op::Store,
    stop: int,
    at: &mut Op::Store,
    done: Result<(), NotImplemented>,
) -> bool {
    &&& 0 <= stop < order.len()
    &&& fires(ops, order.take(stop), pass, txn, pre, *at)
    &&& hook_result(&ops[order[stop] as int], pass, txn, at, done)
}

/// Whether a gradient pass from the loss `root`, begun with the store
/// `pre`, stops with `done` in its reverse pass, at the position `stop` of
/// the reverse order, where the backward hook is called with the store by
/// the reference `at`.
pub open spec fn gradient_stops<Op: DiffScalarLoss>(
    ops: Seq<Op>,
    edges: Seq<Seq<usize>>,
    root: int,
    txn: TxnId,
    pre: Op::Store,
    stop: int,
    at: &mut Op::Store,
    done: Result<(), NotImplemented>,
) -> bool {
    exists|valued: Op::Store, seeded: Op::Store|
        {
            &&& fires(ops, forward_order(edges, root), Pass::Forward, txn, pre, valued)
            &&& #[trigger] ops[root].set_source_spec(txn, valued, seeded)
            &&& stops(
                ops,
                reverse_order(edges, root),
                Pass::Backward { gauss_newton: false },
                txn,
                seeded,
                stop,
                at,
                done,
            )
        }
}

/// Whether a Gauss-Newton vector product from the loss `root`, begun with
/// the store `pre`, stops with `done` at the position `stop` of one of its
/// two passes that can fail, where the hook is called with the store by the
/// reference `at`: in the forward pass of the tangent hook, or in the
/// reverse pass of the backward hook.
pub open spec fn gauss_newton_stops<Op: DiffScalarLoss>(
    ops: Seq<Op>,
    edges: Seq<Seq<usize>>,
    root: int,
    txn: TxnId,
    pre: Op::Store,
    stop: int,
    at: &mut Op::Store,
    done: Result<(), NotImplemented>,
) -> bool {
    ||| exists|valued: Op::Store|
        {
            &&& #[trigger] fires(ops, forward_order(edges, root), Pass::Forward, txn, pre, valued)
            &&& stops(
                ops,
                forward_order(edges, root),
                Pass::RForward { gauss_newton: true },
                txn,
                valued,
                stop,
                at,
                done,
            )
        }
    ||| exists|valued: Op::Store, tangent: Op::Store, seeded: Op::Store|
        #![trigger
            fires(ops, forward_order(edges, root), Pass::RForward { gauss_newton: true }, txn, valued, tangent),
            ops[root].set_source_spec(txn, tangent, seeded)
        ]
        {
            &&& fires(ops, forward_order(edges, root), Pass::Forward, txn, pre, valued)
            &&& fires(ops, forward_order(edges, root), Pass::RForward { gauss_newton: true }, txn, valued, tangent)
            &&& ops[root].set_source_spec(txn, tangent, seeded)
            &&& stops(
                ops,
                reverse_order(edges, root),
                Pass::Backward { gauss_newton: true },
                txn,
                seeded,
                stop,
                at,
                done,
            )
        }
}

/// Whether a Hessian vector product from the loss `root`, begun with the
/// store `pre`, stops with `done` at the position `stop` of one of its
/// three passes that can fail, where the hook is called with the store by
/// the reference `at`: in the forward pass of the tangent hook, in the
/// reverse pass of the backward hook, or in the reverse pass of the
/// tangent backward hook.
pub open spec fn hessian_stops<Op: DiffScalarLoss>(
    ops: Seq<Op>,
    edges: Seq<Seq<usize>>,
    root: int,
    txn: TxnId,
    pre: Op::Store,
    stop: int,
    at: &mut Op::Store,
    done: Result<(), NotImplemented>,
) -> bool {
    ||| exists|valued: Op::Store|
        {
            &&& #[trigger] fires(ops, forward_order(edges, root), Pass::Forward, txn, pre, valued)
            &&& stops(
                ops,
                forward_order(edges, root),
                Pass::RForward { gauss_newton: false },
                txn,
                valued,
                stop,
                at,
                done,
            )
        }
    ||| exists|valued: Op::Store, tangent: Op::Store, seeded: Op::Store|
        #![trigger
            fires(ops, forward_order(edges, root), Pass::RForward { gauss_newton: false }, txn, valued, tangent),
            ops[root].set_source_spec(txn, tangent, seeded)
        ]
        {
            &&& fires(ops, forward_order(edges, root), Pass::Forward, txn, pre, valued)
            &&& fires(ops, forward_order(edges, root), Pass::RForward { gauss_newton: false }, txn, valued, tangent)
            &&& ops[root].set_source_spec(txn, tangent, seeded)
            &&& stops(
                ops,
                reverse_order(edges, root),
                Pass::Backward { gauss_newton: false },
                txn,
                seeded,
                stop,
                at,
                done,
            )
        }
    ||| exists|valued: Op::Store, tangent: Op::Store, seeded: Op::Store, adjoint: Op::Store|
        #![trigger
            fires(ops, forward_order(edges, root), Pass::RForward { gauss_newton: false }, txn, valued, tangent),
            fires(ops, reverse_order(edges, root), Pass::Backward { gauss_newton: false }, txn, seeded, adjoint)
        ]
        {
            &&& fires(ops, forward_order(edges, root), Pass::Forward, txn, pre, valued)
            &&& fires(ops, forward_order(edges, root), Pass::RForward { gauss_newton: false }, txn, valued, tangent)
            &&& ops[root].set_source_spec(txn, tangent, seeded)
            &&& fires(ops, reverse_order(edges, root), Pass::Backward { gauss_newton: false }, txn, seeded, adjoint)
            &&& stops(ops, reverse_order(edges, root), Pass::RBackward, txn, adjoint, stop, at, done)
        }
}

/// Whether a gradient pass from the loss `root` can take the store from
/// `pre` to `post`: a forward pass of the forward hook, then the loss sets
/// its source, then a reverse pass of the backward hook.
pub open spec fn gradient_spec<Op: DiffScalarLoss>(
    ops: Seq<Op>,
    edges: Seq<Seq<usize>>,
    root: int,
    txn: TxnId,
    pre: Op::Store,
    post: Op::Store,
) -> bool {
    exists|valued: Op::Store, seeded: Op::Store|
        {
            &&& fires(ops, forward_order(edges, root), Pass::Forward, txn, pre, valued)
            &&& #[trigger] ops[root].set_source_spec(txn, valued, seeded)
            &&& fires(ops, reverse_order(edges, root), Pass::Backward { gauss_newton: false }, txn, seeded, post)
        }
}

/// Whether a Gauss-Newton vector product from the loss `root` can take the
/// store from `pre` to `post`: a forward pass of the forward hook, a
/// forward pass of the tangent hook, then the loss sets its source, then a
/// reverse pass of the backward hook, the two hooks in Gauss-Newton mode.
pub open spec fn gauss_newton_spec<Op: DiffScalarLoss>(
    ops: Seq<Op>,
    edges: Seq<Seq<usize>>,
    root: int,
    txn: TxnId,
    pre: Op::Store,
    post: Op::Store,
) -> bool {
    exists|valued: Op::Store, tangent: Op::Store, seeded: Op::Store|
        #![trigger
            fires(ops, forward_order(edges, root), Pass::RForward { gauss_newton: true }, txn, valued, tangent),
            ops[root].set_source_spec(txn, tangent, seeded)
        ]
        {
            &&& fires(ops, forward_order(edges, root), Pass::Forward, txn, pre, valued)
            &&& fires(ops, forward_order(edges, root), Pass::RForward { gauss_newton: true }, txn, valued, tangent)
            &&& ops[root].set_source_spec(txn, tangent, seeded)
            &&& fires(ops, reverse_order(edges, root), Pass::Backward { gauss_newton: true }, txn, seeded, post)
        }
}

/// Whether a Hessian vector product from the loss `root` can take the
/// store from `pre` to `post`: a forward pass of the forward hook, a
/// forward pass of the tangent hook, then the loss sets its source, then a
/// reverse pass of the backward hook and a reverse pass of the tangent
/// backward hook.
pub open spec fn hessian_spec<Op: DiffScalarLoss>(
    ops: Seq<Op>,
    edges: Seq<Seq<usize>>,
    root: int,
    txn: TxnId,
    pre: Op::Store,
    post: Op::Store,
) -> bool {
    exists|valued: Op::Store, tangent: Op::Store, seeded: Op::Store, adjoint: Op::Store|
        #![trigger
            fires(ops, forward_order(edges, root), Pass::RForward { gauss_newton: false }, txn, valued, tangent),
            fires(ops, reverse_order(edges, root), Pass::Backward { gauss_newton: false }, txn, seeded, adjoint)
        ]
        {
            &&& fires(ops, forward_order(edges, root), Pass::Forward, txn, pre, valued)
            &&& fires(ops, forward_order(edges, root), Pass::RForward { gauss_newton: false }, txn, valued, tangent)
            &&& ops[root].set_source_spec(txn, tangent, seeded)
            &&& fires(ops, reverse_order(edges, root), Pass::Backward { gauss_newton: false }, txn, seeded, adjoint)
            &&& fires(ops, reverse_order(edges, root), Pass::RBackward, txn, adjoint, post)
        }
}

impl<Op: DiffOperator> Graph<Op> {
    /// Runs the hook of `pass` of the operator `op` once, and returns what
    /// the hook returns; the forward hook, which returns nothing, counts as
    /// done.
    fn run(op: &Op, pass: Pass, txn: TxnId, store: &mut Op::Store) -> (done: Result<(), NotImplemented>)
        ensures
            done is Ok ==> op.pass_spec(pass, txn, *old(store), *final(store)),
            pass == Pass::Forward ==> done is Ok,
            exists|at: &mut Op::Store|
                *at == *old(store) && *final(at) == *final(store) && #[trigger] hook_result(op, pass, txn, at, done),
    {
        match pass {
            Pass::Forward => {
                op._forward(txn, store);
                let done = Ok(());
                proof {
                    let at = choose|at: &mut Op::Store|
                        *at == *old(store) && *final(at) == *store && #[trigger] call_ensures(
                            Op::_forward,
                            (op, txn, at),
                            (),
                        );
                    assert(hook_result(op, pass, txn, at, done));
                }
                done
            },
            Pass::Backward { gauss_newton } => {
                let done = op._backward(txn, gauss_newton, store);
                proof {
                    let at = choose|at: &mut Op::Store|
                        *at == *old(store) && *final(at) == *store && #[trigger] call_ensures(
                            Op::_backward,
                            (op, txn, gauss_newton, at),
                            done,
                        );
                    assert(hook_result(op, pass, txn, at, done));
                }
                done
            },
            Pass::RForward { gauss_newton } => {
                let done = op._r_forward(txn, gauss_newton, store);
                proof {
                    let at = choose|at: &mut Op::Store|
                        *at == *old(store) && *final(at) == *store && #[trigger] call_ensures(
                            Op::_r_forward,
                            (op, txn, gauss_newton, at),
                            done,
                        );
                    assert(hook_result(op, pass, txn, at, done));
                }
                done
            },
            Pass::RBackward => {
                let done = op._r_backward(txn, store);
                proof {
                    let at = choose|at: &mut Op::Store|
                        *at == *old(store) && *final(at) == *store && #[trigger] call_ensures(
                            Op::_r_backward,
                            (op, txn, at),
                            done,
                        );
                    assert(hook_result(op, pass, txn, at, done));
                }
                done
            },
            Pass::Clock => {
                let done = op._clock(txn, store);
                proof {
                    let at = choose|at: &mut Op::Store|
                        *at == *old(store) && *final(at) == *store && #[trigger] call_ensures(
                            Op::_clock,
                            (op, txn, at),
                            done,
                        );
                    assert(hook_result(op, pass, txn, at, done));
                }
                done
            },
        }
    }

    /// Runs the hook of `pass` at each node of `order`, in that order, and
    /// stops at the first hook that fails, whose result it returns.
    fn fire(&self, order: &Vec<usize>, pass: Pass, txn: TxnId, store: &mut Op::Store) -> (done: Result<
        (),
        NotImplemented,
    >)
        requires
            forall|i: int| 0 <= i < order@.len() ==> (#[trigger] order@[i]) < self@.edges.len(),
        ensures
            done is Ok ==> fires(self.ops(), order@, pass, txn, *old(store), *final(store)),
            pass == Pass::Forward ==> done is Ok,
            done is Err ==> exists|stop: int, at: &mut Op::Store| #[trigger]
                stops(self.ops(), order@, pass, txn, *old(store), stop, at, done) && *final(at) == *final(store),
    {
        let mut i: usize = 0;
        let ghost step = pass_step(self.ops(), pass, txn);
        let ghost mut trace = seq![*store];
        while i < order.len()
            invariant
                i <= order@.len(),
                forall|j: int| 0 <= j < order@.len() ==> (#[trigger] order@[j]) < self@.edges.len(),
                step == pass_step(self.ops(), pass, txn),
                chain(order@.take(i as int), step, trace),
                trace.first() == *old(store),
                trace.last() == *store,
            decreases order@.len() - i,
        {
            let v = order[i];
            let done = Self::run(self.op(v), pass, txn, store);
            match done {
                Ok(()) => {},
                Err(missing) => {
                    proof {
                        assert(fires(self.ops(), order@.take(i as int), pass, txn, *old(store), trace.last()));
                        let at = choose|at: &mut Op::Store|
                            *at == trace.last() && *final(at) == *store && #[trigger] hook_result(
                                &self.ops()[v as int],
                                pass,
                                txn,
                                at,
                                done,
                            );
                        assert(stops(self.ops(), order@, pass, txn, *old(store), i as int, at, done));
                    }
                    return Err(missing);
                },
            }
            proof {
                let at = choose|at: &mut Op::Store|
                    *at == trace.last() && *final(at) == *store && #[trigger] hook_result(
                        &self.ops()[v as int],
                        pass,
                        txn,
                        at,
                        done,
                    );
                assert(hook_result(&self.ops()[v as int], pass, txn, at, done));
                assert(completes(self.ops()[v as int], pass, txn, trace.last(), *store));
                lemma_chain_push(order@.take(i as int), step, trace, v, *store);
                assert(order@.take(i + 1) =~= order@.take(i as int).push(v));
                trace = trace.push(*store);
            }
            i = i + 1;
        }
        proof {
            assert(order@.take(order@.len() as int) =~= order@);
        }
        Ok(())
    }

    /// Runs the rollover hook at each node of `order`, in that order.
    fn fire_rollover(&self, order: &Vec<usize>, txn: TxnId, ref_set: &mut DataRefSet, store: &mut Op::Store)
        requires
            forall|i: int| 0 <= i < order@.len() ==> (#[trigger] order@[i]) < self@.edges.len(),
        ensures
            leads(
                order@,
                rollover_step(self.ops(), txn),
                (old(ref_set)@, *old(store)),
                (final(ref_set)@, *final(store)),
            ),
    {
        let mut i: usize = 0;
        let ghost step = rollover_step(self.ops(), txn);
        let ghost mut trace = seq![(ref_set@, *store)];
        while i < order.len()
            invariant
                i <= order@.len(),
                forall|j: int| 0 <= j < order@.len() ==> (#[trigger] order@[j]) < self@.edges.len(),
                step == rollover_step(self.ops(), txn),
                chain(order@.take(i as int), step, trace),
                trace.first() == (old(ref_set)@, *old(store)),
                trace.last() == (ref_set@, *store),
            decreases order@.len() - i,
        {
            let v = order[i];
            self.op(v)._rollover(txn, ref_set, store);
            proof {
                lemma_chain_push(order@.take(i as int), step, trace, v, (ref_set@, *store));
                assert(order@.take(i + 1) =~= order@.take(i as int).push(v));
                trace = trace.push((ref_set@, *store));
            }
            i = i + 1;
        }
        proof {
            assert(order@.take(order@.len() as int) =~= order@);
        }
    }

    /// The size of the data that `ref_set` selects at the nodes that `root`
    /// reaches: a reverse pass that calls the size hook once at each of
    /// them and adds up what the hooks return. Each call finds the
    /// selection as the call before left it. When the sum no longer fits in
    /// a `usize` the pass stops, and `None` is returned.
    pub fn data_sz(&mut self, root: usize, ref_set: &mut DataRefSet, ids: &mut IdSource, store: &Op::Store) -> (size:
        Option<usize>)
        requires
            old(self).wf(),
            root < old(self)@.edges.len(),
            old(ids)@.epochs < u64::MAX,
        ensures
            final(self).wf(),
            final(self)@ == old(self)@,
            final(self).ops() == old(self).ops(),
            final(ids)@ == old(ids)@.issue(IdKind::Epoch),
            exists|refs: Seq<&mut DataRefSet>, sizes: Seq<usize>|
                {
                    &&& 0 < refs.len() <= reverse_order(old(self)@.edges, root as int).len()
                    &&& #[trigger] size_calls(
                        old(self).ops(),
                        reverse_order(old(self)@.edges, root as int).take(refs.len() as int),
                        *store,
                        refs,
                        sizes,
                    )
                    &&& *refs.first() == *old(ref_set)
                    &&& forall|i: int| 0 <= i < refs.len() - 1 ==> *final(#[trigger] refs[i]) == *refs[i + 1]
                    &&& *final(ref_set) == *final(refs.last())
                    &&& match size {
                        Some(sum) => refs.len() == reverse_order(old(self)@.edges, root as int).len() && sum == total(
                            sizes,
                        ),
                        None => total(sizes) > usize::MAX && total(sizes.drop_last()) <= usize::MAX,
                    }
                },
    {
        let epoch = Epoch::new(self.op(root)._id(), ids);
        let order = self.reverse_order(root, epoch);
        proof {
            self.lemma_wf();
            lemma_reverse_order_covers(self@.edges, root as int);
            lemma_order_ends_at_root(self@.edges, root as int);
        }
        self.sum_sizes(&order, ref_set, store)
    }

    /// The sum of the sizes that the size hook returns at the nodes of
    /// `order`, or `None` as soon as the sum does not fit in a `usize`.
    fn sum_sizes(&self, order: &Vec<usize>, ref_set: &mut DataRefSet, store: &Op::Store) -> (size: Option<usize>)
        requires
            order@.len() > 0,
            forall|i: int| 0 <= i < order@.len() ==> (#[trigger] order@[i]) < self@.edges.len(),
        ensures
            exists|refs: Seq<&mut DataRefSet>, sizes: Seq<usize>|
                {
                    &&& 0 < refs.len() <= order@.len()
                    &&& #[trigger] size_calls(self.ops(), order@.take(refs.len() as int), *store, refs, sizes)
                    &&& *refs.first() == *old(ref_set)
                    &&& forall|i: int| 0 <= i < refs.len() - 1 ==> *final(#[trigger] refs[i]) == *refs[i + 1]
                    &&& *final(ref_set) == *final(refs.last())
                    &&& match size {
                        Some(sum) => refs.len() == order@.len() && sum == total(sizes),
                        None => total(sizes) > usize::MAX && total(sizes.drop_last()) <= usize::MAX,
                    }
                },
    {
        let mut size: usize = 0;
        let mut i: usize = 0;
        proof {
            assert(size_calls(
                self.ops(),
                order@.take(0),
                *store,
                Seq::<&mut DataRefSet>::empty(),
                Seq::<usize>::empty(),
            ));
        }
        while i < order.len()
            invariant
                i <= order@.len(),
                forall|j: int| 0 <= j < order@.len() ==> (#[trigger] order@[j]) < self@.edges.len(),
                exists|refs: Seq<&mut DataRefSet>, sizes: Seq<usize>|
                    {
                        &&& #[trigger] size_calls(self.ops(), order@.take(i as int), *store, refs, sizes)
                        &&& i > 0 ==> *refs[0] == *old(ref_set) && *final(refs[i - 1]) == *ref_set
                        &&& forall|j: int| 0 <= j < i - 1 ==> *final(#[trigger] refs[j]) == *refs[j + 1]
                        &&& size == total(sizes)
                    },
                i == 0 ==> *ref_set == *old(ref_set),
            decreases order@.len() - i,
        {
            let v = order[i];
            let ghost before = *ref_set;
            let op = self.op(v);
            let part = op._data_sz(ref_set, store);
            proof {
                let (done, summed) = choose|refs: Seq<&mut DataRefSet>, sizes: Seq<usize>|
                    {
                        &&& #[trigger] size_calls(self.ops(), order@.take(i as int), *store, refs, sizes)
                        &&& i > 0 ==> *refs[0] == *old(ref_set) && *final(refs[i - 1]) == before
                        &&& forall|j: int| 0 <= j < i - 1 ==> *final(#[trigger] refs[j]) == *refs[j + 1]
                        &&& size == total(sizes)
                    };
                let at = choose|at: &mut DataRefSet|
                    *at == before && *final(at) == *ref_set && #[trigger] call_ensures(Op::_data_sz, (op, at, store), part);
                let more = done.push(at);
                let sizes = summed.push(part);
                let next = order@.take(i + 1);
                assert forall|j: int| 0 <= j < more.len() implies call_ensures(
                    Op::_data_sz,
                    (&self.ops()[next[j] as int], #[trigger] more[j], store),
                    sizes[j],
                ) by {
                    if j < i {
                        assert(more[j] == done[j]);
                        assert(sizes[j] == summed[j]);
                        assert(order@.take(i as int)[j] == next[j]);
                    }
                }
                assert(size_calls(self.ops(), next, *store, more, sizes));
                assert forall|j: int| 0 <= j < i + 1 - 1 implies *final(#[trigger] more[j]) == *more[j + 1] by {
                    if j < i - 1 {
                        assert(more[j] == done[j]);
                        assert(more[j + 1] == done[j + 1]);
                    }
                }
                assert(sizes.drop_last() =~= summed);
                assert(total(sizes) == size + part);
            }
            if part > usize::MAX - size {
                return None;
            }
            size = size + part;
            i = i + 1;
        }
        proof {
            assert(order@.take(order@.len() as int) =~= order@);
        }
        Some(size)
    }

    /// Calls the hook of the transfer `which` of the operator `op` once.
    fn run_transfer(
        op: &Op,
        which: Transfer,
        txn: TxnId,
        ref_set: &mut DataRefSet,
        payload: &mut Op::Payload,
        store: &mut Op::Store,
    )
        ensures
            exists|refs: &mut DataRefSet, at: &mut Op::Payload, to: &mut Op::Store|
                {
                    &&& #[trigger] transfer_call(op, which, txn, refs, at, to)
                    &&& *refs == *old(ref_set) && *at == *old(payload) && *to == *old(store)
                    &&& *final(refs) == *final(ref_set) && *final(at) == *final(payload) && *final(to) == *final(store)
                },
    {
        match which {
            Transfer::Load => {
                op._load(txn, ref_set, payload, store);
                proof {
                    let (refs, at, to) = choose|refs: &mut DataRefSet, at: &mut Op::Payload, to: &mut Op::Store|
                        {
                            &&& #[trigger] call_ensures(Op::_load, (op, txn, refs, at, to), ())
                            &&& *refs == *old(ref_set) && *at == *old(payload) && *to == *old(store)
                            &&& *final(refs) == *ref_set && *final(at) == *payload && *final(to) == *store
                        };
                    assert(transfer_call(op, which, txn, refs, at, to));
                }
            },
            Transfer::LoadRVal => {
                op._load_r_val(txn, ref_set, payload, store);
                proof {
                    let (refs, at, to) = choose|refs: &mut DataRefSet, at: &mut Op::Payload, to: &mut Op::Store|
                        {
                            &&& #[trigger] call_ensures(Op::_load_r_val, (op, txn, refs, at, to), ())
                            &&& *refs == *old(ref_set) && *at == *old(payload) && *to == *old(store)
                            &&& *final(refs) == *ref_set && *final(at) == *payload && *final(to) == *store
                        };
                    assert(transfer_call(op, which, txn, refs, at, to));
                }
            },
            Transfer::Store => {
                op._store(txn, ref_set, payload, store);
                proof {
                    let (refs, at, to) = choose|refs: &mut DataRefSet, at: &mut Op::Payload, to: &mut Op::Store|
                        {
                            &&& #[trigger] call_ensures(Op::_store, (op, txn, refs, at, to), ())
                            &&& *refs == *old(ref_set) && *at == *old(payload) && *to == *old(store)
                            &&& *final(refs) == *ref_set && *final(at) == *payload && *final(to) == *store
                        };
                    assert(transfer_call(op, which, txn, refs, at, to));
                }
            },
            Transfer::StoreGrad => {
                op._store_grad(txn, ref_set, payload, store);
                proof {
                    let (refs, at, to) = choose|refs: &mut DataRefSet, at: &mut Op::Payload, to: &mut Op::Store|
                        {
                            &&& #[trigger] call_ensures(Op::_store_grad, (op, txn, refs, at, to), ())
                            &&& *refs == *old(ref_set) && *at == *old(payload) && *to == *old(store)
                            &&& *final(refs) == *ref_set && *final(at) == *payload && *final(to) == *store
                        };
                    assert(transfer_call(op, which, txn, refs, at, to));
                }
            },
            Transfer::StoreRGrad => {
                op._store_r_grad(txn, ref_set, payload, store);
                proof {
                    let (refs, at, to) = choose|refs: &mut DataRefSet, at: &mut Op::Payload, to: &mut Op::Store|
                        {
                            &&& #[trigger] call_ensures(Op::_store_r_grad, (op, txn, refs, at, to), ())
                            &&& *refs == *old(ref_set) && *at == *old(payload) && *to == *old(store)
                            &&& *final(refs) == *ref_set && *final(at) == *payload && *final(to) == *store
                        };
                    assert(transfer_call(op, which, txn, refs, at, to));
                }
            },
        }
    }

    /// Calls the hook of the transfer `which` at each node of `order`, in
    /// that order.
    fn fire_transfer(
        &self,
        order: &Vec<usize>,
        which: Transfer,
        txn: TxnId,
        ref_set: &mut DataRefSet,
        payload: &mut Op::Payload,
        store: &mut Op::Store,
    )
        requires
            order@.len() > 0,
            forall|i: int| 0 <= i < order@.len() ==> (#[trigger] order@[i]) < self@.edges.len(),
        ensures
            exists|ats: Seq<(&mut DataRefSet, &mut Op::Payload, &mut Op::Store)>|
                {
                    &&& #[trigger] transfer_calls(self.ops(), order@, which, txn, ats)
                    &&& *ats.first().0 == *old(ref_set)
                    &&& *ats.first().1 == *old(payload)
                    &&& *ats.first().2 == *old(store)
                    &&& forall|i: int|
                        0 <= i < ats.len() - 1 ==> {
                            &&& *final((#[trigger] ats[i]).0) == *ats[i + 1].0
                            &&& *final(ats[i].1) == *ats[i + 1].1
                            &&& *final(ats[i].2) == *ats[i + 1].2
                        }
                    &&& *final(ref_set) == *final(ats.last().0)
                    &&& *final(payload) == *final(ats.last().1)
                    &&& *final(store) == *final(ats.last().2)
                },
    {
        let mut i: usize = 0;
        proof {
            assert(transfer_calls(
                self.ops(),
                order@.take(0),
                which,
                txn,
                Seq::<(&mut DataRefSet, &mut Op::Payload, &mut Op::Store)>::empty(),
            ));
        }
        while i < order.len()
            invariant
                i <= order@.len(),
                forall|j: int| 0 <= j < order@.len() ==> (#[trigger] order@[j]) < self@.edges.len(),
                exists|ats: Seq<(&mut DataRefSet, &mut Op::Payload, &mut Op::Store)>|
                    {
                        &&& #[trigger] transfer_calls(self.ops(), order@.take(i as int), which, txn, ats)
                        &&& i > 0 ==> {
                            &&& *ats[0].0 == *old(ref_set) && *ats[0].1 == *old(payload) && *ats[0].2 == *old(store)
                            &&& *final(ats[i - 1].0) == *ref_set
                            &&& *final(ats[i - 1].1) == *payload
                            &&& *final(ats[i - 1].2) == *store
                        }
                        &&& forall|j: int|
                            0 <= j < i - 1 ==> {
                                &&& *final((#[trigger] ats[j]).0) == *ats[j + 1].0
                                &&& *final(ats[j].1) == *ats[j + 1].1
                                &&& *final(ats[j].2) == *ats[j + 1].2
                            }
                    },
                i == 0 ==> *ref_set == *old(ref_set) && *payload == *old(payload) && *store == *old(store),
            decreases order@.len() - i,
        {
            let v = order[i];
            let ghost before = (*ref_set, *payload, *store);
            let op = self.op(v);
            Self::run_transfer(op, which, txn, ref_set, payload, store);
            proof {
                let done = choose|ats: Seq<(&mut DataRefSet, &mut Op::Payload, &mut Op::Store)>|
                    {
                        &&& #[trigger] transfer_calls(self.ops(), order@.take(i as int), which, txn, ats)
                        &&& i > 0 ==> {
                            &&& *ats[0].0 == *old(ref_set) && *ats[0].1 == *old(payload) && *ats[0].2 == *old(store)
                            &&& *final(ats[i - 1].0) == before.0
                            &&& *final(ats[i - 1].1) == before.1
                            &&& *final(ats[i - 1].2) == before.2
                        }
                        &&& forall|j: int|
                            0 <= j < i - 1 ==> {
                                &&& *final((#[trigger] ats[j]).0) == *ats[j + 1].0
                                &&& *final(ats[j].1) == *ats[j + 1].1
                                &&& *final(ats[j].2) == *ats[j + 1].2
                            }
                    };
                let (refs, at, to) = choose|refs: &mut DataRefSet, at: &mut Op::Payload, to: &mut Op::Store|
                    {
                        &&& #[trigger] transfer_call(op, which, txn, refs, at, to)
                        &&& *refs == before.0 && *at == before.1 && *to == before.2
                        &&& *final(refs) == *ref_set && *final(at) == *payload && *final(to) == *store
                    };
                let more = done.push((refs, at, to));
                let next = order@.take(i + 1);
                assert forall|j: int| 0 <= j < more.len() implies transfer_call(
                    &self.ops()[next[j] as int],
                    which,
                    txn,
                    (#[trigger] more[j]).0,
                    more[j].1,
                    more[j].2,
                ) by {
                    if j < i {
                        assert(more[j] == done[j]);
                        assert(order@.take(i as int)[j] == next[j]);
                    }
                }
                assert(transfer_calls(self.ops(), next, which, txn, more));
                assert forall|j: int| 0 <= j < i + 1 - 1 implies {
                    &&& *final((#[trigger] more[j]).0) == *more[j + 1].0
                    &&& *final(more[j].1) == *more[j + 1].1
                    &&& *final(more[j].2) == *more[j + 1].2
                } by {
                    if j < i - 1 {
                        assert(more[j] == done[j]);
                        assert(more[j + 1] == done[j + 1]);
                    }
                }
            }
            i = i + 1;
        }
        proof {
            assert(order@.take(order@.len() as int) =~= order@);
        }
    }

    /// One transfer between the buffers of the nodes that `root` reaches
    /// and `payload`: a reverse pass that calls the hook of `which` once at
    /// each of them, with the mask of `ref_set` cleared before and after.
    fn transfer(
        &mut self,
        root: usize,
        which: Transfer,
        txn: TxnId,
        ref_set: &mut DataRefSet,
        payload: &mut Op::Payload,
        ids: &mut IdSource,
        store: &mut Op::Store,
    )
        requires
            old(self).wf(),
            root < old(self)@.edges.len(),
            old(ids)@.epochs < u64::MAX,
        ensures
            final(self).wf(),
            final(self)@ == old(self)@,
            final(self).ops() == old(self).ops(),
            final(ids)@ == old(ids)@.issue(IdKind::Epoch),
            exists|ats: Seq<(&mut DataRefSet, &mut Op::Payload, &mut Op::Store)>|
                {
                    &&& #[trigger] transfer_calls(
                        old(self).ops(),
                        reverse_order(old(self)@.edges, root as int),
                        which,
                        txn,
                        ats,
                    )
                    &&& ats.first().0@ == old(ref_set)@.unmask_all()
                    &&& *ats.first().1 == *old(payload)
                    &&& *ats.first().2 == *old(store)
                    &&& forall|i: int|
                        0 <= i < ats.len() - 1 ==> {
                            &&& *final((#[trigger] ats[i]).0) == *ats[i + 1].0
                            &&& *final(ats[i].1) == *ats[i + 1].1
                            &&& *final(ats[i].2) == *ats[i + 1].2
                        }
                    &&& final(ref_set)@ == final(ats.last().0)@.unmask_all()
                    &&& *final(payload) == *final(ats.last().1)
                    &&& *final(store) == *final(ats.last().2)
                },
    {
        let epoch = Epoch::new(self.op(root)._id(), ids);
        ref_set.unmask_all();
        let order = self.reverse_order(root, epoch);
        proof {
            self.lemma_wf();
            lemma_reverse_order_covers(self@.edges, root as int);
            lemma_order_ends_at_root(self@.edges, root as int);
        }
        self.fire_transfer(&order, which, txn, ref_set, payload, store);
        ref_set.unmask_all();
    }

    /// Reads the selected values of the nodes that `root` reaches from
    /// `reader`: a reverse pass that calls the load hook once at each of
    /// them, with the mask of `ref_set` cleared before and after. Each call
    /// finds the selection, the payload and the store as the call before
    /// left them.
    pub fn load(
        &mut self,
        root: usize,
        txn: TxnId,
        ref_set: &mut DataRefSet,
        reader: &mut Op::Payload,
        ids: &mut IdSource,
        store: &mut Op::Store,
    )
        requires
            old(self).wf(),
            root < old(self)@.edges.len(),
            old(ids)@.epochs < u64::MAX,
        ensures
            final(self).wf(),
            final(self)@ == old(self)@,
            final(self).ops() == old(self).ops(),
            final(ids)@ == old(ids)@.issue(IdKind::Epoch),
            exists|ats: Seq<(&mut DataRefSet, &mut Op::Payload, &mut Op::Store)>|
                {
                    &&& #[trigger] transfer_calls(
                        old(self).ops(),
                        reverse_order(old(self)@.edges, root as int),
                        Transfer::Load,
                        txn,
                        ats,
                    )
                    &&& ats.first().0@ == old(ref_set)@.unmask_all()
                    &&& *ats.first().1 == *old(reader)
                    &&& *ats.first().2 == *old(store)
                    &&& forall|i: int|
                        0 <= i < ats.len() - 1 ==> {
                            &&& *final((#[trigger] ats[i]).0) == *ats[i + 1].0
                            &&& *final(ats[i].1) == *ats[i + 1].1
                            &&& *final(ats[i].2) == *ats[i + 1].2
                        }
                    &&& final(ref_set)@ == final(ats.last().0)@.unmask_all()
                    &&& *final(reader) == *final(ats.last().1)
                    &&& *final(store) == *final(ats.last().2)
                },
    {
        self.transfer(root, Transfer::Load, txn, ref_set, reader, ids, store)
    }

    /// Reads the selected tangents of the nodes that `root` reaches from
    /// `reader`: a reverse pass that calls the tangent load hook once at
    /// each of them, with the mask of `ref_set` cleared before and after.
    /// Each call finds the selection, the payload and the store as the call
    /// before left them.
    pub fn load_r_val(
        &mut self,
        root: usize,
        txn: TxnId,
        ref_set: &mut DataRefSet,
        reader: &mut Op::Payload,
        ids: &mut IdSource,
        store: &mut Op::Store,
    )
        requires
            old(self).wf(),
            root < old(self)@.edges.len(),
            old(ids)@.epochs < u64::MAX,
        ensures
            final(self).wf(),
            final(self)@ == old(self)@,
            final(self).ops() == old(self).ops(),
            final(ids)@ == old(ids)@.issue(IdKind::Epoch),
            exists|ats: Seq<(&mut DataRefSet, &mut Op::Payload, &mut Op::Store)>|
                {
                    &&& #[trigger] transfer_calls(
                        old(self).ops(),
                        reverse_order(old(self)@.edges, root as int),
                        Transfer::LoadRVal,
                        txn,
                        ats,
                    )
                    &&& ats.first().0@ == old(ref_set)@.unmask_all()
                    &&& *ats.first().1 == *old(reader)
                    &&& *ats.first().2 == *old(store)
                    &&& forall|i: int|
                        0 <= i < ats.len() - 1 ==> {
                            &&& *final((#[trigger] ats[i]).0) == *ats[i + 1].0
                            &&& *final(ats[i].1) == *ats[i + 1].1
                            &&& *final(ats[i].2) == *ats[i + 1].2
                        }
                    &&& final(ref_set)@ == final(ats.last().0)@.unmask_all()
                    &&& *final(reader) == *final(ats.last().1)
                    &&& *final(store) == *final(ats.last().2)
                },
    {
        self.transfer(root, Transfer::LoadRVal, txn, ref_set, reader, ids, store)
    }

    /// Writes the selected values of the nodes that `root` reaches to
    /// `writer`: a reverse pass that calls the store hook once at each of
    /// them, with the mask of `ref_set` cleared before and after. Each call
    /// finds the selection, the payload and the store as the call before
    /// left them.
    pub fn store(
        &mut self,
        root: usize,
        txn: TxnId,
        ref_set: &mut DataRefSet,
        writer: &mut Op::Payload,
        ids: &mut IdSource,
        store: &mut Op::Store,
    )
        requires
            old(self).wf(),
            root < old(self)@.edges.len(),
            old(ids)@.epochs < u64::MAX,
        ensures
            final(self).wf(),
            final(self)@ == old(self)@,
            final(self).ops() == old(self).ops(),
            final(ids)@ == old(ids)@.issue(IdKind::Epoch),
            exists|ats: Seq<(&mut DataRefSet, &mut Op::Payload, &mut Op::Store)>|
                {
                    &&& #[trigger] transfer_calls(
                        old(self).ops(),
                        reverse_order(old(self)@.edges, root as int),
                        Transfer::Store,
                        txn,
                        ats,
                    )
                    &&& ats.first().0@ == old(ref_set)@.unmask_all()
                    &&& *ats.first().1 == *old(writer)
                    &&& *ats.first().2 == *old(store)
                    &&& forall|i: int|
                        0 <= i < ats.len() - 1 ==> {
                            &&& *final((#[trigger] ats[i]).0) == *ats[i + 1].0
                            &&& *final(ats[i].1) == *ats[i + 1].1
                            &&& *final(ats[i].2) == *ats[i + 1].2
                        }
                    &&& final(ref_set)@ == final(ats.last().0)@.unmask_all()
                    &&& *final(writer) == *final(ats.last().1)
                    &&& *final(store) == *final(ats.last().2)
                },
    {
        self.transfer(root, Transfer::Store, txn, ref_set, writer, ids, store)
    }

    /// Writes the selected adjoints of the nodes that `root` reaches to
    /// `writer`: a reverse pass that calls the adjoint store hook once at
    /// each of them, with the mask of `ref_set` cleared before and after.
    /// Each call finds the selection, the payload and the store as the call
    /// before left them.
    pub fn store_grad(
        &mut self,
        root: usize,
        txn: TxnId,
        ref_set: &mut DataRefSet,
        writer: &mut Op::Payload,
        ids: &mut IdSource,
        store: &mut Op::Store,
    )
        requires
            old(self).wf(),
            root < old(self)@.edges.len(),
            old(ids)@.epochs < u64::MAX,
        ensures
            final(self).wf(),
            final(self)@ == old(self)@,
            final(self).ops() == old(self).ops(),
            final(ids)@ == old(ids)@.issue(IdKind::Epoch),
            exists|ats: Seq<(&mut DataRefSet, &mut Op::Payload, &mut Op::Store)>|
                {
                    &&& #[trigger] transfer_calls(
                        old(self).ops(),
                        reverse_order(old(self)@.edges, root as int),
                        Transfer::StoreGrad,
                        txn,
                        ats,
                    )
                    &&& ats.first().0@ == old(ref_set)@.unmask_all()
                    &&& *ats.first().1 == *old(writer)
                    &&& *ats.first().2 == *old(store)
                    &&& forall|i: int|
                        0 <= i < ats.len() - 1 ==> {
                            &&& *final((#[trigger] ats[i]).0) == *ats[i + 1].0
                            &&& *final(ats[i].1) == *ats[i + 1].1
                            &&& *final(ats[i].2) == *ats[i + 1].2
                        }
                    &&& final(ref_set)@ == final(ats.last().0)@.unmask_all()
                    &&& *final(writer) == *final(ats.last().1)
                    &&& *final(store) == *final(ats.last().2)
                },
    {
        self.transfer(root, Transfer::StoreGrad, txn, ref_set, writer, ids, store)
    }

    /// Writes the selected tangent adjoints of the nodes that `root`
    /// reaches to `writer`: a reverse pass that calls the tangent adjoint
    /// store hook once at each of them, with the mask of `ref_set` cleared
    /// before and after. Each call finds the selection, the payload and the
    /// store as the call before left them.
    pub fn store_r_grad(
        &mut self,
        root: usize,
        txn: TxnId,
        ref_set: &mut DataRefSet,
        writer: &mut Op::Payload,
        ids: &mut IdSource,
        store: &mut Op::Store,
    )
        requires
            old(self).wf(),
            root < old(self)@.edges.len(),
            old(ids)@.epochs < u64::MAX,
        ensures
            final(self).wf(),
            final(self)@ == old(self)@,
            final(self).ops() == old(self).ops(),
            final(ids)@ == old(ids)@.issue(IdKind::Epoch),
            exists|ats: Seq<(&mut DataRefSet, &mut Op::Payload, &mut Op::Store)>|
                {
                    &&& #[trigger] transfer_calls(
                        old(self).ops(),
                        reverse_order(old(self)@.edges, root as int),
                        Transfer::StoreRGrad,
                        txn,
                        ats,
                    )
                    &&& ats.first().0@ == old(ref_set)@.unmask_all()
                    &&& *ats.first().1 == *old(writer)
                    &&& *ats.first().2 == *old(store)
                    &&& forall|i: int|
                        0 <= i < ats.len() - 1 ==> {
                            &&& *final((#[trigger] ats[i]).0) == *ats[i + 1].0
                            &&& *final(ats[i].1) == *ats[i + 1].1
                            &&& *final(ats[i].2) == *ats[i + 1].2
                        }
                    &&& final(ref_set)@ == final(ats.last().0)@.unmask_all()
                    &&& *final(writer) == *final(ats.last().1)
                    &&& *final(store) == *final(ats.last().2)
                },
    {
        self.transfer(root, Transfer::StoreRGrad, txn, ref_set, writer, ids, store)
    }

    /// Initializes the parameters of the nodes that `root` reaches: a
    /// reverse pass that calls the initialization hook once at each of
    /// them, each call finding the store as the call before left it.
    pub fn init(&mut self, root: usize, txn: TxnId, ids: &mut IdSource, store: &mut Op::Store)
        requires
            old(self).wf(),
            root < old(self)@.edges.len(),
            old(ids)@.epochs < u64::MAX,
        ensures
            final(self).wf(),
            final(self)@ == old(self)@,
            final(self).ops() == old(self).ops(),
            final(ids)@ == old(ids)@.issue(IdKind::Epoch),
            exists|ats: Seq<&mut Op::Store>|
                {
                    &&& #[trigger] init_calls(
                        old(self).ops(),
                        reverse_order(old(self)@.edges, root as int),
                        txn,
                        ats,
                    )
                    &&& *ats.first() == *old(store)
                    &&& forall|i: int| 0 <= i < ats.len() - 1 ==> *final(#[trigger] ats[i]) == *ats[i + 1]
                    &&& *final(ats.last()) == *final(store)
                },
    {
        let epoch = Epoch::new(self.op(root)._id(), ids);
        let order = self.reverse_order(root, epoch);
        proof {
            self.lemma_wf();
            lemma_reverse_order_covers(self@.edges, root as int);
            lemma_order_ends_at_root(self@.edges, root as int);
        }
        let mut i: usize = 0;
        proof {
            assert(init_calls(self.ops(), order@.take(0), txn, Seq::<&mut Op::Store>::empty()));
        }
        while i < order.len()
            invariant
                i <= order@.len(),
                forall|j: int| 0 <= j < order@.len() ==> (#[trigger] order@[j]) < self@.edges.len(),
                exists|ats: Seq<&mut Op::Store>|
                    {
                        &&& #[trigger] init_calls(self.ops(), order@.take(i as int), txn, ats)
                        &&& i > 0 ==> *ats[0] == *old(store) && *final(ats[i - 1]) == *store
                        &&& forall|j: int| 0 <= j < i - 1 ==> *final(#[trigger] ats[j]) == *ats[j + 1]
                    },
                i == 0 ==> *store == *old(store),
            decreases order@.len() - i,
        {
            let v = order[i];
            let ghost before = *store;
            let op = self.op(v);
            op._init(txn, store);
            proof {
                let done = choose|ats: Seq<&mut Op::Store>|
                    {
                        &&& #[trigger] init_calls(self.ops(), order@.take(i as int), txn, ats)
                        &&& i > 0 ==> *ats[0] == *old(store) && *final(ats[i - 1]) == before
                        &&& forall|j: int| 0 <= j < i - 1 ==> *final(#[trigger] ats[j]) == *ats[j + 1]
                    };
                let at = choose|at: &mut Op::Store|
                    *at == before && *final(at) == *store && #[trigger] call_ensures(Op::_init, (op, txn, at), ());
                let more = done.push(at);
                let next = order@.take(i + 1);
                assert forall|j: int| 0 <= j < more.len() implies call_ensures(
                    Op::_init,
                    (&self.ops()[next[j] as int], txn, #[trigger] more[j]),
                    (),
                ) by {
                    if j < i {
                        assert(more[j] == done[j]);
                        assert(order@.take(i as int)[j] == next[j]);
                    }
                }
                assert(init_calls(self.ops(), next, txn, more));
                assert forall|j: int| 0 <= j < i + 1 - 1 implies *final(#[trigger] more[j]) == *more[j + 1] by {
                    if j < i - 1 {
                        assert(more[j] == done[j]);
                        assert(more[j + 1] == done[j + 1]);
                    }
                }
            }
            i = i + 1;
        }
        proof {
            assert(order@.take(order@.len() as int) =~= order@);
        }
    }

    /// Takes the data of the nodes that `root` reaches across a transaction
    /// boundary: a reverse pass that runs the rollover hook once at each
    /// of them, with the mask of `ref_set` cleared before and after.
    pub fn rollover(&mut self, root: usize, txn: TxnId, ref_set: &mut DataRefSet, ids: &mut IdSource, store: &mut Op::Store)
        requires
            old(self).wf(),
            root < old(self)@.edges.len(),
            old(ids)@.epochs < u64::MAX,
        ensures
            final(self).wf(),
            final(self)@ == old(self)@,
            final(self).ops() == old(self).ops(),
            final(ids)@ == old(ids)@.issue(IdKind::Epoch),
            rolls_over(
                old(self).ops(),
                old(self)@.edges,
                root as int,
                txn,
                (old(ref_set)@, *old(store)),
                (final(ref_set)@, *final(store)),
            ),
    {
        let epoch = Epoch::new(self.op(root)._id(), ids);
        ref_set.unmask_all();
        let order = self.reverse_order(root, epoch);
        proof {
            self.lemma_wf();
            lemma_reverse_order_covers(self@.edges, root as int);
        }
        self.fire_rollover(&order, txn, ref_set, store);
        let ghost refs = ref_set@;
        ref_set.unmask_all();
        proof {
            let pre = (old(ref_set)@, *old(store));
            let post = (ref_set@, *store);
            assert(leads(
                reverse_order(old(self)@.edges, root as int),
                rollover_step(old(self).ops(), txn),
                (pre.0.unmask_all(), pre.1),
                (refs, post.1),
            ));
            assert(post.0 == refs.unmask_all());
            assert(rolls_over(old(self).ops(), old(self)@.edges, root as int, txn, pre, post));
        }
    }

    /// Evaluates the nodes that `root` reaches: a forward pass that runs
    /// the forward hook once at each of them, after those of its inputs.
    pub fn eval(&mut self, root: usize, txn: TxnId, ids: &mut IdSource, store: &mut Op::Store)
        requires
            old(self).wf(),
            root < old(self)@.edges.len(),
            old(ids)@.epochs < u64::MAX,
        ensures
            final(self).wf(),
            final(self)@ == old(self)@,
            final(self).ops() == old(self).ops(),
            final(ids)@ == old(ids)@.issue(IdKind::Epoch),
            fires(
                old(self).ops(),
                forward_order(old(self)@.edges, root as int),
                Pass::Forward,
                txn,
                *old(store),
                *final(store),
            ),
    {
        let epoch = Epoch::new(self.op(root)._id(), ids);
        let _valued = self.forward_pass(root, epoch, Pass::Forward, txn, store);
    }

    /// Moves the clocks of the nodes that `root` reaches one step on: a
    /// forward pass that runs the clock hook once at each of them. The
    /// pass stops at the first hook that fails and returns what that hook
    /// returned; the store is then as that hook left it.
    pub fn clock(&mut self, root: usize, txn: TxnId, ids: &mut IdSource, store: &mut Op::Store) -> (done: Result<
        (),
        NotImplemented,
    >)
        requires
            old(self).wf(),
            root < old(self)@.edges.len(),
            old(ids)@.epochs < u64::MAX,
        ensures
            final(self).wf(),
            final(self)@ == old(self)@,
            final(self).ops() == old(self).ops(),
            final(ids)@ == old(ids)@.issue(IdKind::Epoch),
            done is Ok ==> fires(
                old(self).ops(),
                forward_order(old(self)@.edges, root as int),
                Pass::Clock,
                txn,
                *old(store),
                *final(store),
            ),
            done is Err ==> exists|stop: int, at: &mut Op::Store| #[trigger]
                stops(
                    old(self).ops(),
                    forward_order(old(self)@.edges, root as int),
                    Pass::Clock,
                    txn,
                    *old(store),
                    stop,
                    at,
                    done,
                ) && *final(at) == *final(store),
    {
        let epoch = Epoch::new(self.op(root)._id(), ids);
        self.forward_pass(root, epoch, Pass::Clock, txn, store)
    }

    /// A forward pass from `root` under `epoch` that runs the hook of
    /// `pass`, up to the first hook that fails, whose result it returns.
    /// The forward hook cannot fail. The graph comes back as it was in
    /// either case.
    fn forward_pass(&mut self, root: usize, epoch: Epoch, pass: Pass, txn: TxnId, store: &mut Op::Store) -> (done:
        Result<(), NotImplemented>)
        requires
            old(self).wf(),
            root < old(self)@.edges.len(),
        ensures
            final(self).wf(),
            final(self)@ == old(self)@,
            final(self).ops() == old(self).ops(),
            done is Ok ==> fires(
                old(self).ops(),
                forward_order(old(self)@.edges, root as int),
                pass,
                txn,
                *old(store),
                *final(store),
            ),
            pass == Pass::Forward ==> done is Ok,
            done is Err ==> exists|stop: int, at: &mut Op::Store| #[trigger]
                stops(
                    old(self).ops(),
                    forward_order(old(self)@.edges, root as int),
                    pass,
                    txn,
                    *old(store),
                    stop,
                    at,
                    done,
                ) && *final(at) == *final(store),
    {
        let order = self.forward_order(root, epoch);
        proof {
            self.lemma_wf();
            lemma_forward_order_fires_once(self@.edges, root as int);
        }
        self.fire(&order, pass, txn, store)
    }

    /// A reverse pass from `root` under `epoch` that runs the hook of
    /// `pass`, up to the first hook that fails, whose result it returns.
    /// The forward hook cannot fail. The graph comes back as it was in
    /// either case.
    fn reverse_pass(&mut self, root: usize, epoch: Epoch, pass: Pass, txn: TxnId, store: &mut Op::Store) -> (done:
        Result<(), NotImplemented>)
        requires
            old(self).wf(),
            root < old(self)@.edges.len(),
        ensures
            final(self).wf(),
            final(self)@ == old(self)@,
            final(self).ops() == old(self).ops(),
            done is Ok ==> fires(
                old(self).ops(),
                reverse_order(old(self)@.edges, root as int),
                pass,
                txn,
                *old(store),
                *final(store),
            ),
            pass == Pass::Forward ==> done is Ok,
            done is Err ==> exists|stop: int, at: &mut Op::Store| #[trigger]
                stops(
                    old(self).ops(),
                    reverse_order(old(self)@.edges, root as int),
                    pass,
                    txn,
                    *old(store),
                    stop,
                    at,
                    done,
                ) && *final(at) == *final(store),
    {
        let order = self.reverse_order(root, epoch);
        proof {
            self.lemma_wf();
            lemma_reverse_order_covers(self@.edges, root as int);
        }
        self.fire(&order, pass, txn, store)
    }
}

impl<Op: DiffScalarLoss> Graph<Op> {
    /// The gradient of the loss `root`: evaluates the nodes that `root`
    /// reaches, has the loss set its source, and runs the backward hook
    /// once at each of the nodes in a reverse pass, so that a node's
    /// adjoint is complete when its hook runs. The reverse pass stops at
    /// the first backward hook that fails and returns what that hook
    /// returned; the store is then as that hook left it.
    pub fn gradient(&mut self, root: usize, txn: TxnId, ids: &mut IdSource, store: &mut Op::Store) -> (done: Result<
        (),
        NotImplemented,
    >)
        requires
            old(self).wf(),
            root < old(self)@.edges.len(),
            old(ids)@.epochs < u64::MAX,
        ensures
            final(self).wf(),
            final(self)@ == old(self)@,
            final(self).ops() == old(self).ops(),
            final(ids)@ == old(ids)@.issue(IdKind::Epoch),
            done is Ok ==> gradient_spec(
                old(self).ops(),
                old(self)@.edges,
                root as int,
                txn,
                *old(store),
                *final(store),
            ),
            done is Err ==> exists|stop: int, at: &mut Op::Store| #[trigger]
                gradient_stops(old(self).ops(), old(self)@.edges, root as int, txn, *old(store), stop, at, done)
                    && *final(at) == *final(store),
    {
        let epoch = Epoch::new(self.op(root)._id(), ids);
        let _valued = self.forward_pass(root, epoch, Pass::Forward, txn, store);
        let ghost s1 = *store;
        self.op(root)._set_source(txn, store);
        let ghost s2 = *store;
        match self.reverse_pass(root, epoch, Pass::Backward { gauss_newton: false }, txn, store) {
            Ok(()) => {},
            Err(missing) => {
                proof {
                    let ops = old(self).ops();
                    let edges = old(self)@.edges;
                    let done = Err::<(), NotImplemented>(missing);
                    let (stop, at) = choose|stop: int, at: &mut Op::Store| #[trigger]
                        stops(ops, reverse_order(edges, root as int), Pass::Backward { gauss_newton: false }, txn, s2, stop, at, done) && *final(at)
                            == *store;
                    assert(ops[root as int].set_source_spec(txn, s1, s2));
                    assert(gradient_stops(ops, edges, root as int, txn, *old(store), stop, at, done));
                }
                return Err(missing);
            },
        }
        proof {
            assert(old(self).ops()[root as int].set_source_spec(txn, s1, s2));
        }
        Ok(())
    }

    /// The product of the Gauss-Newton matrix of the loss `root` with the
    /// tangents that were loaded: evaluates the nodes, runs the tangent
    /// hook at each of them in a forward pass, has the loss set its source,
    /// and runs the backward hook at each of them in a reverse pass, both
    /// hooks in Gauss-Newton mode. A pass stops at the first hook that
    /// fails, and the product returns what that hook returned; the store
    /// is then as that hook left it.
    pub fn gauss_newton_vector_product(&mut self, root: usize, txn: TxnId, ids: &mut IdSource, store: &mut Op::Store) -> (done:
        Result<(), NotImplemented>)
        requires
            old(self).wf(),
            root < old(self)@.edges.len(),
            old(ids)@.epochs < u64::MAX,
        ensures
            final(self).wf(),
            final(self)@ == old(self)@,
            final(self).ops() == old(self).ops(),
            final(ids)@ == old(ids)@.issue(IdKind::Epoch),
            done is Ok ==> gauss_newton_spec(
                old(self).ops(),
                old(self)@.edges,
                root as int,
                txn,
                *old(store),
                *final(store),
            ),
            done is Err ==> exists|stop: int, at: &mut Op::Store| #[trigger]
                gauss_newton_stops(old(self).ops(), old(self)@.edges, root as int, txn, *old(store), stop, at, done)
                    && *final(at) == *final(store),
    {
        let epoch = Epoch::new(self.op(root)._id(), ids);
        let _valued = self.forward_pass(root, epoch, Pass::Forward, txn, store);
        let ghost s1 = *store;
        match self.forward_pass(root, epoch, Pass::RForward { gauss_newton: true }, txn, store) {
            Ok(()) => {},
            Err(missing) => {
                proof {
                    let ops = old(self).ops();
                    let edges = old(self)@.edges;
                    let done = Err::<(), NotImplemented>(missing);
                    let (stop, at) = choose|stop: int, at: &mut Op::Store| #[trigger]
                        stops(ops, forward_order(edges, root as int), Pass::RForward { gauss_newton: true }, txn, s1, stop, at, done) && *final(at)
                            == *store;
                    assert(fires(ops, forward_order(edges, root as int), Pass::Forward, txn, *old(store), s1));
                    assert(gauss_newton_stops(ops, edges, root as int, txn, *old(store), stop, at, done));
                }
                return Err(missing);
            },
        }
        let ghost s2 = *store;
        self.op(root)._set_source(txn, store);
        let ghost s3 = *store;
        match self.reverse_pass(root, epoch, Pass::Backward { gauss_newton: true }, txn, store) {
            Ok(()) => {},
            Err(missing) => {
                proof {
                    let ops = old(self).ops();
                    let edges = old(self)@.edges;
                    let done = Err::<(), NotImplemented>(missing);
                    let (stop, at) = choose|stop: int, at: &mut Op::Store| #[trigger]
                        stops(ops, reverse_order(edges, root as int), Pass::Backward { gauss_newton: true }, txn, s3, stop, at, done) && *final(at)
                            == *store;
                    assert(fires(ops, forward_order(edges, root as int), Pass::RForward { gauss_newton: true }, txn, s1, s2));
                    assert(ops[root as int].set_source_spec(txn, s2, s3));
                    assert(gauss_newton_stops(ops, edges, root as int, txn, *old(store), stop, at, done));
                }
                return Err(missing);
            },
        }
        proof {
            let ops = old(self).ops();
            let edges = old(self)@.edges;
            assert(fires(ops, forward_order(edges, root as int), Pass::RForward { gauss_newton: true }, txn, s1, s2));
            assert(ops[root as int].set_source_spec(txn, s2, s3));
        }
        Ok(())
    }

    /// The product of the Hessian of the loss `root` with the tangents that
    /// were loaded: evaluates the nodes, runs the tangent hook at each of
    /// them in a forward pass, has the loss set its source, and runs first
    /// the backward hook and then the tangent backward hook at each of them
    /// in a reverse pass. A pass stops at the first hook that fails, and
    /// the product returns what that hook returned; the store is then as
    /// that hook left it.
    pub fn hessian_vector_product(&mut self, root: usize, txn: TxnId, ids: &mut IdSource, store: &mut Op::Store) -> (done:
        Result<(), NotImplemented>)
        requires
            old(self).wf(),
            root < old(self)@.edges.len(),
            old(ids)@.epochs < u64::MAX,
        ensures
            final(self).wf(),
            final(self)@ == old(self)@,
            final(self).ops() == old(self).ops(),
            final(ids)@ == old(ids)@.issue(IdKind::Epoch),
            done is Ok ==> hessian_spec(
                old(self).ops(),
                old(self)@.edges,
                root as int,
                txn,
                *old(store),
                *final(store),
            ),
            done is Err ==> exists|stop: int, at: &mut Op::Store| #[trigger]
                hessian_stops(old(self).ops(), old(self)@.edges, root as int, txn, *old(store), stop, at, done)
                    && *final(at) == *final(store),
    {
        let epoch = Epoch::new(self.op(root)._id(), ids);
        let _valued = self.forward_pass(root, epoch, Pass::Forward, txn, store);
        let ghost s1 = *store;
        match self.forward_pass(root, epoch, Pass::RForward { gauss_newton: false }, txn, store) {
            Ok(()) => {},
            Err(missing) => {
                proof {
                    let ops = old(self).ops();
                    let edges = old(self)@.edges;
                    let done = Err::<(), NotImplemented>(missing);
                    let (stop, at) = choose|stop: int, at: &mut Op::Store| #[trigger]
                        stops(ops, forward_order(edges, root as int), Pass::RForward { gauss_newton: false }, txn, s1, stop, at, done) && *final(at)
                            == *store;
                    assert(fires(ops, forward_order(edges, root as int), Pass::Forward, txn, *old(store), s1));
                    assert(hessian_stops(ops, edges, root as int, txn, *old(store), stop, at, done));
                }
                return Err(missing);
            },
        }
        let ghost s2 = *store;
        self.op(root)._set_source(txn, store);
        let ghost s3 = *store;
        match self.reverse_pass(root, epoch, Pass::Backward { gauss_newton: false }, txn, store) {
            Ok(()) => {},
            Err(missing) => {
                proof {
                    let ops = old(self).ops();
                    let edges = old(self)@.edges;
                    let done = Err::<(), NotImplemented>(missing);
                    let (stop, at) = choose|stop: int, at: &mut Op::Store| #[trigger]
                        stops(ops, reverse_order(edges, root as int), Pass::Backward { gauss_newton: false }, txn, s3, stop, at, done) && *final(at)
                            == *store;
                    assert(fires(ops, forward_order(edges, root as int), Pass::RForward { gauss_newton: false }, txn, s1, s2));
                    assert(ops[root as int].set_source_spec(txn, s2, s3));
                    assert(hessian_stops(ops, edges, root as int, txn, *old(store), stop, at, done));
                }
                return Err(missing);
            },
        }
        let ghost s4 = *store;
        match self.reverse_pass(root, epoch, Pass::RBackward, txn, store) {
            Ok(()) => {},
            Err(missing) => {
                proof {
                    let ops = old(self).ops();
                    let edges = old(self)@.edges;
                    let done = Err::<(), NotImplemented>(missing);
                    let (stop, at) = choose|stop: int, at: &mut Op::Store| #[trigger]
                        stops(ops, reverse_order(edges, root as int), Pass::RBackward, txn, s4, stop, at, done) && *final(at)
                            == *store;
                    assert(fires(ops, forward_order(edges, root as int), Pass::RForward { gauss_newton: false }, txn, s1, s2));
                    assert(ops[root as int].set_source_spec(txn, s2, s3));
                    assert(fires(ops, reverse_order(edges, root as int), Pass::Backward { gauss_newton: false }, txn, s3, s4));
                    assert(hessian_stops(ops, edges, root as int, txn, *old(store), stop, at, done));
                }
                return Err(missing);
            },
        }
        proof {
            let ops = old(self).ops();
            let edges = old(self)@.edges;
            assert(fires(ops, forward_order(edges, root as int), Pass::RForward { gauss_newton: false }, txn, s1, s2));
            assert(ops[root as int].set_source_spec(txn, s2, s3));
            assert(fires(ops, reverse_order(edges, root as int), Pass::Backward { gauss_newton: false }, txn, s3, s4));
        }
        Ok(())
    }
}

} // verus!
