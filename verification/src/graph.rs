//! The operator graph: an arena of nodes, each with its operator, its pass
//! bookkeeping and the edges to its inputs.

use vstd::prelude::*;
use crate::ids::Epoch;
use crate::operator::DiffOperator;
use crate::order::{
    acyclic, among, beyond, forward_order, idle, lemma_forward_order_covers, lemma_forward_order_fires_once,
    lemma_forward_order_inputs_first, lemma_load_bounds, lemma_load_prefix, lemma_load_update,
    lemma_pass_returns, lemma_pop_visit_len, lemma_push_inputs_frame, lemma_push_inputs_load,
    lemma_push_visit_frame, lemma_reverse_order_covers, lemma_reverse_order_inputs_last, load, pop_inputs,
    pop_visit, push_inputs, push_visit, reaches, reverse_order, total_edges,
};
use crate::stack::{Level, OperatorStack, StackView};

verus! {

/// One node of the graph.
struct Node<Op> {
    op: Op,
    stack: OperatorStack,
    inputs: Vec<usize>,
}

/// An operator graph. A node's inputs are nodes that were added before it.
pub struct Graph<Op> {
    nodes: Vec<Node<Op>>,
    edge_count: usize,
}

/// The shape of a graph and the state of its pass bookkeeping: for each
/// node the edges to its inputs, in the order of its operands, and its
/// stack.
pub struct GraphView {
    pub edges: Seq<Seq<usize>>,
    pub stacks: Seq<StackView>,
}

spec fn edges_of<Op>(nodes: Seq<Node<Op>>) -> Seq<Seq<usize>> {
    Seq::new(nodes.len(), |v: int| nodes[v].inputs@)
}

/// The levels of a stack at which `pushes` arrivals of `epoch` were
/// counted, of which `left` have not been counted off.
spec fn counted(epoch: Epoch, pushes: nat, left: nat) -> Seq<Level> {
    if left == 0 {
        Seq::empty()
    } else {
        seq![Level { epoch: epoch, pushes: pushes, pops: (pushes - left) as nat }]
    }
}

/// In the middle of a pass of `epoch` the nodes are as they were at its
/// start, but for the level of `epoch` on each stack.
spec fn tracks<Op>(nodes: Seq<Node<Op>>, base: Seq<Node<Op>>, epoch: Epoch, pushes: Seq<nat>, left: Seq<nat>) -> bool {
    &&& nodes.len() == base.len()
    &&& pushes.len() == base.len()
    &&& left.len() == base.len()
    &&& forall|v: int|
        0 <= v < base.len() ==> {
            &&& (#[trigger] nodes[v]).op == base[v].op
            &&& nodes[v].inputs == base[v].inputs
            &&& left[v] <= pushes[v]
            &&& nodes[v].stack@ == (StackView { levels: counted(epoch, pushes[v], left[v]), ..base[v].stack@ })
        }
}

impl<Op> View for Graph<Op> {
    type V = GraphView;

    closed spec fn view(&self) -> GraphView {
        GraphView {
            edges: edges_of(self.nodes@),
            stacks: Seq::new(self.nodes@.len(), |v: int| self.nodes@[v].stack@),
        }
    }
}

impl<Op> Graph<Op> {
    /// The operators of the nodes.
    pub closed spec fn ops(&self) -> Seq<Op> {
        Seq::new(self.nodes@.len(), |v: int| self.nodes@[v].op)
    }

    /// The graph is acyclic, no pass is under way at any node, and the
    /// number of edges is below `usize::MAX`.
    pub closed spec fn wf(&self) -> bool {
        &&& acyclic(self@.edges)
        &&& forall|v: int| 0 <= v < self.nodes@.len() ==> (#[trigger] self.nodes@[v]).stack@.levels.len() == 0
        &&& self.edge_count == total_edges(self@.edges)
        &&& self.edge_count < usize::MAX
    }

    /// What well-formedness says of the shape: every input of a node comes
    /// before the node, every node has its operator and its stack, and no
    /// stack holds a level.
    pub proof fn lemma_wf(&self)
        requires
            self.wf(),
        ensures
            acyclic(self@.edges),
            self@.stacks.len() == self@.edges.len(),
            self.ops().len() == self@.edges.len(),
            forall|v: int| 0 <= v < self@.stacks.len() ==> (#[trigger] self@.stacks[v]).levels.len() == 0,
    {
    }

    /// A graph without nodes.
    pub fn new() -> (graph: Graph<Op>)
        ensures
            graph.wf(),
            graph@.edges.len() == 0,
            total_edges(graph@.edges) == 0,
    {
        let graph = Graph { nodes: Vec::new(), edge_count: 0 };
        assert(graph@.edges =~= Seq::<Seq<usize>>::empty());
        graph
    }

    /// The number of nodes.
    pub fn len(&self) -> (n: usize)
        ensures
            n == self@.edges.len(),
    {
        self.nodes.len()
    }

    /// The operator of node `v`.
    pub fn op(&self, v: usize) -> (op: &Op)
        requires
            v < self@.edges.len(),
        ensures
            *op == self.ops()[v as int],
    {
        &self.nodes[v].op
    }

    /// The inputs of node `v`.
    pub fn inputs(&self, v: usize) -> (inputs: &Vec<usize>)
        requires
            v < self@.edges.len(),
        ensures
            inputs@ == self@.edges[v as int],
    {
        &self.nodes[v].inputs
    }

    fn _push(
        &mut self,
        v: usize,
        epoch: Epoch,
        order: &mut Vec<usize>,
        Ghost(base): Ghost<Seq<Node<Op>>>,
        Ghost(counts): Ghost<Seq<nat>>,
    )
        requires
            acyclic(edges_of(base)),
            v < base.len(),
            tracks(old(self).nodes@, base, epoch, counts, counts),
            load(edges_of(base), counts, base.len()) < usize::MAX,
        ensures
            tracks(
                final(self).nodes@,
                base,
                epoch,
                push_visit(edges_of(base), counts, v as int).0,
                push_visit(edges_of(base), counts, v as int).0,
            ),
            final(order)@ == old(order)@ + push_visit(edges_of(base), counts, v as int).1,
            final(self).edge_count == old(self).edge_count,
        decreases v,
    {
        let ghost edges = edges_of(base);
        proof {
            lemma_load_bounds(edges, counts, base.len(), v as int);
            assert(old(self).nodes@[v as int].stack@.levels == counted(epoch, counts[v as int], counts[v as int]));
        }
        let count = self.nodes[v].stack.push(epoch);
        let ghost entered = counts.update(v as int, counts[v as int] + 1);
        proof {
            assert(self.nodes@[v as int].stack@.levels =~= counted(epoch, entered[v as int], entered[v as int]));
            assert(tracks(self.nodes@, base, epoch, entered, entered));
        }
        if count == 1 {
            let n_inputs = self.nodes[v].inputs.len();
            let mut k: usize = 0;
            let ghost mut reached = entered;
            let ghost mut fired = Seq::<usize>::empty();
            proof {
                assert(old(order)@ + fired =~= old(order)@);
                lemma_load_update(edges, counts, base.len(), v as int, 1);
            }
            while k < n_inputs
                invariant
                    acyclic(edges),
                    edges == edges_of(base),
                    v < base.len(),
                    n_inputs == edges[v as int].len(),
                    k <= n_inputs,
                    entered.len() == base.len(),
                    tracks(self.nodes@, base, epoch, reached, reached),
                    (reached, fired) == push_inputs(edges, entered, v as int, k as nat),
                    order@ == old(order)@ + fired,
                    load(edges, entered, base.len()) + n_inputs <= usize::MAX,
                    self.edge_count == old(self).edge_count,
                decreases n_inputs - k,
            {
                let u = self.nodes[v].inputs[k];
                proof {
                    assert(self.nodes@[v as int].inputs == base[v as int].inputs);
                    assert(u == edges[v as int][k as int]);
                    lemma_push_inputs_load(edges, entered, v as int, k as nat);
                    lemma_push_inputs_frame(edges, entered, v as int, k as nat);
                }
                self._push(u, epoch, order, Ghost(base), Ghost(reached));
                proof {
                    let next = push_visit(edges, reached, u as int);
                    assert(old(order)@ + fired + next.1 =~= old(order)@ + (fired + next.1));
                    reached = next.0;
                    fired = fired + next.1;
                }
                k = k + 1;
            }
            order.push(v);
            proof {
                assert(old(order)@ + fired.push(v) =~= (old(order)@ + fired).push(v));
            }
        } else {
            proof {
                assert(old(order)@ + Seq::<usize>::empty() =~= old(order)@);
            }
        }
    }

    fn _pop(
        &mut self,
        v: usize,
        epoch: Epoch,
        order: &mut Vec<usize>,
        Ghost(base): Ghost<Seq<Node<Op>>>,
        Ghost(pushes): Ghost<Seq<nat>>,
        Ghost(left): Ghost<Seq<nat>>,
    )
        requires
            acyclic(edges_of(base)),
            v < base.len(),
            tracks(old(self).nodes@, base, epoch, pushes, left),
            pop_visit(edges_of(base), left, v as int).2,
        ensures
            tracks(final(self).nodes@, base, epoch, pushes, pop_visit(edges_of(base), left, v as int).0),
            final(order)@ == old(order)@ + pop_visit(edges_of(base), left, v as int).1,
            final(self).edge_count == old(self).edge_count,
        decreases v,
    {
        let ghost edges = edges_of(base);
        proof {
            assert(old(self).nodes@[v as int].stack@.levels == counted(epoch, pushes[v as int], left[v as int]));
        }
        let degree = self.nodes[v].stack.degree(epoch);
        let count = self.nodes[v].stack.pop(epoch);
        let ghost departed = left.update(v as int, (left[v as int] - 1) as nat);
        proof {
            assert(self.nodes@[v as int].stack@.levels =~= counted(epoch, pushes[v as int], departed[v as int]));
            assert(tracks(self.nodes@, base, epoch, pushes, departed));
        }
        if degree == count {
            order.push(v);
            let n_inputs = self.nodes[v].inputs.len();
            let mut k: usize = n_inputs;
            let ghost mut rest = departed;
            let ghost mut fired = seq![v];
            let ghost whole = pop_inputs(edges, departed, v as int, n_inputs as nat);
            proof {
                assert(old(order)@.push(v) =~= old(order)@ + fired);
                assert(seq![v] + whole.1 =~= fired + whole.1);
            }
            while k > 0
                invariant
                    acyclic(edges),
                    edges == edges_of(base),
                    v < base.len(),
                    n_inputs == edges[v as int].len(),
                    k <= n_inputs,
                    rest.len() == base.len(),
                    tracks(self.nodes@, base, epoch, pushes, rest),
                    pop_inputs(edges, rest, v as int, k as nat).2,
                    whole.0 == pop_inputs(edges, rest, v as int, k as nat).0,
                    seq![v] + whole.1 == fired + pop_inputs(edges, rest, v as int, k as nat).1,
                    order@ == old(order)@ + fired,
                    self.edge_count == old(self).edge_count,
                decreases k,
            {
                k = k - 1;
                let u = self.nodes[v].inputs[k];
                proof {
                    assert(self.nodes@[v as int].inputs == base[v as int].inputs);
                    assert(u == edges[v as int][k as int]);
                    lemma_pop_visit_len(edges, rest, u as int);
                }
                self._pop(u, epoch, order, Ghost(base), Ghost(pushes), Ghost(rest));
                proof {
                    let here = pop_visit(edges, rest, u as int);
                    let after = pop_inputs(edges, here.0, v as int, k as nat);
                    assert(fired + (here.1 + after.1) =~= (fired + here.1) + after.1);
                    assert(old(order)@ + fired + here.1 =~= old(order)@ + (fired + here.1));
                    rest = here.0;
                    fired = fired + here.1;
                }
            }
            proof {
                assert(fired + Seq::<usize>::empty() =~= fired);
            }
        } else {
            proof {
                assert(old(order)@ + Seq::<usize>::empty() =~= old(order)@);
            }
        }
    }

    /// One pass from `root` under `epoch`, down and back: the order in
    /// which the nodes fire after their first arrival, and the order in
    /// which they fire on their last departure.
    fn round_trip(&mut self, root: usize, epoch: Epoch) -> (orders: (Vec<usize>, Vec<usize>))
        requires
            old(self).wf(),
            root < old(self)@.edges.len(),
        ensures
            final(self).wf(),
            final(self)@ == old(self)@,
            final(self).ops() == old(self).ops(),
            orders.0@ == forward_order(old(self)@.edges, root as int),
            orders.1@ == reverse_order(old(self)@.edges, root as int),
    {
        let mut forth: Vec<usize> = Vec::new();
        let mut back: Vec<usize> = Vec::new();
        let ghost base = self.nodes@;
        let ghost edges = edges_of(base);
        let ghost none = idle(base.len());
        let ghost counts = push_visit(edges, none, root as int).0;
        proof {
            assert forall|v: int| 0 <= v < base.len() implies (#[trigger] base[v]).stack@ == (StackView {
                levels: counted(epoch, none[v], none[v]),
                ..base[v].stack@
            }) by {
                assert(base[v].stack@.levels =~= counted(epoch, none[v], none[v]));
            }
            lemma_pass_returns(edges, root as int);
            lemma_push_visit_frame(edges, none, root as int);
        }
        self._push(root, epoch, &mut forth, Ghost(base), Ghost(none));
        self._pop(root, epoch, &mut back, Ghost(base), Ghost(counts), Ghost(counts));
        proof {
            assert(forth@ =~= forward_order(edges, root as int));
            assert(back@ =~= reverse_order(edges, root as int));
            assert(self@.edges =~= old(self)@.edges);
            assert(self@.stacks =~= old(self)@.stacks) by {
                assert forall|v: int| 0 <= v < base.len() implies self.nodes@[v].stack@ == base[v].stack@ by {
                    assert(self.nodes@[v].stack@.levels =~= base[v].stack@.levels);
                }
            }
            assert(self.ops() =~= old(self).ops());
        }
        (forth, back)
    }

    /// The order in which a forward pass from `root` fires the nodes: every
    /// node that `root` reaches, once, after each of its inputs. The pass
    /// counts its arrivals and departures under `epoch`, and leaves every
    /// stack as it found it.
    pub fn forward_order(&mut self, root: usize, epoch: Epoch) -> (order: Vec<usize>)
        requires
            old(self).wf(),
            root < old(self)@.edges.len(),
        ensures
            final(self).wf(),
            final(self)@ == old(self)@,
            final(self).ops() == old(self).ops(),
            order@ == forward_order(old(self)@.edges, root as int),
            order@.no_duplicates(),
            forall|v: int|
                order@.contains(v as usize) && 0 <= v < old(self)@.edges.len() <==> reaches(
                    old(self)@.edges,
                    root as int,
                    v,
                ),
            forall|i: int, k: int|
                0 <= i < order@.len() && 0 <= k < old(self)@.edges[order@[i] as int].len() ==> among(
                    order@,
                    i,
                    (#[trigger] old(self)@.edges[order@[i] as int][k]) as int,
                ),
    {
        let orders = self.round_trip(root, epoch);
        proof {
            let edges = old(self)@.edges;
            lemma_forward_order_fires_once(edges, root as int);
            assert forall|v: int|
                orders.0@.contains(v as usize) && 0 <= v < edges.len() <==> reaches(edges, root as int, v) by {
                lemma_forward_order_covers(edges, root as int, v);
            }
            assert forall|i: int, k: int|
                0 <= i < orders.0@.len() && 0 <= k < edges[orders.0@[i] as int].len() implies among(
                orders.0@,
                i,
                (#[trigger] edges[orders.0@[i] as int][k]) as int,
            ) by {
                lemma_forward_order_inputs_first(edges, root as int, i, k);
            }
        }
        orders.0
    }

    /// The order in which a reverse pass from `root` fires the nodes: every
    /// node that `root` reaches, once, before each of its inputs. This is
    /// the forward order reversed. The pass counts its arrivals and
    /// departures under `epoch`, and leaves every stack as it found it.
    pub fn reverse_order(&mut self, root: usize, epoch: Epoch) -> (order: Vec<usize>)
        requires
            old(self).wf(),
            root < old(self)@.edges.len(),
        ensures
            final(self).wf(),
            final(self)@ == old(self)@,
            final(self).ops() == old(self).ops(),
            order@ == reverse_order(old(self)@.edges, root as int),
            order@.no_duplicates(),
            forall|v: int|
                order@.contains(v as usize) && 0 <= v < old(self)@.edges.len() <==> reaches(
                    old(self)@.edges,
                    root as int,
                    v,
                ),
            forall|i: int, k: int|
                0 <= i < order@.len() && 0 <= k < old(self)@.edges[order@[i] as int].len() ==> beyond(
                    order@,
                    i,
                    (#[trigger] old(self)@.edges[order@[i] as int][k]) as int,
                ),
    {
        let orders = self.round_trip(root, epoch);
        proof {
            let edges = old(self)@.edges;
            lemma_reverse_order_covers(edges, root as int);
            assert forall|i: int, k: int|
                0 <= i < orders.1@.len() && 0 <= k < edges[orders.1@[i] as int].len() implies beyond(
                orders.1@,
                i,
                (#[trigger] edges[orders.1@[i] as int][k]) as int,
            ) by {
                lemma_reverse_order_inputs_last(edges, root as int, i, k);
            }
        }
        orders.1
    }
}

impl<Op: DiffOperator> Graph<Op> {
    /// Adds a node with the operator `op` and edges to `inputs`, in the
    /// order of the operands, and returns its index. The node's stack is
    /// empty and kept under the identifier that the operator gives of
    /// itself. Nothing is added, and `None` is returned, if an input is not
    /// a node of the graph, or if the graph cannot count one more node or
    /// that many more edges.
    pub fn add(&mut self, op: Op, inputs: Vec<usize>) -> (node: Option<usize>)
        requires
            old(self).wf(),
        ensures
            final(self).wf(),
            node is Some <==> {
                &&& forall|k: int| 0 <= k < inputs@.len() ==> inputs@[k] < old(self)@.edges.len()
                &&& old(self)@.edges.len() < usize::MAX
                &&& total_edges(old(self)@.edges) + inputs@.len() < usize::MAX
            },
            node is None ==> final(self)@ == old(self)@ && final(self).ops() == old(self).ops(),
            node is Some ==> {
                &&& node.unwrap() == old(self)@.edges.len()
                &&& final(self)@.edges == old(self)@.edges.push(inputs@)
                &&& total_edges(final(self)@.edges) == total_edges(old(self)@.edges) + inputs@.len()
                &&& final(self).ops() == old(self).ops().push(op)
                &&& final(self)@.stacks.len() == old(self)@.stacks.len() + 1
                &&& forall|v: int| 0 <= v < old(self)@.stacks.len() ==> final(self)@.stacks[v] == old(self)@.stacks[v]
                &&& final(self)@.stacks.last().levels.len() == 0
                &&& final(self)@.stacks.last().in_degree == inputs@.len()
                &&& call_ensures(Op::_id, (&op,), final(self)@.stacks.last().node_id)
            },
    {
        let n = self.nodes.len();
        if n == usize::MAX || inputs.len() >= usize::MAX - self.edge_count {
            return None;
        }
        let mut k: usize = 0;
        while k < inputs.len()
            invariant
                k <= inputs@.len(),
                forall|j: int| 0 <= j < k ==> inputs@[j] < n,
                n == old(self)@.edges.len(),
                *self == *old(self),
                self.wf(),
            decreases inputs@.len() - k,
        {
            if inputs[k] >= n {
                assert(!(inputs@[k as int] < old(self)@.edges.len()));
                return None;
            }
            k = k + 1;
        }
        let stack = OperatorStack::new(op._id(), inputs.len());
        let ghost before = old(self)@.edges;
        let ghost after = before.push(inputs@);
        self.edge_count = self.edge_count + inputs.len();
        self.nodes.push(Node { op: op, stack: stack, inputs: inputs });
        proof {
            assert(self@.edges =~= after);
            assert(self.ops() =~= old(self).ops().push(op));
            lemma_load_prefix(before, idle(before.len()), after, idle(after.len()), before.len());
            assert(load(after, idle(after.len()), after.len()) == load(after, idle(after.len()), before.len())
                + after[before.len() as int].len());
            assert(acyclic(after)) by {
                assert forall|v: int, j: int| 0 <= v < after.len() && 0 <= j < after[v].len() implies (
                #[trigger] after[v][j]) < v by {
                    if v < before.len() {
                        assert(after[v] == before[v]);
                    }
                }
            }
        }
        Some(n)
    }
}

} // verus!
