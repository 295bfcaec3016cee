//! The order in which a pass over the graph fires the nodes' hooks.
//!
//! A pass starts at a root and walks the edges from each node to its
//! inputs. Going down, every arrival at a node is counted, and only the
//! first arrival walks on to the node's inputs. Coming back, every
//! departure is counted off, and only the departure that brings the count
//! back to zero walks on. The way back retraces the way down in reverse, so
//! the nodes that fire on their last departure fire in the reverse of the
//! order in which they fired after their first arrival.

use vstd::prelude::*;

verus! {

/// Every input of a node is a node that comes before it, so that the graph
/// has no cycle; and the nodes can be numbered in a `usize`.
pub open spec fn acyclic(edges: Seq<Seq<usize>>) -> bool {
    &&& edges.len() <= usize::MAX
    &&& forall|v: int, k: int|
        0 <= v < edges.len() && 0 <= k < edges[v].len() ==> (#[trigger] edges[v][k]) < v
}

/// No arrival counted at any of `n` nodes.
pub open spec fn idle(n: nat) -> Seq<nat> {
    Seq::new(n, |v: int| 0nat)
}

/// The counts and the firing order after one arrival at `v`: an arrival at
/// a node that was reached before only counts; the first arrival also
/// arrives at each input in turn, and then `v` fires.
pub open spec fn push_visit(edges: Seq<Seq<usize>>, counts: Seq<nat>, v: int) -> (Seq<nat>, Seq<usize>)
    decreases v, edges[v].len() + 1,
{
    if !(0 <= v < edges.len()) || counts.len() != edges.len() {
        (counts, Seq::empty())
    } else if counts[v] > 0 {
        (counts.update(v, counts[v] + 1), Seq::empty())
    } else {
        let (after, order) = push_inputs(edges, counts.update(v, 1), v, edges[v].len());
        (after, order.push(v as usize))
    }
}

/// The counts and the firing order after arrivals at the first `k` inputs
/// of `v`, in their order.
pub open spec fn push_inputs(edges: Seq<Seq<usize>>, counts: Seq<nat>, v: int, k: nat) -> (
    Seq<nat>,
    Seq<usize>,
)
    decreases v, k,
{
    if !(0 <= v < edges.len()) || k == 0 || k > edges[v].len() {
        (counts, Seq::empty())
    } else {
        let (before, fired) = push_inputs(edges, counts, v, (k - 1) as nat);
        let u = edges[v][k - 1];
        if u < v {
            let (after, order) = push_visit(edges, before, u as int);
            (after, fired + order)
        } else {
            (before, fired)
        }
    }
}

/// The counts and the firing order after one departure from `v`, and
/// whether every departure on the way found an arrival to count off. A
/// departure that leaves arrivals outstanding only counts; the last one
/// fires `v` and then departs from each input, the last input first.
pub open spec fn pop_visit(edges: Seq<Seq<usize>>, counts: Seq<nat>, v: int) -> (Seq<nat>, Seq<usize>, bool)
    decreases v, edges[v].len() + 1,
{
    if !(0 <= v < edges.len()) || counts.len() != edges.len() || counts[v] == 0 {
        (counts, Seq::empty(), false)
    } else if counts[v] > 1 {
        (counts.update(v, (counts[v] - 1) as nat), Seq::empty(), true)
    } else {
        let (after, order, ok) = pop_inputs(edges, counts.update(v, 0), v, edges[v].len());
        (after, seq![v as usize] + order, ok)
    }
}

/// The counts and the firing order after departures from the first `k`
/// inputs of `v`, the last of them first.
pub open spec fn pop_inputs(edges: Seq<Seq<usize>>, counts: Seq<nat>, v: int, k: nat) -> (
    Seq<nat>,
    Seq<usize>,
    bool,
)
    decreases v, k,
{
    if !(0 <= v < edges.len()) || k == 0 || k > edges[v].len() {
        (counts, Seq::empty(), true)
    } else {
        let u = edges[v][k - 1];
        if u < v {
            let (before, fired, ok_here) = pop_visit(edges, counts, u as int);
            let (after, order, ok_rest) = pop_inputs(edges, before, v, (k - 1) as nat);
            (after, fired + order, ok_here && ok_rest)
        } else {
            (counts, Seq::empty(), false)
        }
    }
}

/// The order in which a forward pass from `root` fires: each node after its
/// first arrival, once its inputs have fired.
pub open spec fn forward_order(edges: Seq<Seq<usize>>, root: int) -> Seq<usize> {
    push_visit(edges, idle(edges.len()), root).1
}

/// The order in which a reverse pass from `root` fires: each node on its
/// last departure, before its inputs.
pub open spec fn reverse_order(edges: Seq<Seq<usize>>, root: int) -> Seq<usize> {
    forward_order(edges, root).reverse()
}

/// Whether `to` can be reached from `from` along edges from nodes to their
/// inputs.
pub open spec fn reaches(edges: Seq<Seq<usize>>, from: int, to: int) -> bool
    decreases from,
{
    &&& 0 <= from < edges.len()
    &&& (from == to || exists|k: int|
        0 <= k < edges[from].len() && (#[trigger] edges[from][k]) < from && reaches(
            edges,
            edges[from][k] as int,
            to,
        ))
}

/// Arrivals change nothing above the node they start from, count no node
/// down, keep the number of counts, and fire only nodes from the one they
/// start from downwards.
pub proof fn lemma_push_visit_frame(edges: Seq<Seq<usize>>, counts: Seq<nat>, v: int)
    ensures
        push_visit(edges, counts, v).0.len() == counts.len(),
        forall|u: int| v < u < counts.len() ==> push_visit(edges, counts, v).0[u] == counts[u],
        forall|u: int| 0 <= u < counts.len() ==> push_visit(edges, counts, v).0[u] >= counts[u],
        forall|i: int|
            0 <= i < push_visit(edges, counts, v).1.len() ==> (#[trigger] push_visit(edges, counts, v).1[i])
                <= v,
    decreases v, edges[v].len() + 1,
{
    if 0 <= v < edges.len() && counts.len() == edges.len() && counts[v] == 0 {
        let entered = counts.update(v, 1);
        lemma_push_inputs_frame(edges, entered, v, edges[v].len());
        let (after, order) = push_inputs(edges, entered, v, edges[v].len());
        assert(push_visit(edges, counts, v).0 == after);
        assert forall|u: int| 0 <= u < counts.len() implies after[u] >= counts[u] by {
            assert(after[u] >= entered[u]);
        }
        assert forall|u: int| v < u < counts.len() implies after[u] == counts[u] by {
            assert(after[u] == entered[u]);
        }
    }
}

/// Arrivals at the inputs of `v` change nothing from `v` upwards, count no
/// node down, keep the number of counts, and fire only nodes below `v`.
pub proof fn lemma_push_inputs_frame(edges: Seq<Seq<usize>>, counts: Seq<nat>, v: int, k: nat)
    ensures
        push_inputs(edges, counts, v, k).0.len() == counts.len(),
        forall|u: int| v <= u < counts.len() ==> push_inputs(edges, counts, v, k).0[u] == counts[u],
        forall|u: int| 0 <= u < counts.len() ==> push_inputs(edges, counts, v, k).0[u] >= counts[u],
        forall|i: int|
            0 <= i < push_inputs(edges, counts, v, k).1.len() ==> (#[trigger] push_inputs(
                edges,
                counts,
                v,
                k,
            ).1[i]) < v,
    decreases v, k,
{
    if 0 <= v < edges.len() && 0 < k <= edges[v].len() {
        lemma_push_inputs_frame(edges, counts, v, (k - 1) as nat);
        let (before, fired) = push_inputs(edges, counts, v, (k - 1) as nat);
        let u = edges[v][k - 1];
        if u < v {
            lemma_push_visit_frame(edges, before, u as int);
        }
    }
}

/// A departure from `v` neither reads nor changes a count above `v`.
pub proof fn lemma_pop_visit_above(edges: Seq<Seq<usize>>, counts: Seq<nat>, v: int, w: int, x: nat)
    requires
        0 <= w,
        v < w < counts.len(),
    ensures
        pop_visit(edges, counts.update(w, x), v) == (
            pop_visit(edges, counts, v).0.update(w, x),
            pop_visit(edges, counts, v).1,
            pop_visit(edges, counts, v).2,
        ),
    decreases v, edges[v].len() + 1,
{
    if 0 <= v < edges.len() && counts.len() == edges.len() && counts[v] > 0 {
        if counts[v] > 1 {
            assert(counts.update(w, x).update(v, (counts[v] - 1) as nat) =~= counts.update(
                v,
                (counts[v] - 1) as nat,
            ).update(w, x));
        } else {
            assert(counts.update(w, x).update(v, 0) =~= counts.update(v, 0).update(w, x));
            lemma_pop_inputs_above(edges, counts.update(v, 0), v, edges[v].len(), w, x);
        }
    }
}

/// Departures from the inputs of `v` neither read nor change a count from
/// `v` upwards.
pub proof fn lemma_pop_inputs_above(
    edges: Seq<Seq<usize>>,
    counts: Seq<nat>,
    v: int,
    k: nat,
    w: int,
    x: nat,
)
    requires
        0 <= w,
        v <= w < counts.len(),
    ensures
        pop_inputs(edges, counts.update(w, x), v, k) == (
            pop_inputs(edges, counts, v, k).0.update(w, x),
            pop_inputs(edges, counts, v, k).1,
            pop_inputs(edges, counts, v, k).2,
        ),
    decreases v, k,
{
    if 0 <= v < edges.len() && 0 < k <= edges[v].len() {
        let u = edges[v][k - 1];
        if u < v {
            lemma_pop_visit_above(edges, counts, u as int, w, x);
            let (before, fired, ok_here) = pop_visit(edges, counts, u as int);
            lemma_pop_visit_len(edges, counts, u as int);
            lemma_pop_inputs_above(edges, before, v, (k - 1) as nat, w, x);
        }
    }
}

/// Departures keep the number of counts.
pub proof fn lemma_pop_visit_len(edges: Seq<Seq<usize>>, counts: Seq<nat>, v: int)
    ensures
        pop_visit(edges, counts, v).0.len() == counts.len(),
    decreases v, edges[v].len() + 1,
{
    if 0 <= v < edges.len() && counts.len() == edges.len() && counts[v] == 1 {
        lemma_pop_inputs_len(edges, counts.update(v, 0), v, edges[v].len());
    }
}

/// Departures from the inputs of a node keep the number of counts.
pub proof fn lemma_pop_inputs_len(edges: Seq<Seq<usize>>, counts: Seq<nat>, v: int, k: nat)
    ensures
        pop_inputs(edges, counts, v, k).0.len() == counts.len(),
    decreases v, k,
{
    if 0 <= v < edges.len() && 0 < k <= edges[v].len() {
        let u = edges[v][k - 1];
        if u < v {
            lemma_pop_visit_len(edges, counts, u as int);
            lemma_pop_inputs_len(edges, pop_visit(edges, counts, u as int).0, v, (k - 1) as nat);
        }
    }
}

/// One departure from `v` undoes one arrival at `v`: it brings back the
/// counts from before the arrival, finds an arrival to count off at every
/// step, and fires the same nodes in the reverse order.
pub proof fn lemma_pop_undoes_push(edges: Seq<Seq<usize>>, counts: Seq<nat>, v: int)
    requires
        acyclic(edges),
        0 <= v < edges.len(),
        counts.len() == edges.len(),
    ensures
        pop_visit(edges, push_visit(edges, counts, v).0, v) == (
            counts,
            push_visit(edges, counts, v).1.reverse(),
            true,
        ),
    decreases v, edges[v].len() + 1,
{
    if counts[v] > 0 {
        assert(counts.update(v, counts[v] + 1).update(v, counts[v]) =~= counts);
        assert(Seq::<usize>::empty().reverse() =~= Seq::<usize>::empty());
    } else {
        let entered = counts.update(v, 1);
        let (after, order) = push_inputs(edges, entered, v, edges[v].len());
        lemma_push_inputs_frame(edges, entered, v, edges[v].len());
        lemma_pop_inputs_undo_push(edges, entered, v, edges[v].len());
        lemma_pop_inputs_above(edges, after, v, edges[v].len(), v, 0);
        assert(after[v] == entered[v]);
        assert(after.update(v, 1) =~= after);
        assert(entered.update(v, 0) =~= counts);
        assert(seq![v as usize] + order.reverse() =~= order.push(v as usize).reverse());
    }
}

/// Departures from the first `k` inputs of `v`, the last of them first,
/// undo arrivals at these inputs in their order.
pub proof fn lemma_pop_inputs_undo_push(edges: Seq<Seq<usize>>, counts: Seq<nat>, v: int, k: nat)
    requires
        acyclic(edges),
        0 <= v < edges.len(),
        k <= edges[v].len(),
        counts.len() == edges.len(),
    ensures
        pop_inputs(edges, push_inputs(edges, counts, v, k).0, v, k) == (
            counts,
            push_inputs(edges, counts, v, k).1.reverse(),
            true,
        ),
    decreases v, k,
{
    if k == 0 {
        assert(Seq::<usize>::empty().reverse() =~= Seq::<usize>::empty());
    } else {
        let (before, fired) = push_inputs(edges, counts, v, (k - 1) as nat);
        let u = edges[v][k - 1];
        let (after, order) = push_visit(edges, before, u as int);
        lemma_push_inputs_frame(edges, counts, v, (k - 1) as nat);
        lemma_pop_undoes_push(edges, before, u as int);
        lemma_pop_inputs_undo_push(edges, counts, v, (k - 1) as nat);
        assert(order.reverse() + fired.reverse() =~= (fired + order).reverse());
    }
}

/// Whether `x` is one of the first `n` nodes of `order`.
pub open spec fn among(order: Seq<usize>, n: int, x: int) -> bool {
    exists|j: int| 0 <= j < n && j < order.len() && (#[trigger] order[j]) == x
}

/// Whether `x` is one of the nodes of `order` after the first `n + 1`.
pub open spec fn beyond(order: Seq<usize>, n: int, x: int) -> bool {
    exists|j: int| n < j < order.len() && (#[trigger] order[j]) == x
}

/// What holds of a stretch of a forward pass that took the counts from
/// `before` to `after` and fired `order`:
/// - a node has been reached afterwards if and only if it had been reached
///   before or fired in the stretch;
/// - the nodes that fired are nodes of the graph that had not been reached
///   before;
/// - no node fired twice;
/// - when a node fired, each of its inputs had been reached before the
///   stretch or had fired earlier in it.
pub open spec fn orderly(edges: Seq<Seq<usize>>, before: Seq<nat>, after: Seq<nat>, order: Seq<usize>) -> bool {
    &&& before.len() == edges.len()
    &&& after.len() == edges.len()
    &&& forall|u: int|
        0 <= u < edges.len() ==> ((#[trigger] after[u]) > 0 <==> before[u] > 0 || among(order, order.len() as int, u))
    &&& forall|i: int|
        0 <= i < order.len() ==> (#[trigger] order[i]) < edges.len() && before[order[i] as int] == 0
    &&& order.no_duplicates()
    &&& forall|i: int, k: int|
        0 <= i < order.len() && 0 <= k < edges[order[i] as int].len() ==> before[(
        #[trigger] edges[order[i] as int][k]) as int] > 0 || among(order, i, edges[order[i] as int][k] as int)
}

proof fn lemma_among_concat(first: Seq<usize>, second: Seq<usize>, n: int, x: int)
    ensures
        n <= first.len() ==> (among(first + second, n, x) <==> among(first, n, x)),
        n >= 0 ==> (among(first + second, first.len() + n, x) <==> among(first, first.len() as int, x) || among(
            second,
            n,
            x,
        )),
{
    let both = first + second;
    if n <= first.len() {
        if among(first, n, x) {
            let j = choose|j: int| 0 <= j < n && j < first.len() && (#[trigger] first[j]) == x;
            assert(both[j] == x);
        }
        if among(both, n, x) {
            let j = choose|j: int| 0 <= j < n && j < both.len() && (#[trigger] both[j]) == x;
            assert(first[j] == x);
        }
    }
    if n >= 0 {
        if among(first, first.len() as int, x) {
            let j = choose|j: int| 0 <= j < first.len() && j < first.len() && (#[trigger] first[j]) == x;
            assert(both[j] == x);
        }
        if among(second, n, x) {
            let j = choose|j: int| 0 <= j < n && j < second.len() && (#[trigger] second[j]) == x;
            assert(both[first.len() + j] == x);
        }
        if among(both, first.len() + n, x) {
            let j = choose|j: int| 0 <= j < first.len() + n && j < both.len() && (#[trigger] both[j]) == x;
            if j < first.len() {
                assert(first[j] == x);
            } else {
                assert(second[j - first.len()] == x);
            }
        }
    }
}

proof fn lemma_among_push(order: Seq<usize>, v: usize, n: int, x: int)
    ensures
        n <= order.len() ==> (among(order.push(v), n, x) <==> among(order, n, x)),
        among(order.push(v), order.len() as int + 1, x) <==> among(order, order.len() as int, x) || x == v,
{
    assert(order.push(v) =~= order + seq![v]);
    lemma_among_concat(order, seq![v], n, x);
    lemma_among_concat(order, seq![v], 1, x);
    if x == v {
        assert(seq![v][0] == x);
    }
}

/// One arrival at `v`, whatever the counts were, makes an orderly stretch
/// of the pass, leaves `v` reached, and fires only nodes that `v` reaches.
pub proof fn lemma_push_visit_orderly(edges: Seq<Seq<usize>>, counts: Seq<nat>, v: int)
    requires
        acyclic(edges),
        0 <= v < edges.len(),
        counts.len() == edges.len(),
    ensures
        orderly(edges, counts, push_visit(edges, counts, v).0, push_visit(edges, counts, v).1),
        push_visit(edges, counts, v).0[v] > 0,
        forall|i: int|
            0 <= i < push_visit(edges, counts, v).1.len() ==> reaches(
                edges,
                v,
                (#[trigger] push_visit(edges, counts, v).1[i]) as int,
            ),
    decreases v, edges[v].len() + 1,
{
    let (after, order) = push_visit(edges, counts, v);
    if counts[v] > 0 {
        assert forall|u: int| 0 <= u < edges.len() implies ((#[trigger] after[u]) > 0 <==> counts[u] > 0 || among(
            order,
            order.len() as int,
            u,
        )) by {}
    } else {
        let entered = counts.update(v, 1);
        let (reached, fired) = push_inputs(edges, entered, v, edges[v].len());
        lemma_push_inputs_orderly(edges, entered, v, edges[v].len());
        lemma_push_inputs_frame(edges, entered, v, edges[v].len());
        assert(reached[v] == entered[v]);
        assert(after == reached);
        assert(order == fired.push(v as usize));
        assert forall|u: int| 0 <= u < edges.len() implies ((#[trigger] after[u]) > 0 <==> counts[u] > 0 || among(
            order,
            order.len() as int,
            u,
        )) by {
            lemma_among_push(fired, v as usize, 0, u);
        }
        assert forall|i: int| 0 <= i < order.len() implies (#[trigger] order[i]) < edges.len() && counts[order[i] as int]
            == 0 by {
            if i < fired.len() {
                assert(fired[i] < v);
                assert(entered[fired[i] as int] == 0);
            }
        }
        assert forall|i: int, j: int| 0 <= i < order.len() && 0 <= j < order.len() && i != j implies order[i]
            != order[j] by {
            if i < fired.len() {
                assert(fired[i] < v);
            }
            if j < fired.len() {
                assert(fired[j] < v);
            }
        }
        assert forall|i: int, k: int| 0 <= i < order.len() && 0 <= k < edges[order[i] as int].len() implies counts[(
        #[trigger] edges[order[i] as int][k]) as int] > 0 || among(order, i, edges[order[i] as int][k] as int) by {
            let x = edges[order[i] as int][k];
            lemma_among_push(fired, v as usize, i, x as int);
            if i < fired.len() {
                assert(fired[i] < v);
                assert(entered[x as int] > 0 || among(fired, i, x as int));
            } else {
                assert(reached[x as int] > 0);
                assert(entered[x as int] > 0 || among(fired, fired.len() as int, x as int));
            }
        }
        assert forall|i: int| 0 <= i < order.len() implies reaches(edges, v, (#[trigger] order[i]) as int) by {
            if i < fired.len() {
                assert(reaches(edges, v, fired[i] as int));
            }
        }
    }
}

/// Arrivals at the first `k` inputs of `v` make an orderly stretch of the
/// pass, leave these inputs reached, and fire only nodes that `v` reaches.
pub proof fn lemma_push_inputs_orderly(edges: Seq<Seq<usize>>, counts: Seq<nat>, v: int, k: nat)
    requires
        acyclic(edges),
        0 <= v < edges.len(),
        k <= edges[v].len(),
        counts.len() == edges.len(),
    ensures
        orderly(edges, counts, push_inputs(edges, counts, v, k).0, push_inputs(edges, counts, v, k).1),
        forall|j: int| 0 <= j < k ==> push_inputs(edges, counts, v, k).0[(#[trigger] edges[v][j]) as int] > 0,
        forall|i: int|
            0 <= i < push_inputs(edges, counts, v, k).1.len() ==> reaches(
                edges,
                v,
                (#[trigger] push_inputs(edges, counts, v, k).1[i]) as int,
            ),
    decreases v, k,
{
    let (after, order) = push_inputs(edges, counts, v, k);
    if k == 0 {
        assert forall|u: int| 0 <= u < edges.len() implies ((#[trigger] after[u]) > 0 <==> counts[u] > 0 || among(
            order,
            order.len() as int,
            u,
        )) by {}
    } else {
        let (before, first) = push_inputs(edges, counts, v, (k - 1) as nat);
        let u = edges[v][k - 1];
        let (reached, second) = push_visit(edges, before, u as int);
        lemma_push_inputs_orderly(edges, counts, v, (k - 1) as nat);
        lemma_push_inputs_frame(edges, counts, v, (k - 1) as nat);
        lemma_push_visit_orderly(edges, before, u as int);
        lemma_push_visit_frame(edges, before, u as int);
        assert(after == reached);
        assert(order == first + second);
        assert forall|x: int| 0 <= x < edges.len() implies ((#[trigger] after[x]) > 0 <==> counts[x] > 0 || among(
            order,
            order.len() as int,
            x,
        )) by {
            lemma_among_concat(first, second, second.len() as int, x);
            assert(before[x] > 0 <==> counts[x] > 0 || among(first, first.len() as int, x));
        }
        assert forall|i: int| 0 <= i < order.len() implies (#[trigger] order[i]) < edges.len() && counts[order[i] as int]
            == 0 by {
            if i >= first.len() {
                let x = second[i - first.len()];
                assert(before[x as int] == 0);
                assert(before[x as int] > 0 <==> counts[x as int] > 0 || among(first, first.len() as int, x as int));
            }
        }
        assert forall|i: int, j: int| 0 <= i < first.len() && 0 <= j < second.len() implies first[i] != second[j] by {
            let x = first[i];
            assert(among(first, first.len() as int, x as int));
            assert(before[x as int] > 0);
            assert(before[second[j] as int] == 0);
        }
        vstd::seq_lib::lemma_no_dup_in_concat(first, second);
        assert forall|i: int, m: int| 0 <= i < order.len() && 0 <= m < edges[order[i] as int].len() implies counts[(
        #[trigger] edges[order[i] as int][m]) as int] > 0 || among(order, i, edges[order[i] as int][m] as int) by {
            let x = edges[order[i] as int][m];
            if i < first.len() {
                lemma_among_concat(first, second, i, x as int);
                assert(counts[(edges[first[i] as int][m]) as int] > 0 || among(first, i, x as int));
            } else {
                let j = i - first.len();
                lemma_among_concat(first, second, j, x as int);
                assert(second[j] < edges.len());
                assert(before[(edges[second[j] as int][m]) as int] > 0 || among(second, j, x as int));
                assert(before[x as int] > 0 <==> counts[x as int] > 0 || among(first, first.len() as int, x as int));
            }
        }
        assert forall|j: int| 0 <= j < k implies after[(#[trigger] edges[v][j]) as int] > 0 by {
            if j < k - 1 {
                assert(before[edges[v][j] as int] > 0);
            }
        }
        assert forall|i: int| 0 <= i < order.len() implies reaches(edges, v, (#[trigger] order[i]) as int) by {
            if i >= first.len() {
                assert(reaches(edges, u as int, second[i - first.len()] as int));
                assert(edges[v][k - 1] < v);
            }
        }
    }
}

proof fn lemma_idle_orderly(edges: Seq<Seq<usize>>, root: int)
    requires
        acyclic(edges),
        0 <= root < edges.len(),
    ensures
        orderly(edges, idle(edges.len()), push_visit(edges, idle(edges.len()), root).0, forward_order(edges, root)),
        among(forward_order(edges, root), forward_order(edges, root).len() as int, root),
        forall|i: int|
            0 <= i < forward_order(edges, root).len() ==> reaches(
                edges,
                root,
                (#[trigger] forward_order(edges, root)[i]) as int,
            ),
{
    lemma_push_visit_orderly(edges, idle(edges.len()), root);
}

proof fn lemma_closed_under_reach(edges: Seq<Seq<usize>>, order: Seq<usize>, from: int, to: int)
    requires
        acyclic(edges),
        forall|i: int| 0 <= i < order.len() ==> (#[trigger] order[i]) < edges.len(),
        forall|i: int, k: int|
            0 <= i < order.len() && 0 <= k < edges[order[i] as int].len() ==> among(
                order,
                i,
                (#[trigger] edges[order[i] as int][k]) as int,
            ),
        among(order, order.len() as int, from),
        reaches(edges, from, to),
    ensures
        among(order, order.len() as int, to),
    decreases from,
{
    if from != to {
        let k = choose|k: int|
            0 <= k < edges[from].len() && (#[trigger] edges[from][k]) < from && reaches(
                edges,
                edges[from][k] as int,
                to,
            );
        let i = choose|i: int| 0 <= i < order.len() && i < order.len() && (#[trigger] order[i]) == from;
        let next = edges[order[i] as int][k];
        assert(among(order, i, next as int));
        let j = choose|j: int| 0 <= j < i && j < order.len() && (#[trigger] order[j]) == next;
        assert(order[j] == next);
        lemma_closed_under_reach(edges, order, next as int, to);
    }
}

/// The root fires last in a forward pass and first in a reverse pass; no
/// pass is empty.
pub proof fn lemma_order_ends_at_root(edges: Seq<Seq<usize>>, root: int)
    requires
        acyclic(edges),
        0 <= root < edges.len(),
    ensures
        forward_order(edges, root).len() > 0,
        forward_order(edges, root).last() == root,
        reverse_order(edges, root).len() == forward_order(edges, root).len(),
        reverse_order(edges, root).first() == root,
{
    let order = forward_order(edges, root);
    let back = reverse_order(edges, root);
    assert(order.len() > 0);
    assert(back.len() == order.len());
    assert(back[0] == order[order.len() - 1]);
}

/// In a forward pass no node fires twice, whatever its fan-in.
pub proof fn lemma_forward_order_fires_once(edges: Seq<Seq<usize>>, root: int)
    requires
        acyclic(edges),
        0 <= root < edges.len(),
    ensures
        forward_order(edges, root).no_duplicates(),
        forall|i: int| 0 <= i < forward_order(edges, root).len() ==> (#[trigger] forward_order(edges, root)[i]) < edges.len(),
{
    lemma_idle_orderly(edges, root);
}

/// A forward pass fires exactly the nodes that the root reaches.
pub proof fn lemma_forward_order_covers(edges: Seq<Seq<usize>>, root: int, v: int)
    requires
        acyclic(edges),
        0 <= root < edges.len(),
    ensures
        forward_order(edges, root).contains(v as usize) && 0 <= v < edges.len() <==> reaches(edges, root, v),
{
    let order = forward_order(edges, root);
    lemma_idle_orderly(edges, root);
    if reaches(edges, root, v) {
        lemma_reaches_in_range(edges, root, v);
        assert forall|i: int, k: int| 0 <= i < order.len() && 0 <= k < edges[order[i] as int].len() implies among(
            order,
            i,
            (#[trigger] edges[order[i] as int][k]) as int,
        ) by {
            assert(idle(edges.len())[edges[order[i] as int][k] as int] == 0);
        }
        lemma_closed_under_reach(edges, order, root, v);
        let j = choose|j: int| 0 <= j < order.len() && j < order.len() && (#[trigger] order[j]) == v;
        assert(order[j] == v as usize);
    }
    if order.contains(v as usize) && 0 <= v < edges.len() {
        let j = choose|j: int| 0 <= j < order.len() && order[j] == v as usize;
        assert(reaches(edges, root, order[j] as int));
    }
}

/// Whatever a node reaches is a node of the graph, and not above it.
pub proof fn lemma_reaches_in_range(edges: Seq<Seq<usize>>, from: int, to: int)
    requires
        reaches(edges, from, to),
    ensures
        0 <= to <= from < edges.len(),
    decreases from,
{
    if from != to {
        let k = choose|k: int|
            0 <= k < edges[from].len() && (#[trigger] edges[from][k]) < from && reaches(
                edges,
                edges[from][k] as int,
                to,
            );
        lemma_reaches_in_range(edges, edges[from][k] as int, to);
    }
}

/// In a forward pass a node fires only after each of its inputs has fired.
pub proof fn lemma_forward_order_inputs_first(edges: Seq<Seq<usize>>, root: int, i: int, k: int)
    requires
        acyclic(edges),
        0 <= root < edges.len(),
        0 <= i < forward_order(edges, root).len(),
        0 <= k < edges[forward_order(edges, root)[i] as int].len(),
    ensures
        among(forward_order(edges, root), i, edges[forward_order(edges, root)[i] as int][k] as int),
{
    let order = forward_order(edges, root);
    lemma_idle_orderly(edges, root);
    let x = edges[order[i] as int][k];
    assert(idle(edges.len())[x as int] == 0);
}

/// In a reverse pass a node fires only before each of its inputs: when it
/// fires, every consumer through which the root reaches it has fired.
pub proof fn lemma_reverse_order_inputs_last(edges: Seq<Seq<usize>>, root: int, i: int, k: int)
    requires
        acyclic(edges),
        0 <= root < edges.len(),
        0 <= i < reverse_order(edges, root).len(),
        0 <= k < edges[reverse_order(edges, root)[i] as int].len(),
    ensures
        beyond(reverse_order(edges, root), i, edges[reverse_order(edges, root)[i] as int][k] as int),
{
    let order = forward_order(edges, root);
    let back = reverse_order(edges, root);
    let n = order.len() as int;
    lemma_forward_order_fires_once(edges, root);
    assert(back.len() == n);
    assert forall|a: int| 0 <= a < n implies #[trigger] back[a] == order[n - 1 - a] by {}
    assert(back[i] == order[n - 1 - i]);
    lemma_forward_order_inputs_first(edges, root, n - 1 - i, k);
    let x = edges[order[n - 1 - i] as int][k];
    let j = choose|j: int| 0 <= j < n - 1 - i && j < order.len() && (#[trigger] order[j]) == x;
    assert(back[n - 1 - j] == order[j]);
}

/// A reverse pass fires exactly the nodes that the root reaches, each once.
pub proof fn lemma_reverse_order_covers(edges: Seq<Seq<usize>>, root: int)
    requires
        acyclic(edges),
        0 <= root < edges.len(),
    ensures
        reverse_order(edges, root).no_duplicates(),
        forall|i: int| 0 <= i < reverse_order(edges, root).len() ==> (#[trigger] reverse_order(edges, root)[i]) < edges.len(),
        forall|v: int|
            reverse_order(edges, root).contains(v as usize) && 0 <= v < edges.len() <==> reaches(edges, root, v),
{
    let order = forward_order(edges, root);
    let back = reverse_order(edges, root);
    let n = order.len() as int;
    lemma_forward_order_fires_once(edges, root);
    assert(back.len() == n);
    assert forall|a: int| 0 <= a < n implies #[trigger] back[a] == order[n - 1 - a] by {}
    assert forall|v: int| back.contains(v as usize) && 0 <= v < edges.len() <==> reaches(edges, root, v) by {
        lemma_forward_order_covers(edges, root, v);
        if back.contains(v as usize) {
            let a = choose|a: int| 0 <= a < back.len() && back[a] == v as usize;
            assert(order[n - 1 - a] == v as usize);
        }
        if order.contains(v as usize) {
            let a = choose|a: int| 0 <= a < order.len() && order[a] == v as usize;
            assert(back[n - 1 - a] == v as usize);
        }
    }
}

/// A forward pass followed by the way back leaves no arrival counted at any
/// node; on the way back every departure finds an arrival to count off,
/// and the nodes fire in the reverse of the forward order.
pub proof fn lemma_pass_returns(edges: Seq<Seq<usize>>, root: int)
    requires
        acyclic(edges),
        0 <= root < edges.len(),
    ensures
        pop_visit(edges, push_visit(edges, idle(edges.len()), root).0, root) == (
            idle(edges.len()),
            reverse_order(edges, root),
            true,
        ),
{
    lemma_pop_undoes_push(edges, idle(edges.len()), root);
}

/// What node `v` adds to the bound on arrivals: the arrivals counted at it
/// if it has been reached, else the arrivals that its first arrival will
/// cause, one at each of its inputs.
pub open spec fn weight(edges: Seq<Seq<usize>>, counts: Seq<nat>, v: int) -> nat {
    if counts[v] > 0 {
        counts[v]
    } else {
        edges[v].len()
    }
}

/// The weights of the first `n` nodes together. With no node reached this
/// is the number of edges among them.
pub open spec fn load(edges: Seq<Seq<usize>>, counts: Seq<nat>, n: nat) -> nat
    decreases n,
{
    if n == 0 {
        0
    } else {
        load(edges, counts, (n - 1) as nat) + weight(edges, counts, n - 1)
    }
}

/// The number of edges of the graph.
pub open spec fn total_edges(edges: Seq<Seq<usize>>) -> nat {
    load(edges, idle(edges.len()), edges.len())
}

/// A node weighs no more than the load of the nodes up to it.
pub proof fn lemma_load_bounds(edges: Seq<Seq<usize>>, counts: Seq<nat>, n: nat, v: int)
    requires
        0 <= v < n,
    ensures
        weight(edges, counts, v) <= load(edges, counts, n),
    decreases n,
{
    if v < n - 1 {
        lemma_load_bounds(edges, counts, (n - 1) as nat, v);
    }
}

/// Changing one count changes the load by the change of that node's weight.
pub proof fn lemma_load_update(edges: Seq<Seq<usize>>, counts: Seq<nat>, n: nat, v: int, x: nat)
    requires
        0 <= v < counts.len(),
        n <= counts.len(),
    ensures
        v < n ==> load(edges, counts.update(v, x), n) + weight(edges, counts, v) == load(edges, counts, n) + weight(
            edges,
            counts.update(v, x),
            v,
        ),
        v >= n ==> load(edges, counts.update(v, x), n) == load(edges, counts, n),
    decreases n,
{
    if n > 0 {
        lemma_load_update(edges, counts, (n - 1) as nat, v, x);
    }
}

/// The load does not depend on nodes or counts from `n` upwards.
pub proof fn lemma_load_prefix(
    edges: Seq<Seq<usize>>,
    counts: Seq<nat>,
    more_edges: Seq<Seq<usize>>,
    more_counts: Seq<nat>,
    n: nat,
)
    requires
        n <= edges.len() <= more_edges.len(),
        n <= counts.len() <= more_counts.len(),
        forall|v: int| 0 <= v < n ==> edges[v] == more_edges[v] && counts[v] == more_counts[v],
    ensures
        load(edges, counts, n) == load(more_edges, more_counts, n),
    decreases n,
{
    if n > 0 {
        lemma_load_prefix(edges, counts, more_edges, more_counts, (n - 1) as nat);
    }
}

/// One arrival at `v` raises the load by one.
pub proof fn lemma_push_visit_load(edges: Seq<Seq<usize>>, counts: Seq<nat>, v: int)
    requires
        acyclic(edges),
        0 <= v < edges.len(),
        counts.len() == edges.len(),
    ensures
        load(edges, push_visit(edges, counts, v).0, edges.len()) == load(edges, counts, edges.len()) + 1,
    decreases v, edges[v].len() + 1,
{
    if counts[v] > 0 {
        lemma_load_update(edges, counts, edges.len(), v, counts[v] + 1);
    } else {
        lemma_load_update(edges, counts, edges.len(), v, 1);
        lemma_push_inputs_load(edges, counts.update(v, 1), v, edges[v].len());
    }
}

/// Arrivals at the first `k` inputs of `v` raise the load by `k`.
pub proof fn lemma_push_inputs_load(edges: Seq<Seq<usize>>, counts: Seq<nat>, v: int, k: nat)
    requires
        acyclic(edges),
        0 <= v < edges.len(),
        k <= edges[v].len(),
        counts.len() == edges.len(),
    ensures
        load(edges, push_inputs(edges, counts, v, k).0, edges.len()) == load(edges, counts, edges.len()) + k,
    decreases v, k,
{
    if k > 0 {
        lemma_push_inputs_load(edges, counts, v, (k - 1) as nat);
        lemma_push_inputs_frame(edges, counts, v, (k - 1) as nat);
        lemma_push_visit_load(edges, push_inputs(edges, counts, v, (k - 1) as nat).0, edges[v][k - 1] as int);
    }
}

/// How often `v` is among the first `k` of `inputs`.
pub open spec fn uses(inputs: Seq<usize>, k: nat, v: int) -> nat
    decreases k,
{
    if k == 0 || k > inputs.len() {
        0
    } else {
        uses(inputs, (k - 1) as nat, v) + if inputs[k - 1] == v {
            1nat
        } else {
            0nat
        }
    }
}

/// The number of edges into `v` from those of the first `n` nodes that have
/// been reached.
pub open spec fn arrivals(edges: Seq<Seq<usize>>, counts: Seq<nat>, n: nat, v: int) -> nat
    decreases n,
{
    if n == 0 {
        0
    } else {
        arrivals(edges, counts, (n - 1) as nat, v) + if counts[n - 1] > 0 {
            uses(edges[n - 1], edges[n - 1].len(), v)
        } else {
            0nat
        }
    }
}

/// The number of edges into `v` from those of the first `n` nodes that
/// `root` reaches: the consumer edges of `v` in a pass from `root`.
pub open spec fn fan_in(edges: Seq<Seq<usize>>, root: int, n: nat, v: int) -> nat
    decreases n,
{
    if n == 0 {
        0
    } else {
        fan_in(edges, root, (n - 1) as nat, v) + if reaches(edges, root, n - 1) {
            uses(edges[n - 1], edges[n - 1].len(), v)
        } else {
            0nat
        }
    }
}

proof fn lemma_arrivals_update(edges: Seq<Seq<usize>>, counts: Seq<nat>, n: nat, u: int, x: nat, v: int)
    requires
        0 <= u < counts.len(),
        n <= counts.len(),
    ensures
        u < n && (counts[u] > 0) == (x > 0) ==> arrivals(edges, counts.update(u, x), n, v) == arrivals(
            edges,
            counts,
            n,
            v,
        ),
        u < n && counts[u] == 0 && x > 0 ==> arrivals(edges, counts.update(u, x), n, v) == arrivals(
            edges,
            counts,
            n,
            v,
        ) + uses(edges[u], edges[u].len(), v),
        u >= n ==> arrivals(edges, counts.update(u, x), n, v) == arrivals(edges, counts, n, v),
    decreases n,
{
    if n > 0 {
        lemma_arrivals_update(edges, counts, (n - 1) as nat, u, x, v);
    }
}

proof fn lemma_push_visit_arrivals(edges: Seq<Seq<usize>>, counts: Seq<nat>, u: int, v: int)
    requires
        acyclic(edges),
        0 <= u < edges.len(),
        0 <= v < edges.len(),
        counts.len() == edges.len(),
    ensures
        push_visit(edges, counts, u).0[v] + arrivals(edges, counts, edges.len(), v) == counts[v] + arrivals(
            edges,
            push_visit(edges, counts, u).0,
            edges.len(),
            v,
        ) + if v == u {
            1nat
        } else {
            0nat
        },
    decreases u, edges[u].len() + 1,
{
    if counts[u] > 0 {
        lemma_arrivals_update(edges, counts, edges.len(), u, counts[u] + 1, v);
    } else {
        lemma_arrivals_update(edges, counts, edges.len(), u, 1, v);
        lemma_push_inputs_arrivals(edges, counts.update(u, 1), u, edges[u].len(), v);
    }
}

proof fn lemma_push_inputs_arrivals(edges: Seq<Seq<usize>>, counts: Seq<nat>, u: int, k: nat, v: int)
    requires
        acyclic(edges),
        0 <= u < edges.len(),
        0 <= v < edges.len(),
        k <= edges[u].len(),
        counts.len() == edges.len(),
    ensures
        push_inputs(edges, counts, u, k).0[v] + arrivals(edges, counts, edges.len(), v) == counts[v] + arrivals(
            edges,
            push_inputs(edges, counts, u, k).0,
            edges.len(),
            v,
        ) + uses(edges[u], k, v),
    decreases u, k,
{
    if k > 0 {
        lemma_push_inputs_arrivals(edges, counts, u, (k - 1) as nat, v);
        lemma_push_inputs_frame(edges, counts, u, (k - 1) as nat);
        lemma_push_visit_arrivals(edges, push_inputs(edges, counts, u, (k - 1) as nat).0, edges[u][k - 1] as int, v);
    }
}

proof fn lemma_arrivals_reached(edges: Seq<Seq<usize>>, counts: Seq<nat>, root: int, n: nat, v: int)
    requires
        n <= edges.len(),
        counts.len() == edges.len(),
        forall|w: int| 0 <= w < edges.len() ==> ((#[trigger] counts[w]) > 0 <==> reaches(edges, root, w)),
    ensures
        arrivals(edges, counts, n, v) == fan_in(edges, root, n, v),
    decreases n,
{
    if n > 0 {
        lemma_arrivals_reached(edges, counts, root, (n - 1) as nat, v);
        assert(counts[n - 1] > 0 <==> reaches(edges, root, n - 1));
    }
}

proof fn lemma_arrivals_idle(edges: Seq<Seq<usize>>, n: nat, v: int)
    requires
        n <= edges.len(),
    ensures
        arrivals(edges, idle(edges.len()), n, v) == 0,
    decreases n,
{
    if n > 0 {
        lemma_arrivals_idle(edges, (n - 1) as nat, v);
    }
}

/// In a pass from `root` a node is reached once along each edge from a node
/// that `root` reaches, and the root once more: the arrivals counted at a
/// node are its consumer edges in the pass. A node that `root` reaches is
/// therefore counted at least once.
pub proof fn lemma_pass_counts_fan_in(edges: Seq<Seq<usize>>, root: int, v: int)
    requires
        acyclic(edges),
        0 <= root < edges.len(),
        0 <= v < edges.len(),
    ensures
        push_visit(edges, idle(edges.len()), root).0[v] == fan_in(edges, root, edges.len(), v) + if v == root {
            1nat
        } else {
            0nat
        },
        reaches(edges, root, v) <==> push_visit(edges, idle(edges.len()), root).0[v] > 0,
{
    let none = idle(edges.len());
    let counts = push_visit(edges, none, root).0;
    lemma_push_visit_arrivals(edges, none, root, v);
    lemma_arrivals_idle(edges, edges.len(), v);
    lemma_idle_orderly(edges, root);
    assert forall|w: int| 0 <= w < edges.len() implies ((#[trigger] counts[w]) > 0 <==> reaches(edges, root, w)) by {
        lemma_forward_order_covers(edges, root, w);
        let order = forward_order(edges, root);
        if among(order, order.len() as int, w) {
            let j = choose|j: int| 0 <= j < order.len() && j < order.len() && (#[trigger] order[j]) == w;
            assert(order[j] == w as usize);
        }
        if order.contains(w as usize) {
            let j = choose|j: int| 0 <= j < order.len() && order[j] == w as usize;
            assert(order[j] == w);
        }
    }
    lemma_arrivals_reached(edges, counts, root, edges.len(), v);
}

} // verus!
