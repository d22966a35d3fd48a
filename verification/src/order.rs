//! OrderingPass: the forward depth-first traversal that produces a global
//! post-order (finishing order) over all nodes. Every node moves from
//! unvisited to in-progress (a frame on the explicit stack) to finished
//! (appended to the post-order list); every unvisited node in index order
//! becomes a traversal root. The traversal is modelled as a small-step
//! machine over a ghost state, and the executable pass is proved to compute
//! exactly the machine's run.

use vstd::prelude::*;

verus! {

use crate::graph::Graph;
use crate::graph::adj_wf;

broadcast use vstd::std_specs::vec::axiom_spec_len;

/// The state of the forward traversal: which nodes are visited, the
/// post-order built so far, and the suspended frames. A frame `(v, c)`
/// suspends the traversal of node `v` before its `c`-th out-neighbor.
pub struct OrderState {
    pub visited: Seq<bool>,
    pub order: Seq<usize>,
    pub stack: Seq<(usize, usize)>,
}

/// How many entries of `s` are set.
pub open spec fn count_true(s: Seq<bool>) -> nat
    decreases s.len(),
{
    if s.len() == 0 {
        0
    } else {
        count_true(s.drop_last()) + if s.last() {
            1nat
        } else {
            0nat
        }
    }
}

pub proof fn lemma_count_true_le(s: Seq<bool>)
    ensures
        count_true(s) <= s.len(),
    decreases s.len(),
{
    if s.len() > 0 {
        lemma_count_true_le(s.drop_last());
    }
}

pub proof fn lemma_count_true_update(s: Seq<bool>, i: int)
    requires
        0 <= i < s.len(),
        !s[i],
    ensures
        count_true(s.update(i, true)) == count_true(s) + 1,
    decreases s.len(),
{
    let t = s.update(i, true);
    if i == s.len() - 1 {
        assert(t.drop_last() =~= s.drop_last());
    } else {
        assert(t.drop_last() =~= s.drop_last().update(i, true));
        lemma_count_true_update(s.drop_last(), i);
        assert(t.last() == s.last());
    }
}

/// Traversal states the machine can actually reach: one visited flag per
/// node, and every frame naming a visited node with a cursor inside its row.
pub open spec fn order_state_wf(adj: Seq<Seq<usize>>, st: OrderState) -> bool {
    &&& st.visited.len() == adj.len()
    &&& forall|k: int|
        0 <= k < st.stack.len() ==> {
            let fr = #[trigger] st.stack[k];
            &&& (fr.0 as int) < adj.len()
            &&& st.visited[fr.0 as int]
            &&& fr.1 <= adj[fr.0 as int].len()
        }
}

/// One step of the traversal machine, on a nonempty stack: either advance
/// the top cursor past an already visited neighbor, or descend into an
/// unvisited neighbor, or finish the top node and append it to the order.
pub open spec fn order_step(adj: Seq<Seq<usize>>, st: OrderState) -> OrderState
    recommends
        order_state_wf(adj, st),
        st.stack.len() > 0,
{
    let v = st.stack.last().0;
    let c = st.stack.last().1;
    if (c as int) < adj[v as int].len() {
        let w = adj[v as int][c as int];
        let stack1 = st.stack.update(st.stack.len() - 1, (v, (c + 1) as usize));
        if st.visited[w as int] {
            OrderState { visited: st.visited, order: st.order, stack: stack1 }
        } else {
            OrderState {
                visited: st.visited.update(w as int, true),
                order: st.order,
                stack: stack1.push((w, 0usize)),
            }
        }
    } else {
        OrderState { visited: st.visited, order: st.order.push(v), stack: st.stack.drop_last() }
    }
}

/// How many nodes are still unvisited.
pub open spec fn unvisited(st: OrderState) -> int {
    st.visited.len() - count_true(st.visited)
}

/// Work left in one frame: the neighbors not yet inspected, plus the final
/// finishing step.
pub open spec fn frame_pending(adj: Seq<Seq<usize>>, fr: (usize, usize)) -> int {
    if (fr.0 as int) < adj.len() && fr.1 <= adj[fr.0 as int].len() {
        adj[fr.0 as int].len() - fr.1 + 1
    } else {
        1
    }
}

/// Work left on the whole stack.
pub open spec fn stack_pending(adj: Seq<Seq<usize>>, stack: Seq<(usize, usize)>) -> int
    decreases stack.len(),
{
    if stack.len() == 0 {
        0
    } else {
        stack_pending(adj, stack.drop_last()) + frame_pending(adj, stack.last())
    }
}

pub proof fn lemma_stack_pending_nonneg(adj: Seq<Seq<usize>>, stack: Seq<(usize, usize)>)
    ensures
        stack_pending(adj, stack) >= 0,
    decreases stack.len(),
{
    if stack.len() > 0 {
        lemma_stack_pending_nonneg(adj, stack.drop_last());
    }
}

/// The machine's termination measure decreases at every step: either a node
/// becomes visited, or the pending work on the stack shrinks.
pub proof fn lemma_order_step_measure(adj: Seq<Seq<usize>>, st: OrderState)
    requires
        adj_wf(adj, adj.len()),
        order_state_wf(adj, st),
        st.stack.len() > 0,
    ensures
        ({
            let st2 = order_step(adj, st);
            &&& 0 <= unvisited(st2)
            &&& 0 <= stack_pending(adj, st2.stack)
            &&& unvisited(st2) < unvisited(st) || (unvisited(st2) == unvisited(st)
                && stack_pending(adj, st2.stack) < stack_pending(adj, st.stack))
        }),
{
    let st2 = order_step(adj, st);
    let v = st.stack.last().0;
    let c = st.stack.last().1;
    let last = st.stack.len() - 1;
    lemma_count_true_le(st.visited);
    lemma_count_true_le(st2.visited);
    lemma_stack_pending_nonneg(adj, st2.stack);
    if (c as int) < adj[v as int].len() {
        let stack1 = st.stack.update(last, (v, (c + 1) as usize));
        assert(stack1.drop_last() =~= st.stack.drop_last());
        assert(stack1.last() == (v, ((c + 1) as usize)));
        assert(stack_pending(adj, stack1) == stack_pending(adj, st.stack.drop_last())
            + frame_pending(adj, (v, ((c + 1) as usize))));
        let w = adj[v as int][c as int];
        if st.visited[w as int] {
            assert(st2.stack == stack1);
        } else {
            lemma_count_true_update(st.visited, w as int);
            assert(unvisited(st2) < unvisited(st));
        }
    } else {
        assert(st2.stack == st.stack.drop_last());
        assert(frame_pending(adj, st.stack.last()) == 1);
    }
}

/// A step from a reachable state lands in a reachable state.
pub proof fn lemma_order_step_wf(adj: Seq<Seq<usize>>, st: OrderState)
    requires
        adj_wf(adj, adj.len()),
        order_state_wf(adj, st),
        st.stack.len() > 0,
    ensures
        order_state_wf(adj, order_step(adj, st)),
{
    let st2 = order_step(adj, st);
    let v = st.stack.last().0;
    let c = st.stack.last().1;
    let last = st.stack.len() - 1;
    if (c as int) < adj[v as int].len() {
        let w = adj[v as int][c as int];
        assert((w as int) < adj.len());
        let stack1 = st.stack.update(last, (v, (c + 1) as usize));
        assert forall|k: int| 0 <= k < st2.stack.len() implies {
            let fr = #[trigger] st2.stack[k];
            &&& (fr.0 as int) < adj.len()
            &&& st2.visited[fr.0 as int]
            &&& fr.1 <= adj[fr.0 as int].len()
        } by {
            if k < st.stack.len() && st2.stack[k] != st.stack[k] {
                assert(k == last);
            }
        }
    }
}

/// The machine run to completion: steps until the stack is empty.
pub open spec fn order_run(adj: Seq<Seq<usize>>, st: OrderState) -> OrderState
    decreases unvisited(st), stack_pending(adj, st.stack),
        when adj_wf(adj, adj.len()) && order_state_wf(adj, st)
        via order_run_decreases
{
    if st.stack.len() == 0 {
        st
    } else {
        order_run(adj, order_step(adj, st))
    }
}

#[via_fn]
proof fn order_run_decreases(adj: Seq<Seq<usize>>, st: OrderState) {
    lemma_count_true_le(st.visited);
    lemma_stack_pending_nonneg(adj, st.stack);
    if st.stack.len() > 0 {
        lemma_order_step_measure(adj, st);
    }
}

/// A node is recorded in some frame of the stack.
pub open spec fn on_stack(stack: Seq<(usize, usize)>, v: usize) -> bool {
    exists|k: int| 0 <= k < stack.len() && (#[trigger] stack[k]).0 == v
}

/// The bookkeeping invariant of the traversal: the visited nodes are exactly
/// the finished ones (in the post-order list) and the in-progress ones (on
/// the stack), each recorded exactly once, and never in both places.
pub open spec fn order_state_inv(st: OrderState) -> bool {
    &&& forall|i: int|
        0 <= i < st.order.len() ==> ((#[trigger] st.order[i]) as int) < st.visited.len()
    &&& forall|i: int| 0 <= i < st.order.len() ==> st.visited[(#[trigger] st.order[i]) as int]
    &&& st.order.no_duplicates()
    &&& forall|k1: int, k2: int|
        0 <= k1 < k2 < st.stack.len() ==> (#[trigger] st.stack[k1]).0 != (
        #[trigger] st.stack[k2]).0
    &&& forall|i: int| 0 <= i < st.order.len() ==> !on_stack(st.stack, #[trigger] st.order[i])
    &&& forall|v: usize|
        (v as int) < st.visited.len() && #[trigger] st.visited[v as int] ==> st.order.contains(
            v,
        ) || on_stack(st.stack, v)
}

/// A step preserves the bookkeeping invariant.
pub proof fn lemma_order_step_inv(adj: Seq<Seq<usize>>, st: OrderState)
    requires
        adj_wf(adj, adj.len()),
        order_state_wf(adj, st),
        order_state_inv(st),
        st.stack.len() > 0,
    ensures
        order_state_inv(order_step(adj, st)),
{
    let st2 = order_step(adj, st);
    let v = st.stack.last().0;
    let c = st.stack.last().1;
    let last = st.stack.len() - 1;
    assert(st.stack[last].0 == v);
    if (c as int) < adj[v as int].len() {
        let w = adj[v as int][c as int];
        let stack1 = st.stack.update(last, (v, (c + 1) as usize));
        assert forall|x: usize| on_stack(st.stack, x) implies on_stack(stack1, x) by {
            let k = choose|k: int| 0 <= k < st.stack.len() && (#[trigger] st.stack[k]).0 == x;
            assert(stack1[k].0 == x);
        }
        assert forall|x: usize| on_stack(stack1, x) implies on_stack(st.stack, x) by {
            let k = choose|k: int| 0 <= k < stack1.len() && (#[trigger] stack1[k]).0 == x;
            assert(st.stack[k].0 == x);
        }
        if st.visited[w as int] {
        } else {
            // `w` was unvisited, so it is neither finished nor in progress.
            assert(!st.order.contains(w));
            let stack2 = stack1.push((w, 0usize));
            assert forall|x: usize| on_stack(stack1, x) implies on_stack(stack2, x) by {
                let k = choose|k: int| 0 <= k < stack1.len() && (#[trigger] stack1[k]).0 == x;
                assert(stack2[k].0 == x);
            }
            assert(stack2[stack2.len() - 1].0 == w);
            assert forall|i: int| 0 <= i < st2.order.len() implies !on_stack(
                st2.stack,
                #[trigger] st2.order[i],
            ) by {
                let x = st2.order[i];
                assert(!on_stack(st.stack, x));
                if on_stack(stack2, x) {
                    let k = choose|k: int|
                        0 <= k < stack2.len() && (#[trigger] stack2[k]).0 == x;
                    if k < stack1.len() {
                        assert(st.stack[k].0 == x);
                    } else {
                        assert(x == w);
                    }
                }
            }
            assert forall|k1: int, k2: int| 0 <= k1 < k2 < stack2.len() implies (
            #[trigger] stack2[k1]).0 != (#[trigger] stack2[k2]).0 by {
                if k2 == stack2.len() - 1 {
                    assert(st.stack[k1].0 == stack2[k1].0);
                    assert(st.visited[st.stack[k1].0 as int]);
                } else {
                    assert(st.stack[k1].0 == stack2[k1].0);
                    assert(st.stack[k2].0 == stack2[k2].0);
                }
            }
        }
    } else {
        // `v` finishes: it leaves the stack and enters the post-order list.
        let stack2 = st.stack.drop_last();
        let order2 = st.order.push(v);
        assert(!st.order.contains(v));
        assert forall|i: int| 0 <= i < order2.len() implies !on_stack(
            stack2,
            #[trigger] order2[i],
        ) by {
            let x = order2[i];
            if on_stack(stack2, x) {
                let k = choose|k: int| 0 <= k < stack2.len() && (#[trigger] stack2[k]).0 == x;
                assert(st.stack[k].0 == x);
                if i < st.order.len() {
                    assert(on_stack(st.stack, x));
                } else {
                    assert(x == v);
                    assert(st.stack[k].0 != st.stack[last].0);
                }
            }
        }
        assert forall|x: usize|
            (x as int) < st2.visited.len() && #[trigger] st2.visited[x as int] implies st2
            .order.contains(x) || on_stack(st2.stack, x) by {
            if st.order.contains(x) {
                let i = choose|i: int| 0 <= i < st.order.len() && st.order[i] == x;
                assert(order2[i] == x);
            } else {
                let k = choose|k: int| 0 <= k < st.stack.len() && (#[trigger] st.stack[k]).0 == x;
                if k == last {
                    assert(order2[order2.len() - 1] == x);
                } else {
                    assert(stack2[k].0 == x);
                }
            }
        }
    }
}

/// The run of the machine: it empties the stack, extends the post-order
/// list, only ever adds visited marks, and preserves both invariants.
pub proof fn lemma_order_run(adj: Seq<Seq<usize>>, st: OrderState)
    requires
        adj_wf(adj, adj.len()),
        order_state_wf(adj, st),
        order_state_inv(st),
    ensures
        ({
            let r = order_run(adj, st);
            &&& order_state_wf(adj, r)
            &&& order_state_inv(r)
            &&& r.stack.len() == 0
            &&& r.visited.len() == st.visited.len()
            &&& st.order.len() <= r.order.len()
            &&& forall|i: int| 0 <= i < st.order.len() ==> r.order[i] == st.order[i]
            &&& forall|x: int| 0 <= x < st.visited.len() && st.visited[x] ==> r.visited[x]
        }),
    decreases unvisited(st), stack_pending(adj, st.stack),
{
    lemma_count_true_le(st.visited);
    lemma_stack_pending_nonneg(adj, st.stack);
    if st.stack.len() == 0 {
    } else {
        lemma_order_step_measure(adj, st);
        lemma_order_step_wf(adj, st);
        lemma_order_step_inv(adj, st);
        lemma_order_run(adj, order_step(adj, st));
    }
}

/// The initial state: nothing visited, nothing finished, no traversal
/// underway.
pub open spec fn order_init(n: nat) -> OrderState {
    OrderState {
        visited: Seq::new(n, |i: int| false),
        order: Seq::empty(),
        stack: Seq::empty(),
    }
}

/// The state after the first `i` node indices have been offered as
/// traversal roots: an unvisited index is pushed as a root and its
/// traversal run to completion, a visited one is skipped.
pub open spec fn order_roots(adj: Seq<Seq<usize>>, i: nat) -> OrderState
    decreases i,
{
    if i == 0 {
        order_init(adj.len())
    } else {
        let st = order_roots(adj, (i - 1) as nat);
        if st.visited[i - 1] {
            st
        } else {
            order_run(
                adj,
                OrderState {
                    visited: st.visited.update(i - 1, true),
                    order: st.order,
                    stack: st.stack.push((((i - 1) as usize), 0usize)),
                },
            )
        }
    }
}

/// The post-order that the ordering pass produces for this adjacency.
pub open spec fn order_model(adj: Seq<Seq<usize>>) -> Seq<usize> {
    order_roots(adj, adj.len()).order
}

/// After `i` roots: the state is reachable, keeps the bookkeeping
/// invariant, has an empty stack, and has visited all indices below `i`.
pub proof fn lemma_order_roots(adj: Seq<Seq<usize>>, i: nat)
    requires
        adj_wf(adj, adj.len()),
        i <= adj.len(),
    ensures
        ({
            let st = order_roots(adj, i);
            &&& order_state_wf(adj, st)
            &&& order_state_inv(st)
            &&& st.stack.len() == 0
            &&& st.visited.len() == adj.len()
            &&& forall|x: int| 0 <= x < i ==> st.visited[x]
        }),
    decreases i,
{
    if i == 0 {
    } else {
        lemma_order_roots(adj, (i - 1) as nat);
        let st = order_roots(adj, (i - 1) as nat);
        if st.visited[i - 1] {
        } else {
            let root = (i - 1) as usize;
            let pushed = OrderState {
                visited: st.visited.update(i - 1, true),
                order: st.order,
                stack: st.stack.push((root, 0usize)),
            };
            assert(pushed.stack.len() == 1);
            assert(pushed.stack[0].0 == root);
            assert(order_state_wf(adj, pushed));
            assert(order_state_inv(pushed)) by {
                assert(!st.order.contains(root));
                assert(on_stack(pushed.stack, root));
                assert forall|i2: int| 0 <= i2 < pushed.order.len() implies !on_stack(
                    pushed.stack,
                    #[trigger] pushed.order[i2],
                ) by {
                    assert(pushed.order[i2] != root);
                    if on_stack(pushed.stack, pushed.order[i2]) {
                        let k = choose|k: int|
                            0 <= k < pushed.stack.len() && (#[trigger] pushed.stack[k]).0
                                == pushed.order[i2];
                        assert(k == 0);
                    }
                }
            }
            lemma_order_run(adj, pushed);
        }
    }
}

/// The full post-order is a permutation of the node indices: it names every
/// node exactly once.
pub proof fn lemma_order_model_complete(adj: Seq<Seq<usize>>)
    requires
        adj_wf(adj, adj.len()),
    ensures
        ({
            let ord = order_model(adj);
            &&& ord.no_duplicates()
            &&& ord.len() == adj.len()
            &&& forall|i: int| 0 <= i < ord.len() ==> ((#[trigger] ord[i]) as int) < adj.len()
            &&& forall|v: usize| (v as int) < adj.len() ==> ord.contains(v)
        }),
{
    let n = adj.len();
    lemma_order_roots(adj, n);
    let st = order_roots(adj, n);
    let ord = order_model(adj);
    assert forall|v: usize| (v as int) < n implies ord.contains(v) by {
        assert(st.visited[v as int]);
        assert(!on_stack(st.stack, v));
    }
    let full = Seq::new(n, |i: int| i as usize);
    assert(full.no_duplicates()) by {
        assert forall|k1: int, k2: int|
            0 <= k1 < full.len() && 0 <= k2 < full.len() && k1 != k2 implies full[k1]
            != full[k2] by {}
    }
    ord.unique_seq_to_set();
    full.unique_seq_to_set();
    assert forall|v: usize| full.to_set().contains(v) implies ord.to_set().contains(v) by {
        let i = choose|i: int| 0 <= i < full.len() && full[i] == v;
        assert((v as int) < n);
    }
    assert forall|v: usize| ord.to_set().contains(v) implies full.to_set().contains(v) by {
        assert(full[v as int] == v);
    }
    assert(ord.to_set() =~= full.to_set());
}

/// Runs one depth-first traversal to completion: drives the top frame of
/// the explicit stack until the stack empties, computing exactly the
/// machine's run from the entry state.
fn dfs_post_order(
    g: &Graph,
    visited: &mut Vec<bool>,
    order: &mut Vec<usize>,
    stack: &mut Vec<(usize, usize)>,
)
    requires
        g.wf(),
        order_state_wf(
            g.spec_adj(),
            OrderState { visited: old(visited)@, order: old(order)@, stack: old(stack)@ },
        ),
    ensures
        ({
            let r = order_run(
                g.spec_adj(),
                OrderState { visited: old(visited)@, order: old(order)@, stack: old(stack)@ },
            );
            &&& final(visited)@ == r.visited
            &&& final(order)@ == r.order
            &&& final(stack)@ == r.stack
        }),
{
    let ghost adj = g.spec_adj();
    let ghost st0 = OrderState { visited: old(visited)@, order: old(order)@, stack: old(stack)@ };
    while stack.len() != 0
        invariant
            g.wf(),
            adj == g.spec_adj(),
            order_state_wf(
                adj,
                OrderState { visited: visited@, order: order@, stack: stack@ },
            ),
            order_run(adj, st0) == order_run(
                adj,
                OrderState { visited: visited@, order: order@, stack: stack@ },
            ),
        decreases unvisited(OrderState { visited: visited@, order: order@, stack: stack@ }),
            stack_pending(adj, stack@),
    {
        let ghost pre = OrderState { visited: visited@, order: order@, stack: stack@ };
        proof {
            lemma_order_step_measure(adj, pre);
            lemma_order_step_wf(adj, pre);
        }
        let top = stack.len() - 1;
        let frame = stack[top];
        let v = frame.0;
        let c = frame.1;
        let row = g.out_neighbors_of(v);
        if c < row.len() {
            let w = row[c];
            stack.set(top, (v, c + 1));
            if !visited[w] {
                visited.set(w, true);
                stack.push((w, 0));
            }
        } else {
            order.push(v);
            let _ = stack.pop();
            proof {
                assert(stack@ =~= pre.stack.drop_last());
            }
        }
        proof {
            let cur = OrderState { visited: visited@, order: order@, stack: stack@ };
            assert(cur == order_step(adj, pre));
        }
    }
    proof {
        let cur = OrderState { visited: visited@, order: order@, stack: stack@ };
        assert(order_run(adj, cur) == cur);
    }
}

/// OrderingPass: the depth-first traversal of the forward graph that
/// produces the global post-order (finishing order) over all nodes, taking
/// every unvisited node in increasing index order as a traversal root. The
/// result is exactly the machine model's post-order: a permutation of the
/// node indices.
pub fn ordering_pass(g: &Graph) -> (order: Vec<usize>)
    requires
        g.wf(),
    ensures
        order@ == order_model(g.spec_adj()),
        order@.no_duplicates(),
        order@.len() == g.spec_node_count(),
        forall|i: int|
            0 <= i < order@.len() ==> ((#[trigger] order@[i]) as int) < g.spec_node_count(),
        forall|v: usize| (v as int) < g.spec_node_count() ==> order@.contains(v),
{
    let ghost adj = g.spec_adj();
    let n = g.node_count();
    let mut visited: Vec<bool> = Vec::new();
    let mut k: usize = 0;
    while k < n
        invariant
            k <= n,
            visited@.len() == k,
            forall|x: int| 0 <= x < k ==> !(#[trigger] visited@[x]),
        decreases n - k,
    {
        visited.push(false);
        k += 1;
    }
    let mut order: Vec<usize> = Vec::new();
    let mut stack: Vec<(usize, usize)> = Vec::new();
    proof {
        assert(visited@ =~= order_init(g.spec_node_count()).visited);
        assert(order@ =~= order_roots(adj, 0).order);
        assert(stack@ =~= order_roots(adj, 0).stack);
    }
    let mut i: usize = 0;
    while i < n
        invariant
            g.wf(),
            adj == g.spec_adj(),
            n == g.spec_node_count(),
            i <= n,
            visited@ == order_roots(adj, i as nat).visited,
            order@ == order_roots(adj, i as nat).order,
            stack@.len() == 0,
        decreases n - i,
    {
        proof {
            lemma_order_roots(adj, i as nat);
        }
        if !visited[i] {
            visited.set(i, true);
            stack.push((i, 0));
            proof {
                let st = order_roots(adj, i as nat);
                let pushed = OrderState {
                    visited: st.visited.update(i as int, true),
                    order: st.order,
                    stack: st.stack.push((i, 0usize)),
                };
                assert(stack@ =~= pushed.stack);
                assert(order_state_wf(adj, pushed));
            }
            dfs_post_order(g, &mut visited, &mut order, &mut stack);
            proof {
                let r = order_roots(adj, (i + 1) as nat);
                lemma_order_roots(adj, (i + 1) as nat);
                assert(visited@ == r.visited && order@ == r.order);
            }
        }
        i += 1;
    }
    proof {
        lemma_order_model_complete(adj);
    }
    order
}

} // verus!
