//! AssignmentPass: the depth-first traversal of the transposed graph that
//! labels every node with a component id. The post-order of the forward
//! pass is consumed in reverse; every node still unlabelled when its turn
//! comes allocates the next component id and spreads it, over the
//! transposed adjacency, to every reachable node that has no id yet. The
//! traversal is modelled as a small-step machine over a ghost state, and
//! the executable pass is proved to compute exactly the machine's run.

use vstd::prelude::*;

verus! {

use crate::graph::adj_wf;
use crate::graph::rows;
use crate::order::frame_pending;
use crate::order::on_stack;
use crate::order::stack_pending;
use crate::order::lemma_stack_pending_nonneg;

broadcast use vstd::std_specs::vec::axiom_spec_len;

/// The state of the labelling traversal: the component id of every node
/// that has one, and the suspended frames. A frame `(v, c)` suspends the
/// traversal of node `v` before its `c`-th in-neighbor.
pub struct AssignState {
    pub comps: Seq<Option<usize>>,
    pub stack: Seq<(usize, usize)>,
}

/// How many nodes have a component id.
pub open spec fn count_some(s: Seq<Option<usize>>) -> nat
    decreases s.len(),
{
    if s.len() == 0 {
        0
    } else {
        count_some(s.drop_last()) + if s.last() is Some {
            1nat
        } else {
            0nat
        }
    }
}

pub proof fn lemma_count_some_le(s: Seq<Option<usize>>)
    ensures
        count_some(s) <= s.len(),
    decreases s.len(),
{
    if s.len() > 0 {
        lemma_count_some_le(s.drop_last());
    }
}

pub proof fn lemma_count_some_update(s: Seq<Option<usize>>, i: int, x: usize)
    requires
        0 <= i < s.len(),
        s[i] is None,
    ensures
        count_some(s.update(i, Some(x))) == count_some(s) + 1,
    decreases s.len(),
{
    let t = s.update(i, Some(x));
    if i == s.len() - 1 {
        assert(t.drop_last() =~= s.drop_last());
    } else {
        assert(t.drop_last() =~= s.drop_last().update(i, Some(x)));
        lemma_count_some_update(s.drop_last(), i, x);
        assert(t.last() == s.last());
    }
}

/// Labelling states the machine can actually reach: one label slot per
/// node, and every frame naming a labelled node with a cursor inside its
/// row.
pub open spec fn assign_state_wf(adj: Seq<Seq<usize>>, st: AssignState) -> bool {
    &&& st.comps.len() == adj.len()
    &&& forall|k: int|
        0 <= k < st.stack.len() ==> {
            let fr = #[trigger] st.stack[k];
            &&& (fr.0 as int) < adj.len()
            &&& st.comps[fr.0 as int] is Some
            &&& fr.1 <= adj[fr.0 as int].len()
        }
}

/// One step of the labelling machine, on a nonempty stack: advance the top
/// cursor past an already labelled neighbor, or label an unlabelled
/// neighbor with `cid` and descend into it, or finish the top node.
pub open spec fn assign_step(adj: Seq<Seq<usize>>, cid: usize, st: AssignState) -> AssignState
    recommends
        assign_state_wf(adj, st),
        st.stack.len() > 0,
{
    let v = st.stack.last().0;
    let c = st.stack.last().1;
    if (c as int) < adj[v as int].len() {
        let w = adj[v as int][c as int];
        let stack1 = st.stack.update(st.stack.len() - 1, (v, (c + 1) as usize));
        if st.comps[w as int] is Some {
            AssignState { comps: st.comps, stack: stack1 }
        } else {
            AssignState {
                comps: st.comps.update(w as int, Some(cid)),
                stack: stack1.push((w, 0usize)),
            }
        }
    } else {
        AssignState { comps: st.comps, stack: st.stack.drop_last() }
    }
}

/// How many nodes still lack a component id.
pub open spec fn unassigned(st: AssignState) -> int {
    st.comps.len() - count_some(st.comps)
}

/// The labelling machine's termination measure decreases at every step.
pub proof fn lemma_assign_step_measure(adj: Seq<Seq<usize>>, cid: usize, st: AssignState)
    requires
        adj_wf(adj, adj.len()),
        assign_state_wf(adj, st),
        st.stack.len() > 0,
    ensures
        ({
            let st2 = assign_step(adj, cid, st);
            &&& 0 <= unassigned(st2)
            &&& 0 <= stack_pending(adj, st2.stack)
            &&& unassigned(st2) < unassigned(st) || (unassigned(st2) == unassigned(st)
                && stack_pending(adj, st2.stack) < stack_pending(adj, st.stack))
        }),
{
    let st2 = assign_step(adj, cid, st);
    let v = st.stack.last().0;
    let c = st.stack.last().1;
    let last = st.stack.len() - 1;
    lemma_count_some_le(st.comps);
    lemma_count_some_le(st2.comps);
    lemma_stack_pending_nonneg(adj, st2.stack);
    if (c as int) < adj[v as int].len() {
        let stack1 = st.stack.update(last, (v, (c + 1) as usize));
        assert(stack1.drop_last() =~= st.stack.drop_last());
        assert(stack1.last() == (v, ((c + 1) as usize)));
        assert(stack_pending(adj, stack1) == stack_pending(adj, st.stack.drop_last())
            + frame_pending(adj, (v, ((c + 1) as usize))));
        let w = adj[v as int][c as int];
        if st.comps[w as int] is Some {
            assert(st2.stack == stack1);
        } else {
            lemma_count_some_update(st.comps, w as int, cid);
            assert(unassigned(st2) < unassigned(st));
        }
    } else {
        assert(st2.stack == st.stack.drop_last());
        assert(frame_pending(adj, st.stack.last()) == 1);
    }
}

/// A step from a reachable state lands in a reachable state.
pub proof fn lemma_assign_step_wf(adj: Seq<Seq<usize>>, cid: usize, st: AssignState)
    requires
        adj_wf(adj, adj.len()),
        assign_state_wf(adj, st),
        st.stack.len() > 0,
    ensures
        assign_state_wf(adj, assign_step(adj, cid, st)),
{
    let st2 = assign_step(adj, cid, st);
    let v = st.stack.last().0;
    let c = st.stack.last().1;
    let last = st.stack.len() - 1;
    if (c as int) < adj[v as int].len() {
        let w = adj[v as int][c as int];
        assert((w as int) < adj.len());
        assert forall|k: int| 0 <= k < st2.stack.len() implies {
            let fr = #[trigger] st2.stack[k];
            &&& (fr.0 as int) < adj.len()
            &&& st2.comps[fr.0 as int] is Some
            &&& fr.1 <= adj[fr.0 as int].len()
        } by {
            if k < st.stack.len() && st2.stack[k] != st.stack[k] {
                assert(k == last);
            }
        }
    }
}

/// The labelling machine run to completion: steps until the stack is empty.
pub open spec fn assign_run(adj: Seq<Seq<usize>>, cid: usize, st: AssignState) -> AssignState
    decreases unassigned(st), stack_pending(adj, st.stack),
        when adj_wf(adj, adj.len()) && assign_state_wf(adj, st)
        via assign_run_decreases
{
    if st.stack.len() == 0 {
        st
    } else {
        assign_run(adj, cid, assign_step(adj, cid, st))
    }
}

#[via_fn]
proof fn assign_run_decreases(adj: Seq<Seq<usize>>, cid: usize, st: AssignState) {
    lemma_count_some_le(st.comps);
    lemma_stack_pending_nonneg(adj, st.stack);
    if st.stack.len() > 0 {
        lemma_assign_step_measure(adj, cid, st);
    }
}

/// The spreading invariant: a labelled node that is no longer in progress
/// has all of its neighbors labelled, and a suspended frame has all the
/// neighbors before its cursor labelled.
pub open spec fn assign_closure_inv(adj: Seq<Seq<usize>>, st: AssignState) -> bool {
    &&& forall|v: int, j: int|
        0 <= v < st.comps.len() && st.comps[v] is Some && !on_stack(st.stack, v as usize) && 0
            <= j < adj[v].len() ==> st.comps[(#[trigger] adj[v][j]) as int] is Some
    &&& forall|k: int, j: int|
        0 <= k < st.stack.len() && 0 <= j < st.stack[k].1
            ==> st.comps[(#[trigger] adj[st.stack[k].0 as int][j]) as int] is Some
}

/// A step preserves the spreading invariant.
pub proof fn lemma_assign_step_inv(adj: Seq<Seq<usize>>, cid: usize, st: AssignState)
    requires
        adj_wf(adj, adj.len()),
        assign_state_wf(adj, st),
        assign_closure_inv(adj, st),
        st.stack.len() > 0,
    ensures
        assign_closure_inv(adj, assign_step(adj, cid, st)),
{
    let st2 = assign_step(adj, cid, st);
    let v = st.stack.last().0;
    let c = st.stack.last().1;
    let last = st.stack.len() - 1;
    assert(st.stack[last].0 == v);
    if (c as int) < adj[v as int].len() {
        let w = adj[v as int][c as int];
        let stack1 = st.stack.update(last, (v, (c + 1) as usize));
        assert forall|x: usize| on_stack(st.stack, x) implies on_stack(stack1, x) by {
            let k = choose|k: int| 0 <= k < st.stack.len() && (#[trigger] st.stack[k]).0 == x;
            assert(stack1[k].0 == x);
        }
        if st.comps[w as int] is Some {
            assert forall|k: int, j: int|
                0 <= k < stack1.len() && 0 <= j < stack1[k].1 implies st.comps[(
            #[trigger] adj[stack1[k].0 as int][j]) as int] is Some by {
                if k == last {
                    if j < c {
                        assert(st.stack[k].1 == c);
                    } else {
                        assert(j == c);
                    }
                } else {
                    assert(stack1[k] == st.stack[k]);
                }
            }
            assert forall|x: usize| on_stack(stack1, x) implies on_stack(st.stack, x) by {
                let k = choose|k: int| 0 <= k < stack1.len() && (#[trigger] stack1[k]).0 == x;
                assert(st.stack[k].0 == x);
            }
        } else {
            let stack2 = stack1.push((w, 0usize));
            let comps2 = st.comps.update(w as int, Some(cid));
            assert forall|x: usize| on_stack(st.stack, x) implies on_stack(stack2, x) by {
                let k = choose|k: int|
                    0 <= k < st.stack.len() && (#[trigger] st.stack[k]).0 == x;
                assert(stack1[k].0 == x);
                assert(stack2[k].0 == x);
            }
            assert forall|x: int, j: int|
                0 <= x < comps2.len() && comps2[x] is Some && !on_stack(stack2, x as usize) && 0
                    <= j < adj[x].len() implies comps2[(#[trigger] adj[x][j]) as int]
                is Some by {
                assert(stack2[stack2.len() - 1].0 == w);
                assert(x != w);
                assert(!on_stack(st.stack, x as usize));
                assert(st.comps[x] is Some);
                assert(st.comps[adj[x][j] as int] is Some);
            }
            assert forall|k: int, j: int|
                0 <= k < stack2.len() && 0 <= j < stack2[k].1 implies comps2[(
            #[trigger] adj[stack2[k].0 as int][j]) as int] is Some by {
                if k == stack2.len() - 1 {
                    assert(stack2[k].1 == 0);
                } else if k == last {
                    if j < c {
                        assert(st.stack[k].1 == c);
                        assert(st.comps[adj[v as int][j] as int] is Some);
                    } else {
                        assert(j == c);
                    }
                } else {
                    assert(stack2[k] == st.stack[k]);
                    assert(st.comps[adj[st.stack[k].0 as int][j] as int] is Some);
                }
            }
        }
    } else {
        let stack2 = st.stack.drop_last();
        assert forall|x: int, j: int|
            0 <= x < st.comps.len() && st.comps[x] is Some && !on_stack(stack2, x as usize) && 0
                <= j < adj[x].len() implies st.comps[(#[trigger] adj[x][j]) as int] is Some by {
            if on_stack(st.stack, x as usize) {
                let k = choose|k: int|
                    0 <= k < st.stack.len() && (#[trigger] st.stack[k]).0 == x as usize;
                if k < last {
                    assert(stack2[k].0 == x as usize);
                    assert(false);
                } else {
                    // `x` is the node being finished: its whole row is before
                    // the cursor, which has reached the end of the row.
                    assert(x == v as int);
                    assert(st.stack[last].1 == c);
                    assert((c as int) >= adj[v as int].len());
                    assert(st.comps[adj[x][j] as int] is Some);
                }
            }
        }
        assert forall|k: int, j: int|
            0 <= k < stack2.len() && 0 <= j < stack2[k].1 implies st.comps[(
        #[trigger] adj[stack2[k].0 as int][j]) as int] is Some by {
            assert(stack2[k] == st.stack[k]);
        }
    }
}

/// A slot without a label keeps the labelled count strictly under the
/// length.
pub proof fn lemma_count_some_lt_if_none(s: Seq<Option<usize>>, i: int)
    requires
        0 <= i < s.len(),
        s[i] is None,
    ensures
        count_some(s) < s.len(),
    decreases s.len(),
{
    if i == s.len() - 1 {
        lemma_count_some_le(s.drop_last());
    } else {
        lemma_count_some_lt_if_none(s.drop_last(), i);
    }
}

/// The run of the labelling machine: it empties the stack, only ever fills
/// empty label slots — all with the current id — and preserves both
/// invariants.
pub proof fn lemma_assign_run(adj: Seq<Seq<usize>>, cid: usize, st: AssignState)
    requires
        adj_wf(adj, adj.len()),
        assign_state_wf(adj, st),
        assign_closure_inv(adj, st),
    ensures
        ({
            let r = assign_run(adj, cid, st);
            &&& assign_state_wf(adj, r)
            &&& assign_closure_inv(adj, r)
            &&& r.stack.len() == 0
            &&& r.comps.len() == st.comps.len()
            &&& forall|v: int|
                0 <= v < st.comps.len() && st.comps[v] is Some ==> r.comps[v] == st.comps[v]
            &&& forall|v: int|
                0 <= v < st.comps.len() && st.comps[v] is None && r.comps[v] is Some
                    ==> r.comps[v] == Some(cid)
            &&& count_some(st.comps) <= count_some(r.comps)
        }),
    decreases unassigned(st), stack_pending(adj, st.stack),
{
    lemma_count_some_le(st.comps);
    lemma_stack_pending_nonneg(adj, st.stack);
    if st.stack.len() == 0 {
    } else {
        lemma_assign_step_measure(adj, cid, st);
        lemma_assign_step_wf(adj, cid, st);
        lemma_assign_step_inv(adj, cid, st);
        let st2 = assign_step(adj, cid, st);
        let v = st.stack.last().0;
        let c = st.stack.last().1;
        if (c as int) < adj[v as int].len() {
            let w = adj[v as int][c as int];
            if st.comps[w as int] is Some {
            } else {
                lemma_count_some_update(st.comps, w as int, cid);
            }
        }
        lemma_assign_run(adj, cid, st2);
    }
}

/// Some node carries the component id `c`.
pub open spec fn some_node_labelled(comps: Seq<Option<usize>>, c: int) -> bool {
    exists|v: int| 0 <= v < comps.len() && comps[v] == Some(c as usize)
}

/// A progress record of the assignment pass: the labelling state together
/// with the number of components allocated so far.
pub struct AssignProgress {
    pub st: AssignState,
    pub count: int,
}

/// The initial labelling state: no node has a component id.
pub open spec fn assign_init(n: nat) -> AssignState {
    AssignState { comps: Seq::new(n, |i: int| None::<usize>), stack: Seq::empty() }
}

/// The state after the last `t` entries of the post-order have been
/// consumed, in reverse: an unlabelled entry allocates the next component
/// id and its traversal is run to completion, a labelled one is skipped.
pub open spec fn assign_roots(adj: Seq<Seq<usize>>, order: Seq<usize>, t: nat) -> AssignProgress
    decreases t,
{
    if t == 0 {
        AssignProgress { st: assign_init(adj.len()), count: 0 }
    } else {
        let p = assign_roots(adj, order, (t - 1) as nat);
        let r = order[order.len() - t];
        if p.st.comps[r as int] is Some {
            p
        } else {
            AssignProgress {
                st: assign_run(
                    adj,
                    p.count as usize,
                    AssignState {
                        comps: p.st.comps.update(r as int, Some(p.count as usize)),
                        stack: p.st.stack.push((r, 0usize)),
                    },
                ),
                count: p.count + 1,
            }
        }
    }
}

/// The component labelling and component count of the whole pass.
pub open spec fn assign_model(adj: Seq<Seq<usize>>, order: Seq<usize>) -> AssignProgress {
    assign_roots(adj, order, order.len())
}

/// After `t` reversed post-order entries: the state is reachable and keeps
/// the spreading invariant with an empty stack, at most one component per
/// labelled node has been allocated, every label is below the allocation
/// count, and every consumed entry is labelled.
pub proof fn lemma_assign_roots(adj: Seq<Seq<usize>>, order: Seq<usize>, t: nat)
    requires
        adj_wf(adj, adj.len()),
        t <= order.len(),
        forall|i: int| 0 <= i < order.len() ==> ((#[trigger] order[i]) as int) < adj.len(),
    ensures
        ({
            let p = assign_roots(adj, order, t);
            &&& assign_state_wf(adj, p.st)
            &&& assign_closure_inv(adj, p.st)
            &&& p.st.stack.len() == 0
            &&& p.st.comps.len() == adj.len()
            &&& 0 <= p.count <= count_some(p.st.comps)
            &&& forall|v: int|
                0 <= v < adj.len() && p.st.comps[v] is Some ==> ((
                #[trigger] p.st.comps[v])->Some_0 as int) < p.count
            &&& forall|j: int|
                order.len() - t <= j < order.len() ==> p.st.comps[(
                #[trigger] order[j]) as int] is Some
            &&& forall|c: int| 0 <= c < p.count ==> #[trigger] some_node_labelled(p.st.comps, c)
        }),
    decreases t,
{
    if t == 0 {
    } else {
        lemma_assign_roots(adj, order, (t - 1) as nat);
        let p = assign_roots(adj, order, (t - 1) as nat);
        let r = order[order.len() - t];
        if p.st.comps[r as int] is Some {
        } else {
            lemma_count_some_lt_if_none(p.st.comps, r as int);
            let cid = p.count as usize;
            let pushed = AssignState {
                comps: p.st.comps.update(r as int, Some(cid)),
                stack: p.st.stack.push((r, 0usize)),
            };
            assert(pushed.stack.len() == 1);
            assert(pushed.stack[0] == (r, 0usize));
            assert(assign_state_wf(adj, pushed));
            assert(assign_closure_inv(adj, pushed)) by {
                assert(on_stack(pushed.stack, r));
                assert forall|x: int, j: int|
                    0 <= x < pushed.comps.len() && pushed.comps[x] is Some && !on_stack(
                        pushed.stack,
                        x as usize,
                    ) && 0 <= j < adj[x].len() implies pushed.comps[(
                #[trigger] adj[x][j]) as int] is Some by {
                    assert(x != r);
                    assert(p.st.comps[x] is Some);
                    assert(!on_stack(p.st.stack, x as usize));
                    assert(p.st.comps[adj[x][j] as int] is Some);
                }
            }
            lemma_count_some_update(p.st.comps, r as int, cid);
            lemma_assign_run(adj, cid, pushed);
            let p2 = assign_roots(adj, order, t);
            assert forall|c: int| 0 <= c < p2.count implies #[trigger] some_node_labelled(
                p2.st.comps,
                c,
            ) by {
                if c < p.count {
                    assert(some_node_labelled(p.st.comps, c));
                    let v = choose|v: int|
                        0 <= v < p.st.comps.len() && p.st.comps[v] == Some(c as usize);
                    assert(p2.st.comps[v] == Some(c as usize));
                } else {
                    assert(c == p.count);
                    assert(pushed.comps[r as int] == Some(cid));
                    assert(p2.st.comps[r as int] == Some(cid));
                }
            }
        }
    }
}

/// Runs one labelling traversal to completion: drives the top frame of the
/// explicit stack until the stack empties, computing exactly the labelling
/// machine's run from the entry state.
fn dfs_assign(
    rev_adj: &Vec<Vec<usize>>,
    comps: &mut Vec<Option<usize>>,
    stack: &mut Vec<(usize, usize)>,
    cid: usize,
)
    requires
        adj_wf(rows(rev_adj@), rows(rev_adj@).len()),
        assign_state_wf(
            rows(rev_adj@),
            AssignState { comps: old(comps)@, stack: old(stack)@ },
        ),
    ensures
        ({
            let r = assign_run(
                rows(rev_adj@),
                cid,
                AssignState { comps: old(comps)@, stack: old(stack)@ },
            );
            &&& final(comps)@ == r.comps
            &&& final(stack)@ == r.stack
        }),
{
    let ghost adj = rows(rev_adj@);
    let ghost st0 = AssignState { comps: old(comps)@, stack: old(stack)@ };
    while stack.len() != 0
        invariant
            adj == rows(rev_adj@),
            adj_wf(adj, adj.len()),
            assign_state_wf(adj, AssignState { comps: comps@, stack: stack@ }),
            assign_run(adj, cid, st0) == assign_run(
                adj,
                cid,
                AssignState { comps: comps@, stack: stack@ },
            ),
        decreases unassigned(AssignState { comps: comps@, stack: stack@ }),
            stack_pending(adj, stack@),
    {
        let ghost pre = AssignState { comps: comps@, stack: stack@ };
        proof {
            lemma_assign_step_measure(adj, cid, pre);
            lemma_assign_step_wf(adj, cid, pre);
        }
        let top = stack.len() - 1;
        let frame = stack[top];
        let v = frame.0;
        let c = frame.1;
        let row = &rev_adj[v];
        if c < row.len() {
            let w = row[c];
            stack.set(top, (v, c + 1));
            if comps[w].is_none() {
                comps.set(w, Some(cid));
                stack.push((w, 0));
            }
        } else {
            let _ = stack.pop();
            proof {
                assert(stack@ =~= pre.stack.drop_last());
            }
        }
        proof {
            let cur = AssignState { comps: comps@, stack: stack@ };
            assert(cur == assign_step(adj, cid, pre));
        }
    }
    proof {
        let cur = AssignState { comps: comps@, stack: stack@ };
        assert(assign_run(adj, cid, cur) == cur);
    }
}

/// AssignmentPass: consumes the post-order in reverse over the transposed
/// adjacency, giving every node the component id of the traversal that
/// first reached it. Returns the per-node labels and the number of
/// components allocated; the result is exactly the machine model's.
pub fn assignment_pass(rev_adj: &Vec<Vec<usize>>, order: &Vec<usize>) -> (res: (
    Vec<Option<usize>>,
    usize,
))
    requires
        adj_wf(rows(rev_adj@), rows(rev_adj@).len()),
        forall|i: int|
            0 <= i < order@.len() ==> ((#[trigger] order@[i]) as int) < rev_adj@.len(),
    ensures
        res.0@ == assign_model(rows(rev_adj@), order@).st.comps,
        res.1 as int == assign_model(rows(rev_adj@), order@).count,
{
    let ghost adj = rows(rev_adj@);
    let n = rev_adj.len();
    let mut comps: Vec<Option<usize>> = Vec::new();
    let mut i: usize = 0;
    while i < n
        invariant
            i <= n,
            comps@.len() == i,
            forall|x: int| 0 <= x < i ==> (#[trigger] comps@[x]) is None,
        decreases n - i,
    {
        comps.push(None);
        i += 1;
    }
    let mut stack: Vec<(usize, usize)> = Vec::new();
    proof {
        assert(comps@ =~= assign_init(adj.len()).comps);
        assert(stack@ =~= assign_init(adj.len()).stack);
    }
    let mut k: usize = 0;
    let mut t: usize = 0;
    while t < order.len()
        invariant
            adj == rows(rev_adj@),
            adj_wf(adj, adj.len()),
            forall|i2: int|
                0 <= i2 < order@.len() ==> ((#[trigger] order@[i2]) as int) < rev_adj@.len(),
            t <= order@.len(),
            comps@ == assign_roots(adj, order@, t as nat).st.comps,
            k as int == assign_roots(adj, order@, t as nat).count,
            stack@.len() == 0,
        decreases order@.len() - t,
    {
        proof {
            lemma_assign_roots(adj, order@, t as nat);
        }
        let r = order[order.len() - 1 - t];
        if comps[r].is_none() {
            proof {
                lemma_count_some_lt_if_none(comps@, r as int);
                lemma_count_some_le(comps@);
            }
            comps.set(r, Some(k));
            stack.push((r, 0));
            proof {
                let p = assign_roots(adj, order@, t as nat);
                let pushed = AssignState {
                    comps: p.st.comps.update(r as int, Some(k)),
                    stack: p.st.stack.push((r, 0usize)),
                };
                assert(stack@ =~= pushed.stack);
                assert(assign_state_wf(adj, pushed));
            }
            dfs_assign(rev_adj, &mut comps, &mut stack, k);
            k = k + 1;
        }
        proof {
            lemma_assign_roots(adj, order@, (t + 1) as nat);
            assert(order@[order@.len() - (t + 1)] == r);
            assert(comps@ == assign_roots(adj, order@, (t + 1) as nat).st.comps);
            assert(k as int == assign_roots(adj, order@, (t + 1) as nat).count);
        }
        t += 1;
    }
    (comps, k)
}

} // verus!
