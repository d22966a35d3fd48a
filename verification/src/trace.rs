//! The event log of the ordering pass: the same traversal machine,
//! extended with a log of discovery and finishing events. The log gives
//! every node a discovery position and a finishing position; the two
//! nest — a node discovered during another node's activity finishes
//! within it and is reachable from it — which is what makes the reverse
//! post-order consumption of the assignment pass group exactly the
//! mutually reachable nodes together.

use vstd::prelude::*;

verus! {

use crate::graph::adj_wf;
use crate::order::OrderState;
use crate::order::order_init;
use crate::order::order_roots;
use crate::order::order_run;
use crate::order::order_state_inv;
use crate::order::order_state_wf;
use crate::order::order_step;
use crate::order::lemma_order_roots;
use crate::order::lemma_order_run;
use crate::order::lemma_order_step_inv;
use crate::order::lemma_order_step_measure;
use crate::order::lemma_order_step_wf;
use crate::order::on_stack;
use crate::order::stack_pending;
use crate::order::unvisited;

/// An entry of the log: `(false, u)` records the discovery of `u`,
/// `(true, u)` its finishing.
pub type Event = (bool, usize);

/// The traversal state together with the log of its events so far.
pub struct TraceState {
    pub st: OrderState,
    pub trace: Seq<Event>,
}

/// The event that one machine step appends: a discovery when it descends
/// into an unvisited neighbor, a finishing when it pops the top node, and
/// nothing when it skips a visited neighbor.
pub open spec fn step_events(adj: Seq<Seq<usize>>, st: OrderState) -> Seq<Event>
    recommends
        st.stack.len() > 0,
{
    let v = st.stack.last().0;
    let c = st.stack.last().1;
    if (c as int) < adj[v as int].len() {
        let w = adj[v as int][c as int];
        if st.visited[w as int] {
            Seq::empty()
        } else {
            seq![(false, w)]
        }
    } else {
        seq![(true, v)]
    }
}

/// One step of the logging machine: the plain step, with its events
/// appended to the log.
pub open spec fn trace_step(adj: Seq<Seq<usize>>, ts: TraceState) -> TraceState {
    TraceState { st: order_step(adj, ts.st), trace: ts.trace + step_events(adj, ts.st) }
}

/// The logging machine run to completion.
pub open spec fn trace_run(adj: Seq<Seq<usize>>, ts: TraceState) -> TraceState
    decreases unvisited(ts.st), stack_pending(adj, ts.st.stack),
        when adj_wf(adj, adj.len()) && order_state_wf(adj, ts.st)
        via trace_run_decreases
{
    if ts.st.stack.len() == 0 {
        ts
    } else {
        trace_run(adj, trace_step(adj, ts))
    }
}

#[via_fn]
proof fn trace_run_decreases(adj: Seq<Seq<usize>>, ts: TraceState) {
    if ts.st.stack.len() > 0 {
        lemma_order_step_measure(adj, ts.st);
    }
}

/// The logging machine over all roots, mirroring the root loop of the
/// ordering pass.
pub open spec fn trace_roots(adj: Seq<Seq<usize>>, i: nat) -> TraceState
    decreases i,
{
    if i == 0 {
        TraceState { st: order_init(adj.len()), trace: Seq::empty() }
    } else {
        let ts = trace_roots(adj, (i - 1) as nat);
        if ts.st.visited[i - 1] {
            ts
        } else {
            trace_run(
                adj,
                TraceState {
                    st: OrderState {
                        visited: ts.st.visited.update(i - 1, true),
                        order: ts.st.order,
                        stack: ts.st.stack.push((((i - 1) as usize), 0usize)),
                    },
                    trace: ts.trace.push((false, (i - 1) as usize)),
                },
            )
        }
    }
}

/// The logging run drives the same traversal as the plain run.
pub proof fn lemma_trace_run_proj(adj: Seq<Seq<usize>>, ts: TraceState)
    requires
        adj_wf(adj, adj.len()),
        order_state_wf(adj, ts.st),
    ensures
        trace_run(adj, ts).st == order_run(adj, ts.st),
    decreases unvisited(ts.st), stack_pending(adj, ts.st.stack),
{
    if ts.st.stack.len() == 0 {
    } else {
        lemma_order_step_measure(adj, ts.st);
        lemma_order_step_wf(adj, ts.st);
        lemma_trace_run_proj(adj, trace_step(adj, ts));
    }
}

/// The logging root loop drives the same traversal as the plain one.
pub proof fn lemma_trace_roots_proj(adj: Seq<Seq<usize>>, i: nat)
    requires
        adj_wf(adj, adj.len()),
        i <= adj.len(),
    ensures
        trace_roots(adj, i).st == order_roots(adj, i),
    decreases i,
{
    if i == 0 {
    } else {
        lemma_trace_roots_proj(adj, (i - 1) as nat);
        lemma_order_roots(adj, (i - 1) as nat);
        let ts = trace_roots(adj, (i - 1) as nat);
        if ts.st.visited[i - 1] {
        } else {
            let pushed = OrderState {
                visited: ts.st.visited.update(i - 1, true),
                order: ts.st.order,
                stack: ts.st.stack.push((((i - 1) as usize), 0usize)),
            };
            assert(pushed.stack[0].0 == (i - 1) as usize);
            assert(order_state_wf(adj, pushed));
            lemma_trace_run_proj(
                adj,
                TraceState { st: pushed, trace: ts.trace.push((false, (i - 1) as usize)) },
            );
        }
    }
}

/// The first position of `e` in the log, or `-1` if it never occurs.
pub open spec fn find_event(tr: Seq<Event>, e: Event) -> int
    decreases tr.len(),
{
    if tr.len() == 0 {
        -1
    } else {
        let r = find_event(tr.drop_last(), e);
        if r >= 0 {
            r
        } else if tr.last() == e {
            tr.len() - 1
        } else {
            -1
        }
    }
}

/// The discovery position of `u`.
pub open spec fn disc_at(tr: Seq<Event>, u: usize) -> int {
    find_event(tr, (false, u))
}

/// The finishing position of `u`.
pub open spec fn fin_at(tr: Seq<Event>, u: usize) -> int {
    find_event(tr, (true, u))
}

/// A found position is a position of the log and holds the event.
pub proof fn lemma_find_range(tr: Seq<Event>, e: Event)
    ensures
        -1 <= find_event(tr, e) < tr.len(),
        find_event(tr, e) >= 0 ==> tr[find_event(tr, e)] == e,
    decreases tr.len(),
{
    if tr.len() > 0 {
        lemma_find_range(tr.drop_last(), e);
        if find_event(tr.drop_last(), e) >= 0 {
            assert(tr[find_event(tr, e)] == tr.drop_last()[find_event(tr, e)]);
        }
    }
}

/// Appending one event moves no existing position and places only that
/// event, at the end.
pub proof fn lemma_find_push(tr: Seq<Event>, e: Event, x: Event)
    ensures
        find_event(tr.push(x), e) == if find_event(tr, e) >= 0 {
            find_event(tr, e)
        } else if x == e {
            tr.len() as int
        } else {
            -1
        },
{
    assert(tr.push(x).drop_last() =~= tr);
    assert(tr.push(x).last() == x);
}

/// All discovery and finishing positions after appending one event.
pub proof fn lemma_positions_push(tr: Seq<Event>, x: Event)
    ensures
        forall|u: usize|
            #[trigger] disc_at(tr.push(x), u) == if disc_at(tr, u) >= 0 {
                disc_at(tr, u)
            } else if x == (false, u) {
                tr.len() as int
            } else {
                -1
            },
        forall|u: usize|
            #[trigger] fin_at(tr.push(x), u) == if fin_at(tr, u) >= 0 {
                fin_at(tr, u)
            } else if x == (true, u) {
                tr.len() as int
            } else {
                -1
            },
{
    assert forall|u: usize|
        #[trigger] disc_at(tr.push(x), u) == if disc_at(tr, u) >= 0 {
            disc_at(tr, u)
        } else if x == (false, u) {
            tr.len() as int
        } else {
            -1
        } by {
        lemma_find_push(tr, (false, u), x);
    }
    assert forall|u: usize|
        #[trigger] fin_at(tr.push(x), u) == if fin_at(tr, u) >= 0 {
            fin_at(tr, u)
        } else if x == (true, u) {
            tr.len() as int
        } else {
            -1
        } by {
        lemma_find_push(tr, (true, u), x);
    }
}

/// The log invariant of the traversal. Discoveries record exactly the
/// visited nodes and finishings exactly the post-order list, which grows
/// in log order; the stack holds unfinished nodes in discovery order, each
/// reaching the ones above it and everything discovered after it; and the
/// events nest: whatever is discovered during a node's activity finishes
/// within it and is reachable from it.
pub open spec fn trace_wf(adj: Seq<Seq<usize>>, ts: TraceState) -> bool {
    let tr = ts.trace;
    let st = ts.st;
    &&& order_state_wf(adj, st)
    &&& order_state_inv(st)
    &&& st.visited.len() == adj.len()
    &&& forall|u: usize|
        (u as int) < st.visited.len() ==> (st.visited[u as int] <==> #[trigger] disc_at(tr, u)
            >= 0)
    &&& forall|u: usize| #[trigger] disc_at(tr, u) >= 0 ==> (u as int) < st.visited.len()
    &&& forall|i: int| 0 <= i < st.order.len() ==> #[trigger] fin_at(tr, st.order[i]) >= 0
    &&& forall|u: usize| #[trigger] fin_at(tr, u) >= 0 ==> st.order.contains(u)
    &&& forall|u: usize|
        #[trigger] fin_at(tr, u) >= 0 ==> disc_at(tr, u) >= 0 && disc_at(tr, u) < fin_at(tr, u)
    &&& forall|k: int| 0 <= k < st.stack.len() ==> disc_at(tr, (#[trigger] st.stack[k]).0) >= 0
    &&& forall|k: int| 0 <= k < st.stack.len() ==> fin_at(tr, (#[trigger] st.stack[k]).0) < 0
    &&& forall|k1: int, k2: int|
        #![trigger disc_at(tr, st.stack[k1].0), disc_at(tr, st.stack[k2].0)]
        0 <= k1 < k2 < st.stack.len() ==> disc_at(tr, st.stack[k1].0) < disc_at(
            tr,
            st.stack[k2].0,
        )
    &&& forall|i1: int, i2: int|
        #![trigger fin_at(tr, st.order[i1]), fin_at(tr, st.order[i2])]
        0 <= i1 < i2 < st.order.len() ==> fin_at(tr, st.order[i1]) < fin_at(tr, st.order[i2])
    &&& forall|k1: int, k2: int|
        #![trigger reaches(adj, st.stack[k1].0, st.stack[k2].0)]
        0 <= k1 <= k2 < st.stack.len() ==> reaches(adj, st.stack[k1].0, st.stack[k2].0)
    &&& forall|k: int, w: usize|
        #![trigger st.stack[k], disc_at(tr, w)]
        0 <= k < st.stack.len() && disc_at(tr, w) >= 0 && disc_at(tr, w) > disc_at(
            tr,
            st.stack[k].0,
        ) ==> reaches(adj, st.stack[k].0, w)
    &&& forall|u: usize, w: usize|
        #![trigger fin_at(tr, u), disc_at(tr, w)]
        fin_at(tr, u) >= 0 && disc_at(tr, w) >= 0 && disc_at(tr, u) < disc_at(tr, w) < fin_at(
            tr,
            u,
        ) ==> fin_at(tr, w) >= 0 && fin_at(tr, w) < fin_at(tr, u) && reaches(adj, u, w)
    &&& forall|k: int, j: int|
        0 <= k < st.stack.len() && 0 <= j < st.stack[k].1 ==> disc_at(
            tr,
            (#[trigger] adj[st.stack[k].0 as int][j]),
        ) >= 0
    &&& forall|u: usize, j: int|
        #![trigger fin_at(tr, u), adj[u as int][j]]
        fin_at(tr, u) >= 0 && (u as int) < adj.len() && 0 <= j < adj[u as int].len()
            ==> disc_at(tr, adj[u as int][j]) >= 0 && disc_at(tr, adj[u as int][j]) < fin_at(
            tr,
            u,
        )
}

use crate::reach::reaches;
use crate::reach::lemma_reaches_extend;
use crate::reach::lemma_reaches_refl;

/// One step of the logging machine preserves the log invariant.
pub proof fn lemma_trace_step_wf(adj: Seq<Seq<usize>>, ts: TraceState)
    requires
        adj_wf(adj, adj.len()),
        trace_wf(adj, ts),
        ts.st.stack.len() > 0,
    ensures
        trace_wf(adj, trace_step(adj, ts)),
{
    let st = ts.st;
    let tr = ts.trace;
    let ts2 = trace_step(adj, ts);
    let st2 = ts2.st;
    let tr2 = ts2.trace;
    let v = st.stack.last().0;
    let c = st.stack.last().1;
    let last = st.stack.len() - 1;
    assert(st.stack[last].0 == v);
    lemma_order_step_wf(adj, st);
    lemma_order_step_inv(adj, st);
    if (c as int) < adj[v as int].len() {
        let w = adj[v as int][c as int];
        let stack1 = st.stack.update(last, (v, (c + 1) as usize));
        assert(forall|k: int| 0 <= k < stack1.len() ==> (#[trigger] stack1[k]).0 == st.stack[k].0);
        if st.visited[w as int] {
            // A skipped neighbor: the log does not change.
            assert(tr2 =~= tr);
            assert(st2.stack == stack1);
            assert(disc_at(tr, w) >= 0);
            assert forall|k: int, j: int|
                0 <= k < st2.stack.len() && 0 <= j < st2.stack[k].1 implies disc_at(
                tr2,
                (#[trigger] adj[st2.stack[k].0 as int][j]),
            ) >= 0 by {
                if k == last && j == c {
                    assert(adj[st2.stack[k].0 as int][j] == w);
                } else {
                    assert(st2.stack[k].0 == st.stack[k].0);
                    if k == last {
                        assert(j < c);
                    } else {
                        assert(st2.stack[k].1 == st.stack[k].1);
                    }
                }
            }
        } else {
            // A discovery: `w` is logged at the end and pushed on top.
            let ev = (false, w);
            assert(tr2 =~= tr.push(ev));
            lemma_positions_push(tr, ev);
            lemma_find_range(tr, ev);
            let stack2 = stack1.push((w, 0usize));
            assert(st2.stack == stack2);
            assert(stack2[stack2.len() - 1] == (w, 0usize));
            assert(disc_at(tr, w) < 0);
            assert(disc_at(tr2, w) == tr.len());
            assert(fin_at(tr2, w) == fin_at(tr, w));
            assert(fin_at(tr, w) < 0);
            // Existing discovery positions lie strictly below the new one.
            assert forall|u: usize| disc_at(tr, u) >= 0 implies disc_at(tr, u)
                < tr.len() by {
                lemma_find_range(tr, (false, u));
            }
            assert forall|u: usize| fin_at(tr, u) >= 0 implies fin_at(tr, u) < tr.len() by {
                lemma_find_range(tr, (true, u));
            }
            assert forall|k1: int, k2: int|
                0 <= k1 <= k2 < stack2.len() implies #[trigger] reaches(
                adj,
                stack2[k1].0,
                stack2[k2].0,
            ) by {
                if k2 < stack2.len() - 1 {
                    assert(reaches(adj, st.stack[k1].0, st.stack[k2].0));
                } else if k1 < stack2.len() - 1 {
                    assert(reaches(adj, st.stack[k1].0, st.stack[last].0));
                    lemma_reaches_extend(adj, st.stack[k1].0, v, w);
                } else {
                    lemma_reaches_refl(adj, w);
                }
            }
            assert forall|k: int, w2: usize|
                0 <= k < stack2.len() && disc_at(tr2, w2) >= 0 && disc_at(tr2, w2) > disc_at(
                    tr2,
                    (#[trigger] stack2[k]).0,
                ) implies #[trigger] reaches(adj, stack2[k].0, w2) by {
                if w2 == w {
                    if k < stack2.len() - 1 {
                        assert(reaches(adj, st.stack[k].0, st.stack[last].0));
                        lemma_reaches_extend(adj, st.stack[k].0, v, w);
                    } else {
                        lemma_reaches_refl(adj, w);
                    }
                } else {
                    assert(disc_at(tr, w2) == disc_at(tr2, w2));
                    if k < stack2.len() - 1 {
                        assert(reaches(adj, st.stack[k].0, w2));
                    } else {
                        // Nothing was discovered after the new top.
                        assert(disc_at(tr2, w2) < tr.len());
                        assert(false);
                    }
                }
            }
            assert forall|u: usize, w2: usize|
                #![trigger fin_at(tr2, u), disc_at(tr2, w2)]
                fin_at(tr2, u) >= 0 && disc_at(tr2, w2) >= 0 && disc_at(tr2, u) < disc_at(
                    tr2,
                    w2,
                ) < fin_at(tr2, u) implies fin_at(tr2, w2) >= 0 && fin_at(tr2, w2)
                < fin_at(tr2, u) && reaches(adj, u, w2) by {
                assert(fin_at(tr, u) == fin_at(tr2, u));
                if w2 == w {
                    assert(disc_at(tr2, w2) == tr.len());
                    assert(fin_at(tr2, u) < tr.len());
                    assert(false);
                } else {
                    assert(disc_at(tr, w2) == disc_at(tr2, w2));
                    assert(#[trigger] disc_at(tr, w2) >= 0);
                    assert(fin_at(tr, w2) >= 0 && fin_at(tr, w2) < fin_at(tr, u) && reaches(
                        adj,
                        u,
                        w2,
                    ));
                }
            }
            assert forall|k: int, j: int|
                0 <= k < st2.stack.len() && 0 <= j < st2.stack[k].1 implies disc_at(
                tr2,
                (#[trigger] adj[st2.stack[k].0 as int][j]),
            ) >= 0 by {
                if k == last && j == c {
                    assert(adj[st2.stack[k].0 as int][j] == w);
                } else if k == st2.stack.len() - 1 {
                    assert(st2.stack[k].1 == 0);
                } else {
                    assert(st2.stack[k].0 == st.stack[k].0);
                    if k == last {
                        assert(j < c);
                    } else {
                        assert(st2.stack[k].1 == st.stack[k].1);
                    }
                    assert(disc_at(tr, adj[st.stack[k].0 as int][j]) >= 0);
                }
            }
            assert forall|u: usize, j: int|
                fin_at(tr2, u) >= 0 && (u as int) < adj.len() && 0 <= j < adj[u as int].len()
                    implies disc_at(tr2, #[trigger] adj[u as int][j]) >= 0 && disc_at(
                tr2,
                adj[u as int][j],
            ) < fin_at(tr2, u) by {
                assert(fin_at(tr, u) == fin_at(tr2, u));
                assert(disc_at(tr, adj[u as int][j]) >= 0);
                assert(disc_at(tr2, adj[u as int][j]) == disc_at(tr, adj[u as int][j]));
            }
        }
    } else {
        // A finishing: `v` is logged at the end, popped, and appended to
        // the post-order list.
        let ev = (true, v);
        assert(tr2 =~= tr.push(ev));
        lemma_positions_push(tr, ev);
        lemma_find_range(tr, ev);
        let stack2 = st.stack.drop_last();
        let order2 = st.order.push(v);
        assert(st2.stack == stack2 && st2.order == order2);
        assert(forall|k: int| 0 <= k < stack2.len() ==> (#[trigger] stack2[k]) == st.stack[k]);
        assert(fin_at(tr, v) < 0);
        assert(fin_at(tr2, v) == tr.len());
        assert forall|u: usize| disc_at(tr, u) >= 0 implies disc_at(tr, u) < tr.len() by {
            lemma_find_range(tr, (false, u));
        }
        assert forall|u: usize| fin_at(tr, u) >= 0 implies fin_at(tr, u) < tr.len() by {
            lemma_find_range(tr, (true, u));
        }
        assert(forall|u: usize| #[trigger] disc_at(tr2, u) == disc_at(tr, u));
        // Stack nodes other than `v` stay unfinished.
        assert forall|k: int| 0 <= k < stack2.len() implies fin_at(
            tr2,
            (#[trigger] stack2[k]).0,
        ) < 0 by {
            assert(st.stack[k].0 != st.stack[last].0);
        }
        // The list still finishes in log order.
        assert forall|i1: int, i2: int|
            #![trigger fin_at(tr2, order2[i1]), fin_at(tr2, order2[i2])]
            0 <= i1 < i2 < order2.len() implies fin_at(tr2, order2[i1]) < fin_at(
            tr2,
            order2[i2],
        ) by {
            if i2 == order2.len() - 1 {
                assert(order2[i1] == st.order[i1]);
                assert(fin_at(tr, st.order[i1]) >= 0);
                assert(order2[i2] == v);
            } else {
                assert(order2[i1] == st.order[i1] && order2[i2] == st.order[i2]);
                assert(fin_at(tr, st.order[i1]) < fin_at(tr, st.order[i2]));
            }
        }
        assert forall|u: usize| #[trigger] fin_at(tr2, u) >= 0 implies order2.contains(u) by {
            if u == v {
                assert(order2[order2.len() - 1] == v);
            } else {
                assert(fin_at(tr, u) >= 0);
                let i = choose|i: int| 0 <= i < st.order.len() && st.order[i] == u;
                assert(order2[i] == u);
            }
        }
        assert forall|i: int| 0 <= i < order2.len() implies #[trigger] fin_at(
            tr2,
            order2[i],
        ) >= 0 by {
            if i < st.order.len() {
                assert(order2[i] == st.order[i]);
                assert(fin_at(tr, st.order[i]) >= 0);
            }
        }
        // The nesting facts, extended to the newly finished `v`.
        assert forall|u: usize, w2: usize|
            #![trigger fin_at(tr2, u), disc_at(tr2, w2)]
            fin_at(tr2, u) >= 0 && disc_at(tr2, w2) >= 0 && disc_at(tr2, u) < disc_at(
                tr2,
                w2,
            ) < fin_at(tr2, u) implies fin_at(tr2, w2) >= 0 && fin_at(tr2, w2)
            < fin_at(tr2, u) && reaches(adj, u, w2) by {
            if u == v {
                // Everything discovered after `v` has already finished:
                // `v` was on top, so nothing below it came later, and the
                // traversal reaches all of it from `v`.
                assert(disc_at(tr, w2) >= 0 && disc_at(tr, w2) > disc_at(tr, v));
                assert(w2 != v);
                if on_stack(stack2, w2) {
                    let k = choose|k: int|
                        0 <= k < stack2.len() && (#[trigger] stack2[k]).0 == w2;
                    assert(disc_at(tr, st.stack[k].0) < disc_at(tr, st.stack[last].0));
                    assert(false);
                }
                assert((w2 as int) < st.visited.len());
                assert(st.visited[w2 as int]);
                assert(st.order.contains(w2) || on_stack(st.stack, w2));
                if on_stack(st.stack, w2) {
                    let k = choose|k: int|
                        0 <= k < st.stack.len() && (#[trigger] st.stack[k]).0 == w2;
                    assert(k < last ==> stack2[k].0 == w2);
                    assert(k == last ==> w2 == v);
                    assert(false);
                }
                let i = choose|i: int| 0 <= i < st.order.len() && st.order[i] == w2;
                assert(fin_at(tr, st.order[i]) >= 0);
                assert(fin_at(tr2, w2) == fin_at(tr, w2));
                assert(reaches(adj, st.stack[last].0, w2));
            } else {
                assert(fin_at(tr, u) == fin_at(tr2, u));
                if w2 == v {
                    // The old nesting fact already rules this pair out:
                    // `v` was unfinished while `u` finished inside its own
                    // discovery span.
                    assert(fin_at(tr, u) >= 0 && disc_at(tr, v) >= 0);
                    assert(!(disc_at(tr, u) < disc_at(tr, v) < fin_at(tr, u)));
                    assert(false);
                } else {
                    assert(fin_at(tr, w2) >= 0 && fin_at(tr, w2) < fin_at(tr, u) && reaches(
                        adj,
                        u,
                        w2,
                    ));
                }
            }
        }
        // The finished `v` saw its whole neighbor row discovered.
        assert forall|u: usize, j: int|
            fin_at(tr2, u) >= 0 && (u as int) < adj.len() && 0 <= j < adj[u as int].len()
                implies disc_at(tr2, #[trigger] adj[u as int][j]) >= 0 && disc_at(
            tr2,
            adj[u as int][j],
        ) < fin_at(tr2, u) by {
            if u == v {
                assert(st.stack[last].1 == c);
                assert((c as int) >= adj[v as int].len());
                assert(disc_at(tr, adj[st.stack[last].0 as int][j]) >= 0);
            } else {
                assert(fin_at(tr, u) >= 0);
                assert(disc_at(tr, adj[u as int][j]) >= 0);
                assert(disc_at(tr, adj[u as int][j]) < fin_at(tr, u));
            }
        }
        assert forall|k: int, j: int|
            0 <= k < st2.stack.len() && 0 <= j < st2.stack[k].1 implies disc_at(
            tr2,
            (#[trigger] adj[st2.stack[k].0 as int][j]),
        ) >= 0 by {
            assert(st2.stack[k] == st.stack[k]);
            assert(disc_at(tr, adj[st.stack[k].0 as int][j]) >= 0);
        }
    }
}

/// The run of the logging machine preserves the log invariant and empties
/// the stack.
pub proof fn lemma_trace_run_wf(adj: Seq<Seq<usize>>, ts: TraceState)
    requires
        adj_wf(adj, adj.len()),
        trace_wf(adj, ts),
    ensures
        trace_wf(adj, trace_run(adj, ts)),
        trace_run(adj, ts).st.stack.len() == 0,
    decreases unvisited(ts.st), stack_pending(adj, ts.st.stack),
{
    if ts.st.stack.len() == 0 {
    } else {
        lemma_order_step_measure(adj, ts.st);
        lemma_trace_step_wf(adj, ts);
        lemma_trace_run_wf(adj, trace_step(adj, ts));
    }
}

/// The root loop of the logging machine preserves the log invariant; after
/// `i` roots every index below `i` is visited and the stack is empty.
pub proof fn lemma_trace_roots_wf(adj: Seq<Seq<usize>>, i: nat)
    requires
        adj_wf(adj, adj.len()),
        i <= adj.len(),
    ensures
        ({
            let ts = trace_roots(adj, i);
            &&& trace_wf(adj, ts)
            &&& ts.st.stack.len() == 0
            &&& ts.st.visited.len() == adj.len()
            &&& forall|x: int| 0 <= x < i ==> ts.st.visited[x]
        }),
    decreases i,
{
    if i == 0 {
        assert(trace_wf(adj, trace_roots(adj, 0))) by {
            let ts = trace_roots(adj, 0);
            assert(forall|u: usize| disc_at(ts.trace, u) == -1);
            assert(forall|u: usize| fin_at(ts.trace, u) == -1);
        }
    } else {
        lemma_trace_roots_wf(adj, (i - 1) as nat);
        let ts = trace_roots(adj, (i - 1) as nat);
        let tr = ts.trace;
        if ts.st.visited[i - 1] {
        } else {
            let root = (i - 1) as usize;
            let ev = (false, root);
            let pushed = TraceState {
                st: OrderState {
                    visited: ts.st.visited.update(i - 1, true),
                    order: ts.st.order,
                    stack: ts.st.stack.push((root, 0usize)),
                },
                trace: tr.push(ev),
            };
            let tr2 = pushed.trace;
            assert(pushed.st.stack.len() == 1);
            assert(pushed.st.stack[0] == (root, 0usize));
            lemma_positions_push(tr, ev);
            lemma_find_range(tr, ev);
            assert(disc_at(tr, root) < 0);
            assert(disc_at(tr2, root) == tr.len());
            assert(fin_at(tr2, root) == fin_at(tr, root));
            assert(fin_at(tr, root) < 0);
            assert forall|u: usize| disc_at(tr, u) >= 0 implies disc_at(tr, u) < tr.len() by {
                lemma_find_range(tr, (false, u));
            }
            assert(order_state_wf(adj, pushed.st));
            assert(order_state_inv(pushed.st)) by {
                assert(!ts.st.order.contains(root));
                assert(on_stack(pushed.st.stack, root));
                assert forall|i2: int| 0 <= i2 < pushed.st.order.len() implies !on_stack(
                    pushed.st.stack,
                    #[trigger] pushed.st.order[i2],
                ) by {
                    assert(pushed.st.order[i2] != root);
                    if on_stack(pushed.st.stack, pushed.st.order[i2]) {
                        let k = choose|k: int|
                            0 <= k < pushed.st.stack.len() && (#[trigger] pushed.st.stack[k]).0
                                == pushed.st.order[i2];
                        assert(k == 0);
                    }
                }
            }
            assert(trace_wf(adj, pushed)) by {
                lemma_reaches_refl(adj, root);
                assert forall|k: int, w: usize|
                    #![trigger pushed.st.stack[k], disc_at(tr2, w)]
                    0 <= k < pushed.st.stack.len() && disc_at(tr2, w) >= 0 && disc_at(tr2, w)
                        > disc_at(tr2, pushed.st.stack[k].0) implies reaches(
                    adj,
                    pushed.st.stack[k].0,
                    w,
                ) by {
                    assert(pushed.st.stack[k].0 == root);
                    if w == root {
                        assert(false);
                    } else {
                        assert(disc_at(tr2, w) == disc_at(tr, w));
                        assert(disc_at(tr, w) < tr.len());
                        assert(false);
                    }
                }
                assert forall|u: usize, w: usize|
                    #![trigger fin_at(tr2, u), disc_at(tr2, w)]
                    fin_at(tr2, u) >= 0 && disc_at(tr2, w) >= 0 && disc_at(tr2, u) < disc_at(
                        tr2,
                        w,
                    ) < fin_at(tr2, u) implies fin_at(tr2, w) >= 0 && fin_at(tr2, w) < fin_at(
                    tr2,
                    u,
                ) && reaches(adj, u, w) by {
                    assert(fin_at(tr2, u) == fin_at(tr, u));
                    if w == root {
                        assert(disc_at(tr2, w) == tr.len());
                        lemma_find_range(tr, (true, u));
                        assert(false);
                    } else {
                        assert(disc_at(tr, w) == disc_at(tr2, w));
                        assert(#[trigger] disc_at(tr, w) >= 0);
                        assert(fin_at(tr, w) >= 0 && fin_at(tr, w) < fin_at(tr, u) && reaches(
                            adj,
                            u,
                            w,
                        ));
                    }
                }
                assert forall|u: usize, j: int|
                    #![trigger fin_at(tr2, u), adj[u as int][j]]
                    fin_at(tr2, u) >= 0 && (u as int) < adj.len() && 0 <= j < adj[
                        u as int
                    ].len() implies disc_at(tr2, adj[u as int][j]) >= 0 && disc_at(
                    tr2,
                    adj[u as int][j],
                ) < fin_at(tr2, u) by {
                    assert(fin_at(tr, u) >= 0);
                    assert(disc_at(tr, adj[u as int][j]) >= 0);
                    assert(disc_at(tr2, adj[u as int][j]) == disc_at(tr, adj[u as int][j]));
                }
            }
            lemma_trace_run_wf(adj, pushed);
            lemma_trace_run_proj(adj, pushed);
            lemma_order_run(adj, pushed.st);
        }
    }
}

/// The facts of a completed log that the path arguments rest on: every
/// node is discovered and finished, discovery precedes finishing, the
/// events nest, and a node's neighbors are all discovered before it
/// finishes.
pub open spec fn log_complete(adj: Seq<Seq<usize>>, tr: Seq<Event>) -> bool {
    &&& forall|u: usize| (u as int) < adj.len() ==> #[trigger] disc_at(tr, u) >= 0
    &&& forall|u: usize| (u as int) < adj.len() ==> #[trigger] fin_at(tr, u) >= 0
    &&& forall|u: usize|
        #[trigger] fin_at(tr, u) >= 0 ==> disc_at(tr, u) >= 0 && disc_at(tr, u) < fin_at(tr, u)
    &&& forall|u: usize, w: usize|
        #![trigger fin_at(tr, u), disc_at(tr, w)]
        fin_at(tr, u) >= 0 && disc_at(tr, w) >= 0 && disc_at(tr, u) < disc_at(tr, w) < fin_at(
            tr,
            u,
        ) ==> fin_at(tr, w) >= 0 && fin_at(tr, w) < fin_at(tr, u) && reaches(adj, u, w)
    &&& forall|u: usize, j: int|
        #![trigger fin_at(tr, u), adj[u as int][j]]
        fin_at(tr, u) >= 0 && (u as int) < adj.len() && 0 <= j < adj[u as int].len()
            ==> disc_at(tr, adj[u as int][j]) >= 0 && disc_at(tr, adj[u as int][j]) < fin_at(
            tr,
            u,
        )
}

/// A finished log — all roots consumed — is complete.
pub proof fn lemma_log_complete(adj: Seq<Seq<usize>>)
    requires
        adj_wf(adj, adj.len()),
    ensures
        log_complete(adj, trace_roots(adj, adj.len()).trace),
{
    lemma_trace_roots_wf(adj, adj.len());
    let ts = trace_roots(adj, adj.len());
    let tr = ts.trace;
    assert forall|u: usize| (u as int) < adj.len() implies #[trigger] fin_at(tr, u) >= 0 by {
        assert(ts.st.visited[u as int]);
        assert(disc_at(tr, u) >= 0);
        assert(ts.st.order.contains(u) || on_stack(ts.st.stack, u));
        let i = choose|i: int| 0 <= i < ts.st.order.len() && ts.st.order[i] == u;
        assert(fin_at(tr, ts.st.order[i]) >= 0);
    }
}

/// Distinct nodes have distinct discovery positions.
proof fn lemma_disc_inj(tr: Seq<Event>, u: usize, w: usize)
    requires
        disc_at(tr, u) >= 0,
        disc_at(tr, w) >= 0,
        disc_at(tr, u) == disc_at(tr, w),
    ensures
        u == w,
{
    lemma_find_range(tr, (false, u));
    lemma_find_range(tr, (false, w));
}

/// Distinct nodes have distinct finishing positions.
proof fn lemma_fin_inj(tr: Seq<Event>, u: usize, w: usize)
    requires
        fin_at(tr, u) >= 0,
        fin_at(tr, w) >= 0,
        fin_at(tr, u) == fin_at(tr, w),
    ensures
        u == w,
{
    lemma_find_range(tr, (true, u));
    lemma_find_range(tr, (true, w));
}

/// Position `k` of the walk carries its least discovery position.
pub open spec fn min_disc_at(tr: Seq<Event>, p: Seq<usize>, k: int) -> bool {
    &&& 0 <= k < p.len()
    &&& forall|j: int| 0 <= j < p.len() ==> disc_at(tr, p[k]) <= disc_at(tr, #[trigger] p[j])
}

/// Some position of a walk carries the least discovery position.
proof fn lemma_exists_min_disc(tr: Seq<Event>, p: Seq<usize>)
    requires
        p.len() >= 1,
    ensures
        exists|k: int| #[trigger] min_disc_at(tr, p, k),
    decreases p.len(),
{
    if p.len() == 1 {
        assert(min_disc_at(tr, p, 0));
    } else {
        let q = p.drop_last();
        lemma_exists_min_disc(tr, q);
        let k0 = choose|k0: int| #[trigger] min_disc_at(tr, q, k0);
        assert(forall|j: int| 0 <= j < q.len() ==> q[j] == p[j]);
        if disc_at(tr, p.last()) < disc_at(tr, p[k0]) {
            let k = p.len() - 1;
            assert forall|j: int| 0 <= j < p.len() implies disc_at(tr, p[k]) <= disc_at(
                tr,
                #[trigger] p[j],
            ) by {
                if j < p.len() - 1 {
                    assert(disc_at(tr, q[k0]) <= disc_at(tr, q[j]));
                }
            }
            assert(min_disc_at(tr, p, k));
        } else {
            assert forall|j: int| 0 <= j < p.len() implies disc_at(tr, p[k0]) <= disc_at(
                tr,
                #[trigger] p[j],
            ) by {
                if j < p.len() - 1 {
                    assert(disc_at(tr, q[k0]) <= disc_at(tr, q[j]));
                }
            }
            assert(min_disc_at(tr, p, k0));
        }
    }
}

/// From the earliest-discovered position of a walk onward, every node is
/// discovered — and hence finishes — within that earliest node's
/// activity, and is reachable from it.
proof fn lemma_suffix_inside(
    adj: Seq<Seq<usize>>,
    tr: Seq<Event>,
    p: Seq<usize>,
    k: int,
    i: int,
)
    requires
        adj_wf(adj, adj.len()),
        log_complete(adj, tr),
        crate::reach::is_path(adj, p),
        0 <= k <= i < p.len(),
        min_disc_at(tr, p, k),
    ensures
        disc_at(tr, p[i]) < fin_at(tr, p[k]),
        p[i] != p[k] ==> fin_at(tr, p[i]) < fin_at(tr, p[k]) && reaches(adj, p[k], p[i]),
    decreases i - k,
{
    let z = p[k];
    assert((z as int) < adj.len());
    assert(fin_at(tr, z) >= 0);
    if i == k {
    } else {
        lemma_suffix_inside(adj, tr, p, k, i - 1);
        let prev = p[i - 1];
        let row = adj[prev as int];
        assert(row.contains(p[i]));
        let jj = choose|jj: int| 0 <= jj < row.len() && row[jj] == p[i];
        assert(fin_at(tr, prev) >= 0);
        assert(disc_at(tr, adj[prev as int][jj]) < fin_at(tr, prev));
        if prev == z {
            assert(disc_at(tr, p[i]) < fin_at(tr, z));
        } else {
            assert(fin_at(tr, prev) < fin_at(tr, z));
            assert(disc_at(tr, p[i]) < fin_at(tr, z));
        }
        if p[i] != z {
            assert(disc_at(tr, z) <= disc_at(tr, p[i]));
            if disc_at(tr, z) == disc_at(tr, p[i]) {
                lemma_disc_inj(tr, z, p[i]);
            }
            assert(disc_at(tr, z) < disc_at(tr, p[i]) < fin_at(tr, z));
        }
    }
}

/// The walk's last node, when it finishes no earlier than any other node
/// of the walk, reaches the walk's first node: the latest finisher
/// dominates the whole walk.
pub proof fn lemma_max_finisher_reaches(adj: Seq<Seq<usize>>, tr: Seq<Event>, p: Seq<usize>)
    requires
        adj_wf(adj, adj.len()),
        log_complete(adj, tr),
        crate::reach::is_path(adj, p),
        forall|j: int| 0 <= j < p.len() ==> fin_at(tr, #[trigger] p[j]) <= fin_at(tr, p.last()),
    ensures
        reaches(adj, p.last(), p.first()),
{
    let m = p.len() - 1;
    let r = p[m];
    lemma_exists_min_disc(tr, p);
    let k = choose|k: int| #[trigger] min_disc_at(tr, p, k);
    lemma_suffix_inside(adj, tr, p, k, m);
    if p[m] != p[k] {
        assert(fin_at(tr, p[m]) < fin_at(tr, p[k]));
        assert(fin_at(tr, p[k]) <= fin_at(tr, p[m]));
        assert(false);
    }
    // The last node was discovered first among the walk's nodes.
    let x = p[0];
    if x == r {
        crate::reach::lemma_reaches_refl(adj, r);
    } else {
        assert(disc_at(tr, p[k]) <= disc_at(tr, p[0]));
        if disc_at(tr, r) == disc_at(tr, x) {
            lemma_disc_inj(tr, r, x);
        }
        assert(fin_at(tr, x) >= 0 && fin_at(tr, r) >= 0);
        if fin_at(tr, x) == fin_at(tr, r) {
            lemma_fin_inj(tr, x, r);
        }
        assert(fin_at(tr, x) <= fin_at(tr, r));
        assert(disc_at(tr, x) < fin_at(tr, x));
        assert(disc_at(tr, r) < disc_at(tr, x) < fin_at(tr, r));
        assert(reaches(adj, r, x));
    }
}

} // verus!
