//! Reachability along an adjacency, and the laws of the component
//! labelling: two nodes share a component id exactly when they are
//! mutually reachable, component ids grow along every path of the graph,
//! and the component count reaches the node count exactly on graphs whose
//! strongly connected components are all trivial. One direction rests on
//! the spreading invariant of the assignment pass — at the end of every
//! traversal the labelled set is closed under the transposed adjacency —
//! the other on the event log of the ordering pass: a traversal's root is
//! the latest finisher of its component, and the log's nesting makes it
//! reach back every node the traversal labels.

use vstd::prelude::*;

verus! {

use crate::assign::AssignState;
use crate::assign::assign_roots;
use crate::assign::assign_run;
use crate::assign::assign_step;
use crate::assign::assign_closure_inv;
use crate::assign::lemma_assign_step_measure;
use crate::assign::lemma_assign_step_wf;
use crate::assign::assign_state_wf;
use crate::assign::lemma_assign_roots;
use crate::assign::lemma_assign_run;
use crate::assign::lemma_count_some_lt_if_none;
use crate::assign::lemma_count_some_update;
use crate::classify::component_size;
use crate::graph::Graph;
use crate::graph::adj_wf;
use crate::graph::in_neighbors;
use crate::graph::out_neighbors;
use crate::graph::transpose_adj;
use crate::order::on_stack;

broadcast use vstd::seq_lib::lemma_seq_contains_after_push;

/// A walk through an adjacency: at least one node, every entry a node
/// index, consecutive entries neighbors.
pub open spec fn is_path(adj: Seq<Seq<usize>>, p: Seq<usize>) -> bool {
    &&& p.len() >= 1
    &&& forall|i: int| 0 <= i < p.len() ==> ((#[trigger] p[i]) as int) < adj.len()
    &&& forall|i: int| 0 <= i < p.len() - 1 ==> adj[(#[trigger] p[i]) as int].contains(p[i + 1])
}

/// `y` can be reached from `x` along the adjacency, in zero or more steps.
pub open spec fn reaches(adj: Seq<Seq<usize>>, x: usize, y: usize) -> bool {
    exists|p: Seq<usize>| is_path(adj, p) && p.first() == x && p.last() == y
}

/// `x` and `y` are mutually reachable in the graph: each can be reached
/// from the other along the forward adjacency.
pub open spec fn mutually_reachable(g: Graph, x: usize, y: usize) -> bool {
    reaches(g.spec_adj(), x, y) && reaches(g.spec_adj(), y, x)
}

/// Every node reaches itself, by the one-node walk.
pub proof fn lemma_reaches_refl(adj: Seq<Seq<usize>>, x: usize)
    requires
        (x as int) < adj.len(),
    ensures
        reaches(adj, x, x),
{
    let p = seq![x];
    assert(is_path(adj, p));
    assert(p.first() == x && p.last() == x);
}

/// A walk extends along one more edge.
pub proof fn lemma_reaches_extend(adj: Seq<Seq<usize>>, x: usize, v: usize, w: usize)
    requires
        reaches(adj, x, v),
        (v as int) < adj.len(),
        (w as int) < adj.len(),
        adj[v as int].contains(w),
    ensures
        reaches(adj, x, w),
{
    let p = choose|p: Seq<usize>| is_path(adj, p) && p.first() == x && p.last() == v;
    let q = p.push(w);
    assert(is_path(adj, q)) by {
        assert(forall|i: int| 0 <= i < p.len() ==> q[i] == p[i]);
        assert(q[q.len() - 1] == w);
        assert(q[q.len() - 2] == v);
    }
    assert(q.first() == x && q.last() == w);
}

/// Walks concatenate: reachability is transitive.
pub proof fn lemma_reaches_trans(adj: Seq<Seq<usize>>, x: usize, y: usize, z: usize)
    requires
        reaches(adj, x, y),
        reaches(adj, y, z),
    ensures
        reaches(adj, x, z),
{
    let p = choose|p: Seq<usize>| is_path(adj, p) && p.first() == x && p.last() == y;
    let q = choose|q: Seq<usize>| is_path(adj, q) && q.first() == y && q.last() == z;
    let r = p + q.drop_first();
    assert(forall|i: int| 0 <= i < p.len() ==> r[i] == p[i]);
    assert(forall|i: int| p.len() <= i < r.len() ==> r[i] == q[i - p.len() + 1]);
    assert(is_path(adj, r)) by {
        assert forall|i: int| 0 <= i < r.len() - 1 implies adj[(#[trigger] r[i]) as int].contains(
            r[i + 1],
        ) by {
            if i < p.len() - 1 {
                assert(r[i] == p[i] && r[i + 1] == p[i + 1]);
            } else if i == p.len() - 1 {
                assert(r[i] == q[0] && r[i + 1] == q[1]);
            } else {
                assert(r[i] == q[i - p.len() + 1] && r[i + 1] == q[i - p.len() + 2]);
            }
        }
    }
    assert(r.first() == x);
    assert(r.last() == if q.len() == 1 { p.last() } else { q.last() });
}
pub proof fn lemma_in_out_membership(edges: Seq<crate::graph::Edge>, u: usize, v: usize)
    ensures
        in_neighbors(edges, v as int).contains(u) <==> out_neighbors(edges, u as int).contains(
            v,
        ),
    decreases edges.len(),
{
    if edges.len() > 0 {
        lemma_in_out_membership(edges.drop_last(), u, v);
    }
}

/// A labelled set closed under the adjacency: every neighbor of a labelled
/// node is labelled.
pub open spec fn labels_closed(adj: Seq<Seq<usize>>, comps: Seq<Option<usize>>) -> bool {
    forall|v: int, j: int|
        0 <= v < comps.len() && comps[v] is Some && 0 <= j < adj[v].len() ==> comps[(
        #[trigger] adj[v][j]) as int] is Some
}

/// Walking a path from a labelled node through a closed labelled set only
/// meets labelled nodes.
pub proof fn lemma_closed_path(
    adj: Seq<Seq<usize>>,
    comps: Seq<Option<usize>>,
    p: Seq<usize>,
)
    requires
        comps.len() == adj.len(),
        labels_closed(adj, comps),
        is_path(adj, p),
        comps[p.first() as int] is Some,
    ensures
        comps[p.last() as int] is Some,
    decreases p.len(),
{
    if p.len() > 1 {
        let w = p[1];
        let row = adj[p.first() as int];
        let j = choose|j: int| 0 <= j < row.len() && row[j] == w;
        assert(comps[w as int] is Some);
        let rest = p.drop_first();
        assert(is_path(adj, rest)) by {
            assert(forall|i: int| 0 <= i < rest.len() ==> rest[i] == p[i + 1]);
        }
        lemma_closed_path(adj, comps, rest);
    }
}

/// The ordering law of the labelling: whenever `y` can be reached from a
/// labelled `x`, `y` is labelled too, and with an id no larger than `x`'s
/// — components are discovered from late finishers outward.
pub open spec fn labels_reach_mono(adj: Seq<Seq<usize>>, comps: Seq<Option<usize>>) -> bool {
    forall|x: usize, y: usize|
        (x as int) < comps.len() && comps[x as int] is Some && #[trigger] reaches(adj, x, y)
            ==> comps[y as int] is Some && comps[y as int]->Some_0 <= comps[x as int]->Some_0
}

/// After any number of consumed post-order entries, the labelling obeys
/// the ordering law along the transposed adjacency.
pub proof fn lemma_assign_roots_reach_mono(adj: Seq<Seq<usize>>, order: Seq<usize>, t: nat)
    requires
        adj_wf(adj, adj.len()),
        t <= order.len(),
        forall|i: int| 0 <= i < order.len() ==> ((#[trigger] order[i]) as int) < adj.len(),
    ensures
        labels_reach_mono(adj, assign_roots(adj, order, t).st.comps),
    decreases t,
{
    if t == 0 {
    } else {
        lemma_assign_roots_reach_mono(adj, order, (t - 1) as nat);
        lemma_assign_roots(adj, order, (t - 1) as nat);
        lemma_assign_roots(adj, order, t);
        let p = assign_roots(adj, order, (t - 1) as nat);
        let p2 = assign_roots(adj, order, t);
        let r = order[order.len() - t];
        if p.st.comps[r as int] is Some {
        } else {
            lemma_count_some_lt_if_none(p.st.comps, r as int);
            let cid = p.count as usize;
            let pushed = AssignState {
                comps: p.st.comps.update(r as int, Some(cid)),
                stack: p.st.stack.push((r, 0usize)),
            };
            assert(pushed.stack[0] == (r, 0usize));
            assert(assign_state_wf(adj, pushed));
            assert(assign_closure_inv(adj, pushed)) by {
                assert(on_stack(pushed.stack, r));
                assert forall|x: int, j: int|
                    0 <= x < pushed.comps.len() && pushed.comps[x] is Some && !on_stack(
                        pushed.stack,
                        x as usize,
                    ) && 0 <= j < adj[x].len() implies pushed.comps[(
                #[trigger] adj[x][j]) as int] is Some by {
                    assert(x != r);
                    assert(p.st.comps[x] is Some);
                    assert(!on_stack(p.st.stack, x as usize));
                    assert(p.st.comps[adj[x][j] as int] is Some);
                }
            }
            lemma_count_some_update(p.st.comps, r as int, cid);
            lemma_assign_run(adj, cid, pushed);
            let comps2 = p2.st.comps;
            assert(labels_closed(adj, comps2)) by {
                assert forall|v: int, j: int|
                    0 <= v < comps2.len() && comps2[v] is Some && 0 <= j < adj[v].len() implies
                    comps2[(#[trigger] adj[v][j]) as int] is Some by {
                    assert(!on_stack(p2.st.stack, v as usize));
                }
            }
            assert forall|x: usize, y: usize|
                (x as int) < comps2.len() && comps2[x as int] is Some && #[trigger] reaches(
                    adj,
                    x,
                    y,
                ) implies comps2[y as int] is Some && comps2[y as int]->Some_0 <= comps2[x
                as int]->Some_0 by {
                let pth = choose|pth: Seq<usize>|
                    is_path(adj, pth) && pth.first() == x && pth.last() == y;
                lemma_closed_path(adj, comps2, pth);
                if p.st.comps[x as int] is Some {
                    // `x` was labelled before this traversal: the old
                    // ordering law already placed `y`, and the traversal
                    // changed neither label.
                    assert(p.st.comps[y as int] is Some);
                    assert(comps2[x as int] == p.st.comps[x as int]);
                    assert(comps2[y as int] == p.st.comps[y as int]);
                } else {
                    // `x` was labelled during this traversal, with the
                    // newest — largest — id; every label lies below the
                    // new count.
                    assert(comps2[x as int] == Some(cid));
                    assert((comps2[y as int]->Some_0 as int) < p2.count);
                }
            }
        }
    }
}

/// `x` and `y` are mutually reachable in the graph exactly as in the
/// transposed adjacency, so each reaches the other there; by the ordering
/// law their component ids bound each other both ways, and are equal:
/// mutually reachable nodes share a component.
pub proof fn lemma_mutually_reachable_same_component(g: Graph, x: usize, y: usize)
    requires
        g.wf(),
        (x as int) < g.spec_node_count(),
        (y as int) < g.spec_node_count(),
        mutually_reachable(g, x, y),
    ensures
        crate::scc::scc_model(g).st.comps[x as int] == crate::scc::scc_model(g).st.comps[y
            as int],
{
    let n = g.spec_node_count();
    let radj = transpose_adj(g.spec_edges(), n);
    let ord = crate::order::order_model(g.spec_adj());
    g.lemma_edges_len_bounded();
    crate::graph::lemma_transpose_adj_wf(g.spec_edges(), n);
    crate::order::lemma_order_model_complete(g.spec_adj());
    crate::scc::lemma_scc_model_total(g);
    lemma_assign_roots_reach_mono(radj, ord, ord.len());
    let comps = crate::scc::scc_model(g).st.comps;
    lemma_flip_both(g, x, y);
    assert(comps[y as int]->Some_0 <= comps[x as int]->Some_0) by {
        assert(reaches(radj, x, y));
    }
    assert(comps[x as int]->Some_0 <= comps[y as int]->Some_0) by {
        assert(reaches(radj, y, x));
    }
}

/// When the decomposition yields one component per node, no cycle runs
/// through two distinct nodes: distinct nodes are never mutually
/// reachable. Here `comp` is any per-node component map that matches the
/// model, as the one `compute_sccs` returns.
pub proof fn lemma_full_component_count_trivial(g: Graph, comp: Seq<usize>, x: usize, y: usize)
    requires
        g.wf(),
        comp.len() == g.spec_node_count(),
        forall|u: int|
            0 <= u < comp.len() ==> Some(#[trigger] comp[u]) == crate::scc::scc_model(
                g,
            ).st.comps[u],
        crate::scc::scc_model(g).count == g.spec_node_count(),
        (x as int) < g.spec_node_count(),
        (y as int) < g.spec_node_count(),
        x != y,
    ensures
        !mutually_reachable(g, x, y),
{
    if mutually_reachable(g, x, y) {
        lemma_mutually_reachable_same_component(g, x, y);
        let n = g.spec_node_count();
        let radj = transpose_adj(g.spec_edges(), n);
        let ord = crate::order::order_model(g.spec_adj());
        g.lemma_edges_len_bounded();
        crate::graph::lemma_transpose_adj_wf(g.spec_edges(), n);
        crate::order::lemma_order_model_complete(g.spec_adj());
        crate::scc::lemma_scc_model_total(g);
        lemma_assign_roots(radj, ord, ord.len());
        let model = crate::scc::scc_model(g).st.comps;
        let k = crate::scc::scc_model(g).count;
        assert(forall|u: int| 0 <= u < comp.len() ==> ((#[trigger] comp[u]) as int) < k);
        assert forall|c: int| 0 <= c < k implies component_size(comp, c) >= 1 by {
            assert(crate::assign::some_node_labelled(model, c));
            let v = choose|v: int| 0 <= v < model.len() && model[v] == Some(c as usize);
            assert(comp[v] == c as usize);
            crate::classify::lemma_component_size_positive(comp, v);
        }
        assert(comp[x as int] == comp[y as int]);
        if x < y {
            crate::classify::lemma_component_size_two(comp, x as int, y as int);
        } else {
            crate::classify::lemma_component_size_two(comp, y as int, x as int);
        }
        crate::classify::lemma_total_size_pigeonhole(comp, k, comp[x as int] as int);
        crate::classify::lemma_component_sizes_total(comp, k);
        assert(false);
    }
}

/// A forward path from `a` to `b` is, reversed, a transposed path from
/// `b` to `a`.
pub proof fn lemma_reaches_to_transpose(g: Graph, a: usize, b: usize)
    requires
        g.wf(),
        reaches(g.spec_adj(), a, b),
    ensures
        reaches(transpose_adj(g.spec_edges(), g.spec_node_count()), b, a),
{
    let n = g.spec_node_count();
    let radj = transpose_adj(g.spec_edges(), n);
    let adj = g.spec_adj();
    let p = choose|p: Seq<usize>| is_path(adj, p) && p.first() == a && p.last() == b;
    let q = p.reverse();
    assert(q.len() == p.len());
    assert(forall|i: int| 0 <= i < q.len() ==> q[i] == p[p.len() - 1 - i]);
    assert(is_path(radj, q)) by {
        assert forall|i: int|
            0 <= i < q.len() - 1 implies radj[(#[trigger] q[i]) as int].contains(q[i + 1]) by {
            let j = p.len() - 2 - i;
            assert(q[i] == p[j + 1]);
            assert(q[i + 1] == p[j]);
            assert(adj[p[j] as int].contains(p[j + 1]));
            assert(out_neighbors(g.spec_edges(), p[j] as int).contains(p[j + 1]));
            lemma_in_out_membership(g.spec_edges(), p[j], p[j + 1]);
            assert(in_neighbors(g.spec_edges(), p[j + 1] as int).contains(p[j]));
        }
    }
    assert(q.first() == b && q.last() == a);
}

/// Mutual reachability carries over to the transposed adjacency: a forward
/// path from `y` to `x` is a transposed path from `x` to `y`, and the
/// other way round.
proof fn lemma_flip_both(g: Graph, x: usize, y: usize)
    requires
        g.wf(),
        mutually_reachable(g, x, y),
        (x as int) < g.spec_node_count(),
        (y as int) < g.spec_node_count(),
    ensures
        reaches(transpose_adj(g.spec_edges(), g.spec_node_count()), x, y),
        reaches(transpose_adj(g.spec_edges(), g.spec_node_count()), y, x),
{
    lemma_reaches_to_transpose(g, x, y);
    lemma_reaches_to_transpose(g, y, x);
}

/// `w` can be reached from `r` along the adjacency through nodes that all
/// carry the component id `c`.
pub open spec fn reach_in_set(
    adj: Seq<Seq<usize>>,
    comps: Seq<Option<usize>>,
    c: usize,
    r: usize,
    w: usize,
) -> bool {
    exists|p: Seq<usize>|
        is_path(adj, p) && p.first() == r && p.last() == w && (forall|i: int|
            0 <= i < p.len() ==> comps[(#[trigger] p[i]) as int] == Some(c))
}

/// During one labelling traversal, every frame carries the current id and
/// every node labelled with it was reached from the traversal's root
/// through nodes of that same component.
pub open spec fn assign_run_set_inv(
    adj: Seq<Seq<usize>>,
    cid: usize,
    r: usize,
    st: AssignState,
) -> bool {
    &&& (r as int) < st.comps.len()
    &&& st.comps[r as int] == Some(cid)
    &&& forall|k: int|
        0 <= k < st.stack.len() ==> st.comps[(#[trigger] st.stack[k]).0 as int] == Some(cid)
    &&& forall|w: usize|
        (w as int) < st.comps.len() && #[trigger] st.comps[w as int] == Some(cid)
            ==> reach_in_set(adj, st.comps, cid, r, w)
}

/// One labelling step preserves the traversal's root-reachability record.
proof fn lemma_assign_step_run_set(adj: Seq<Seq<usize>>, cid: usize, r: usize, st: AssignState)
    requires
        adj_wf(adj, adj.len()),
        crate::assign::assign_state_wf(adj, st),
        assign_run_set_inv(adj, cid, r, st),
        st.stack.len() > 0,
    ensures
        assign_run_set_inv(adj, cid, r, assign_step(adj, cid, st)),
{
    let st2 = assign_step(adj, cid, st);
    let v = st.stack.last().0;
    let c = st.stack.last().1;
    let last = st.stack.len() - 1;
    assert(st.stack[last].0 == v);
    if (c as int) < adj[v as int].len() {
        let w = adj[v as int][c as int];
        let stack1 = st.stack.update(last, (v, (c + 1) as usize));
        assert(forall|k: int| 0 <= k < stack1.len() ==> (#[trigger] stack1[k]).0 == st.stack[k].0);
        if st.comps[w as int] is Some {
        } else {
            let comps2 = st.comps.update(w as int, Some(cid));
            assert(st2.comps == comps2);
            assert forall|w2: usize|
                (w2 as int) < comps2.len() && #[trigger] comps2[w2 as int] == Some(cid) implies
                reach_in_set(adj, comps2, cid, r, w2) by {
                if w2 == w {
                    // Reached through the labelled node under the top
                    // frame, extended by one edge.
                    assert(st.comps[v as int] == Some(cid));
                    assert(reach_in_set(adj, st.comps, cid, r, v));
                    let p = choose|p: Seq<usize>|
                        is_path(adj, p) && p.first() == r && p.last() == v && (forall|i: int|
                            0 <= i < p.len() ==> st.comps[(#[trigger] p[i]) as int] == Some(
                                cid,
                            ));
                    let q = p.push(w);
                    assert(adj[v as int].contains(w)) by {
                        assert(adj[v as int][c as int] == w);
                    }
                    assert(is_path(adj, q)) by {
                        assert(forall|i: int| 0 <= i < p.len() ==> q[i] == p[i]);
                        assert(q[q.len() - 1] == w);
                        assert(q[q.len() - 2] == v);
                    }
                    assert(forall|i: int|
                        0 <= i < q.len() ==> comps2[(#[trigger] q[i]) as int] == Some(cid));
                    assert(q.first() == r && q.last() == w);
                } else {
                    assert(st.comps[w2 as int] == Some(cid));
                    let p = choose|p: Seq<usize>|
                        is_path(adj, p) && p.first() == r && p.last() == w2 && (forall|i: int|
                            0 <= i < p.len() ==> st.comps[(#[trigger] p[i]) as int] == Some(
                                cid,
                            ));
                    assert(forall|i: int|
                        0 <= i < p.len() ==> comps2[(#[trigger] p[i]) as int] == Some(cid));
                    assert(reach_in_set(adj, comps2, cid, r, w2));
                }
            }
        }
    }
}

/// The whole labelling run preserves the root-reachability record.
proof fn lemma_assign_run_run_set(adj: Seq<Seq<usize>>, cid: usize, r: usize, st: AssignState)
    requires
        adj_wf(adj, adj.len()),
        crate::assign::assign_state_wf(adj, st),
        assign_run_set_inv(adj, cid, r, st),
    ensures
        assign_run_set_inv(adj, cid, r, assign_run(adj, cid, st)),
    decreases crate::assign::unassigned(st), crate::order::stack_pending(adj, st.stack),
{
    crate::assign::lemma_count_some_le(st.comps);
    crate::order::lemma_stack_pending_nonneg(adj, st.stack);
    if st.stack.len() == 0 {
    } else {
        lemma_assign_step_measure(adj, cid, st);
        lemma_assign_step_wf(adj, cid, st);
        lemma_assign_step_run_set(adj, cid, r, st);
        lemma_assign_run_run_set(adj, cid, r, assign_step(adj, cid, st));
    }
}

/// A node labelled by a traversal is mutually reachable with the
/// traversal's root: the reaching direction follows the recorded
/// transposed walk, and the reached direction holds because the root
/// finishes last among the walk's nodes, so it dominates the walk.
proof fn lemma_run_member_mutual(
    g: Graph,
    tr: Seq<crate::trace::Event>,
    ord: Seq<usize>,
    comps: Seq<Option<usize>>,
    cid: usize,
    r: usize,
    x: usize,
    bound: int,
)
    requires
        g.wf(),
        crate::trace::log_complete(g.spec_adj(), tr),
        forall|i: int|
            0 <= i < ord.len() ==> ((#[trigger] ord[i]) as int) < g.spec_node_count(),
        forall|w: usize| (w as int) < g.spec_node_count() ==> ord.contains(w),
        forall|i1: int, i2: int|
            #![trigger crate::trace::fin_at(tr, ord[i1]), crate::trace::fin_at(tr, ord[i2])]
            0 <= i1 <= i2 < ord.len() ==> crate::trace::fin_at(tr, ord[i1])
                <= crate::trace::fin_at(tr, ord[i2]),
        0 <= bound < ord.len(),
        ord[bound] == r,
        forall|w: usize, i: int|
            #![trigger comps[w as int], ord[i]]
            (w as int) < g.spec_node_count() && comps[w as int] == Some(cid) && 0 <= i
                < ord.len() && ord[i] == w ==> i <= bound,
        comps.len() == g.spec_node_count(),
        reach_in_set(transpose_adj(g.spec_edges(), g.spec_node_count()), comps, cid, r, x),
        (x as int) < g.spec_node_count(),
        (r as int) < g.spec_node_count(),
    ensures
        mutually_reachable(g, x, r),
{
    let n = g.spec_node_count();
    let adj = g.spec_adj();
    let radj = transpose_adj(g.spec_edges(), n);
    let p = choose|p: Seq<usize>|
        is_path(radj, p) && p.first() == r && p.last() == x && (forall|i: int|
            0 <= i < p.len() ==> comps[(#[trigger] p[i]) as int] == Some(cid));
    let q = p.reverse();
    assert(q.len() == p.len());
    assert(forall|i: int| 0 <= i < q.len() ==> q[i] == p[p.len() - 1 - i]);
    assert(is_path(adj, q)) by {
        assert forall|i: int|
            0 <= i < q.len() - 1 implies adj[(#[trigger] q[i]) as int].contains(q[i + 1]) by {
            let j = p.len() - 2 - i;
            assert(q[i] == p[j + 1]);
            assert(q[i + 1] == p[j]);
            assert(radj[p[j] as int].contains(p[j + 1]));
            assert(in_neighbors(g.spec_edges(), p[j] as int).contains(p[j + 1]));
            lemma_in_out_membership(g.spec_edges(), p[j + 1], p[j]);
            assert(out_neighbors(g.spec_edges(), p[j + 1] as int).contains(p[j]));
        }
    }
    assert(q.first() == x && q.last() == r);
    // Every node of the walk finishes no later than the root.
    assert forall|j: int|
        0 <= j < q.len() implies crate::trace::fin_at(tr, #[trigger] q[j])
        <= crate::trace::fin_at(tr, q.last()) by {
        let w = q[j];
        assert(comps[w as int] == Some(cid));
        assert((w as int) < n);
        assert(ord.contains(w));
        let i = choose|i: int| 0 <= i < ord.len() && ord[i] == w;
        assert(i <= bound);
        assert(crate::trace::fin_at(tr, ord[i]) <= crate::trace::fin_at(tr, ord[bound]));
    }
    crate::trace::lemma_max_finisher_reaches(adj, tr, q);
    assert(reaches(adj, r, x));
    assert(reaches(adj, x, r));
}

/// After any number of consumed post-order entries, nodes sharing a
/// component id are mutually reachable in the graph.
proof fn lemma_assign_roots_converse(g: Graph, t: nat)
    requires
        g.wf(),
        t <= crate::order::order_model(g.spec_adj()).len(),
    ensures
        ({
            let radj = transpose_adj(g.spec_edges(), g.spec_node_count());
            let ord = crate::order::order_model(g.spec_adj());
            let comps = assign_roots(radj, ord, t).st.comps;
            forall|x: usize, y: usize|
                (x as int) < g.spec_node_count() && (y as int) < g.spec_node_count() && (
                #[trigger] comps[x as int]) is Some && comps[x as int] == #[trigger] comps[y
                    as int] ==> mutually_reachable(g, x, y)
        }),
    decreases t,
{
    let n = g.spec_node_count();
    let adj = g.spec_adj();
    let radj = transpose_adj(g.spec_edges(), n);
    let ord = crate::order::order_model(adj);
    g.lemma_edges_len_bounded();
    crate::graph::lemma_transpose_adj_wf(g.spec_edges(), n);
    crate::order::lemma_order_model_complete(adj);
    let ts = crate::trace::trace_roots(adj, adj.len());
    let tr = ts.trace;
    crate::trace::lemma_trace_roots_wf(adj, adj.len());
    crate::trace::lemma_trace_roots_proj(adj, adj.len());
    crate::order::lemma_order_roots(adj, adj.len());
    crate::trace::lemma_log_complete(adj);
    assert(ts.st.order == ord);
    assert forall|i1: int, i2: int|
        #![trigger crate::trace::fin_at(tr, ord[i1]), crate::trace::fin_at(tr, ord[i2])]
        0 <= i1 <= i2 < ord.len() implies crate::trace::fin_at(tr, ord[i1])
        <= crate::trace::fin_at(tr, ord[i2]) by {
        if i1 < i2 {
            assert(crate::trace::fin_at(tr, ts.st.order[i1]) < crate::trace::fin_at(
                tr,
                ts.st.order[i2],
            ));
        }
    }
    if t == 0 {
    } else {
        lemma_assign_roots_converse(g, (t - 1) as nat);
        lemma_assign_roots(radj, ord, (t - 1) as nat);
        lemma_assign_roots(radj, ord, t);
        let p = assign_roots(radj, ord, (t - 1) as nat);
        let p2 = assign_roots(radj, ord, t);
        let r = ord[ord.len() - t];
        let bound = ord.len() - t;
        if p.st.comps[r as int] is Some {
        } else {
            lemma_count_some_lt_if_none(p.st.comps, r as int);
            let cid = p.count as usize;
            let pushed = AssignState {
                comps: p.st.comps.update(r as int, Some(cid)),
                stack: p.st.stack.push((r, 0usize)),
            };
            assert(pushed.stack[0] == (r, 0usize));
            assert(crate::assign::assign_state_wf(radj, pushed));
            assert(assign_closure_inv(radj, pushed)) by {
                assert(on_stack(pushed.stack, r));
                assert forall|x: int, j: int|
                    0 <= x < pushed.comps.len() && pushed.comps[x] is Some && !on_stack(
                        pushed.stack,
                        x as usize,
                    ) && 0 <= j < radj[x].len() implies pushed.comps[(
                #[trigger] radj[x][j]) as int] is Some by {
                    assert(x != r);
                    assert(p.st.comps[x] is Some);
                    assert(!on_stack(p.st.stack, x as usize));
                    assert(p.st.comps[radj[x][j] as int] is Some);
                }
            }
            lemma_count_some_update(p.st.comps, r as int, cid);
            lemma_assign_run(radj, cid, pushed);
            assert(assign_run_set_inv(radj, cid, r, pushed)) by {
                assert forall|w: usize|
                    (w as int) < pushed.comps.len() && #[trigger] pushed.comps[w as int]
                        == Some(cid) implies reach_in_set(radj, pushed.comps, cid, r, w) by {
                    if w != r {
                        assert(p.st.comps[w as int] == Some(cid));
                        assert(((p.st.comps[w as int])->Some_0 as int) < p.count);
                        assert(false);
                    }
                    let pr = seq![r];
                    assert(is_path(radj, pr));
                    assert(pr.first() == r && pr.last() == w);
                    assert(forall|i: int|
                        0 <= i < pr.len() ==> pushed.comps[(#[trigger] pr[i]) as int] == Some(
                            cid,
                        ));
                }
            }
            lemma_assign_run_run_set(radj, cid, r, pushed);
            let comps2 = p2.st.comps;
            // Every node of the new component sits no later than the root
            // in the post-order list.
            assert forall|w: usize, i: int|
                #![trigger comps2[w as int], ord[i]]
                (w as int) < n && comps2[w as int] == Some(cid) && 0 <= i < ord.len() && ord[i]
                    == w implies i <= bound by {
                if w == r {
                    if i != bound {
                        assert(ord[i] == ord[bound]);
                        assert(false);
                    }
                } else {
                    if pushed.comps[w as int] is Some {
                        if p.st.comps[w as int] is Some {
                            assert(((p.st.comps[w as int])->Some_0 as int) < p.count);
                            assert(comps2[w as int] == p.st.comps[w as int]);
                            assert(false);
                        }
                    }
                    // `w` was unlabelled before this traversal, so its
                    // post-order entry had not been consumed yet.
                    assert(p.st.comps[w as int] is None);
                    if i > bound {
                        assert(ord.len() - (t - 1) <= i < ord.len());
                        assert(p.st.comps[(ord[i]) as int] is Some);
                        assert(false);
                    }
                }
            }
            assert forall|x: usize, y: usize|
                (x as int) < n && (y as int) < n && (#[trigger] comps2[x as int]) is Some
                    && comps2[x as int] == #[trigger] comps2[y as int] implies
                mutually_reachable(g, x, y) by {
                if comps2[x as int] == Some(cid) {
                    assert(reach_in_set(radj, comps2, cid, r, x));
                    assert(reach_in_set(radj, comps2, cid, r, y));
                    lemma_run_member_mutual(g, tr, ord, comps2, cid, r, x, bound as int);
                    lemma_run_member_mutual(g, tr, ord, comps2, cid, r, y, bound as int);
                    lemma_reaches_trans(adj, x, r, y);
                    lemma_reaches_trans(adj, y, r, x);
                } else {
                    // An id from an earlier traversal: both labels predate
                    // this one, and the induction hypothesis applies.
                    assert(p.st.comps[x as int] is Some) by {
                        if p.st.comps[x as int] is None {
                            assert(comps2[x as int] == Some(cid));
                        }
                    }
                    assert(p.st.comps[y as int] is Some) by {
                        if p.st.comps[y as int] is None {
                            assert(comps2[y as int] == Some(cid));
                        }
                    }
                    assert(p.st.comps[x as int] == comps2[x as int]);
                    assert(p.st.comps[y as int] == comps2[y as int]);
                }
            }
        }
    }
}

/// Nodes sharing a component id are mutually reachable: the labelling
/// never groups nodes beyond their strongly connected component.
pub proof fn lemma_same_component_mutually_reachable(g: Graph, x: usize, y: usize)
    requires
        g.wf(),
        (x as int) < g.spec_node_count(),
        (y as int) < g.spec_node_count(),
        crate::scc::scc_model(g).st.comps[x as int] == crate::scc::scc_model(g).st.comps[y
            as int],
    ensures
        mutually_reachable(g, x, y),
{
    crate::scc::lemma_scc_model_total(g);
    lemma_assign_roots_converse(g, crate::order::order_model(g.spec_adj()).len());
}

/// The partition law of the decomposition: two nodes share a component id
/// exactly when they are mutually reachable in the graph.
pub proof fn lemma_same_component_iff_mutually_reachable(g: Graph, x: usize, y: usize)
    requires
        g.wf(),
        (x as int) < g.spec_node_count(),
        (y as int) < g.spec_node_count(),
    ensures
        crate::scc::scc_model(g).st.comps[x as int] == crate::scc::scc_model(g).st.comps[y
            as int] <==> mutually_reachable(g, x, y),
{
    if crate::scc::scc_model(g).st.comps[x as int] == crate::scc::scc_model(g).st.comps[y
        as int] {
        lemma_same_component_mutually_reachable(g, x, y);
    }
    if mutually_reachable(g, x, y) {
        lemma_mutually_reachable_same_component(g, x, y);
    }
}

/// With only trivial strongly connected components — no cycle through two
/// distinct nodes — the decomposition yields one component per node.
pub proof fn lemma_trivial_components_full_count(g: Graph)
    requires
        g.wf(),
        forall|x: usize, y: usize|
            (x as int) < g.spec_node_count() && (y as int) < g.spec_node_count() && x != y
                ==> !mutually_reachable(g, x, y),
    ensures
        crate::scc::scc_model(g).count == g.spec_node_count(),
{
    broadcast use vstd::seq_lib::seq_to_set_is_finite;

    let n = g.spec_node_count();
    crate::scc::lemma_scc_model_total(g);
    let model = crate::scc::scc_model(g).st.comps;
    let k = crate::scc::scc_model(g).count;
    if k < n {
        let vals = Seq::new(n, |u: int| model[u]->Some_0);
        if vals.no_duplicates() {
            // Impossible: more nodes than ids, yet all ids distinct.
            vals.unique_seq_to_set();
            let full = Seq::new(k as nat, |i: int| i as usize);
            assert(full.no_duplicates()) by {
                assert forall|k1: int, k2: int|
                    0 <= k1 < full.len() && 0 <= k2 < full.len() && k1 != k2 implies full[k1]
                    != full[k2] by {}
            }
            full.unique_seq_to_set();
            assert forall|v: usize| vals.to_set().contains(v) implies full.to_set().contains(
                v,
            ) by {
                let i = choose|i: int| 0 <= i < vals.len() && vals[i] == v;
                assert(((model[i])->Some_0 as int) < k);
                assert(full[v as int] == v);
            }
            vstd::set_lib::lemma_len_subset(vals.to_set(), full.to_set());
            assert(false);
        } else {
            let (i, j) = choose|i: int, j: int|
                0 <= i < vals.len() && 0 <= j < vals.len() && i != j && vals[i] == vals[j];
            let x = i as usize;
            let y = j as usize;
            assert(model[x as int] == model[y as int]);
            lemma_same_component_mutually_reachable(g, x, y);
            assert(false);
        }
    }
}

/// The counting law of the decomposition: there are as many components as
/// nodes exactly when the graph has no cycle through two distinct nodes.
pub proof fn lemma_component_count_full_iff_trivial(g: Graph)
    requires
        g.wf(),
    ensures
        crate::scc::scc_model(g).count == g.spec_node_count() <==> (forall|x: usize, y: usize|
            (x as int) < g.spec_node_count() && (y as int) < g.spec_node_count() && x != y
                ==> !mutually_reachable(g, x, y)),
{
    crate::scc::lemma_scc_model_total(g);
    let n = g.spec_node_count();
    if crate::scc::scc_model(g).count == n {
        assert forall|x: usize, y: usize|
            (x as int) < n && (y as int) < n && x != y implies !mutually_reachable(
            g,
            x,
            y,
        ) by {
            let model = crate::scc::scc_model(g).st.comps;
            let comp = Seq::new(n, |u: int| model[u]->Some_0);
            assert(forall|u: int| 0 <= u < comp.len() ==> Some(#[trigger] comp[u]) == model[u]);
            lemma_full_component_count_trivial(g, comp, x, y);
        }
    }
    if forall|x: usize, y: usize|
        (x as int) < n && (y as int) < n && x != y ==> !mutually_reachable(g, x, y) {
        lemma_trivial_components_full_count(g);
    }
}

/// A node no edge leaves has an empty out-neighbor row.
proof fn lemma_out_neighbors_no_source(edges: Seq<crate::graph::Edge>, u: int)
    requires
        forall|i: int| 0 <= i < edges.len() ==> (#[trigger] edges[i]).u != u,
    ensures
        out_neighbors(edges, u) == Seq::<usize>::empty(),
    decreases edges.len(),
{
    if edges.len() > 0 {
        assert(forall|i: int|
            0 <= i < edges.drop_last().len() ==> (#[trigger] edges.drop_last()[i]).u != u);
        lemma_out_neighbors_no_source(edges.drop_last(), u);
    }
}

/// A node touched by no edge is a component of its own, and that
/// component is of the mixed-or-isolated class: no cross-component edge
/// enters or leaves it. Here `comp` is any per-node component map that
/// matches the model, as the one `compute_sccs` returns.
pub proof fn lemma_isolated_node_own_class_c(g: Graph, comp: Seq<usize>, u: usize)
    requires
        g.wf(),
        comp.len() == g.spec_node_count(),
        forall|w: int|
            0 <= w < comp.len() ==> Some(#[trigger] comp[w]) == crate::scc::scc_model(
                g,
            ).st.comps[w],
        (u as int) < g.spec_node_count(),
        forall|i: int|
            0 <= i < g.spec_edges().len() ==> (#[trigger] g.spec_edges()[i]).u != u
                && g.spec_edges()[i].v != u,
    ensures
        forall|v: usize|
            (v as int) < g.spec_node_count() && #[trigger] comp[v as int] == comp[u as int]
                ==> v == u,
        crate::classify::is_class_c(g.spec_edges(), comp, comp[u as int] as int),
{
    let n = g.spec_node_count();
    let model = crate::scc::scc_model(g).st.comps;
    assert forall|v: usize|
        (v as int) < n && #[trigger] comp[v as int] == comp[u as int] implies v == u by {
        if v != u {
            assert(model[v as int] == model[u as int]);
            lemma_same_component_mutually_reachable(g, u, v);
            let p = choose|p: Seq<usize>|
                is_path(g.spec_adj(), p) && p.first() == u && p.last() == v;
            assert(p.len() >= 2);
            assert(g.spec_adj()[u as int].contains(p[1]));
            lemma_out_neighbors_no_source(g.spec_edges(), u as int);
            assert(false);
        }
    }
    let c = comp[u as int] as int;
    if crate::classify::has_cross_in(g.spec_edges(), comp, c) {
        let i = choose|i: int|
            0 <= i < g.spec_edges().len() && crate::classify::cross_into(
                #[trigger] g.spec_edges()[i],
                comp,
                c,
            );
        let e = g.spec_edges()[i];
        assert(comp[e.v as int] == comp[u as int]);
        assert(e.v == u);
        assert(false);
    }
    if crate::classify::has_cross_out(g.spec_edges(), comp, c) {
        let i = choose|i: int|
            0 <= i < g.spec_edges().len() && crate::classify::cross_out_of(
                #[trigger] g.spec_edges()[i],
                comp,
                c,
            );
        let e = g.spec_edges()[i];
        assert(comp[e.u as int] == comp[u as int]);
        assert(e.u == u);
        assert(false);
    }
}

/// The labelling numbers the components in a topological order of the
/// condensation: along any path of the graph, component ids never
/// decrease.
pub proof fn lemma_component_ids_topological(g: Graph, u: usize, v: usize)
    requires
        g.wf(),
        (u as int) < g.spec_node_count(),
        (v as int) < g.spec_node_count(),
        reaches(g.spec_adj(), u, v),
    ensures
        crate::scc::scc_model(g).st.comps[u as int]->Some_0 <= crate::scc::scc_model(
            g,
        ).st.comps[v as int]->Some_0,
{
    let n = g.spec_node_count();
    let radj = transpose_adj(g.spec_edges(), n);
    let ord = crate::order::order_model(g.spec_adj());
    g.lemma_edges_len_bounded();
    crate::graph::lemma_transpose_adj_wf(g.spec_edges(), n);
    crate::order::lemma_order_model_complete(g.spec_adj());
    crate::scc::lemma_scc_model_total(g);
    lemma_assign_roots_reach_mono(radj, ord, ord.len());
    lemma_reaches_to_transpose(g, u, v);
    assert(reaches(radj, v, u));
}

} // verus!
