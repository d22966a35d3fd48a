//! The strongly-connected-component decomposition: graph construction from
//! a plain description, and the two-pass computation of the component
//! labelling. The component map returned by `compute_sccs` is pinned to a
//! mathematical model of the whole two-pass method, so the same graph
//! always yields the same labelling.

use vstd::prelude::*;

verus! {

use crate::assign::AssignProgress;
use crate::assign::assign_model;
use crate::assign::assignment_pass;
use crate::assign::lemma_assign_roots;
use crate::assign::lemma_count_some_le;
use crate::graph::Edge;
use crate::graph::Graph;
use crate::graph::GraphError;
use crate::graph::lemma_transpose_adj_wf;
use crate::graph::transpose_adj;
use crate::order::lemma_order_model_complete;
use crate::order::order_model;
use crate::order::ordering_pass;

/// The model of the whole decomposition: the forward post-order is consumed
/// in reverse over the transposed adjacency.
pub open spec fn scc_model(g: Graph) -> AssignProgress {
    assign_model(
        transpose_adj(g.spec_edges(), g.spec_node_count()),
        order_model(g.spec_adj()),
    )
}

/// In the model of a well-formed graph, every node carries a component id,
/// every id is below the component count, and there are at most as many
/// components as nodes.
pub proof fn lemma_scc_model_total(g: Graph)
    requires
        g.wf(),
    ensures
        ({
            let p = scc_model(g);
            &&& p.st.comps.len() == g.spec_node_count()
            &&& forall|u: int|
                0 <= u < g.spec_node_count() ==> (#[trigger] p.st.comps[u]) is Some
            &&& forall|u: int|
                0 <= u < g.spec_node_count() ==> ((#[trigger] p.st.comps[u])->Some_0 as int)
                    < p.count
            &&& 0 <= p.count <= g.spec_node_count()
        }),
{
    let n = g.spec_node_count();
    let radj = transpose_adj(g.spec_edges(), n);
    let ord = order_model(g.spec_adj());
    g.lemma_edges_len_bounded();
    lemma_transpose_adj_wf(g.spec_edges(), n);
    lemma_order_model_complete(g.spec_adj());
    lemma_assign_roots(radj, ord, ord.len());
    let p = scc_model(g);
    assert forall|u: int| 0 <= u < n implies (#[trigger] p.st.comps[u]) is Some by {
        assert(ord.contains(u as usize));
        let j = choose|j: int| 0 <= j < ord.len() && ord[j] == u as usize;
        assert(p.st.comps[(ord[j]) as int] is Some);
    }
    lemma_count_some_le(p.st.comps);
}

/// `compute_sccs`: the component id of every node and the number of
/// components. The result equals the model of the two-pass method on this
/// graph, so two computations on the same graph agree exactly; component
/// ids are dense in `[0, component_count)`, and there are at most as many
/// components as nodes.
pub fn compute_sccs(g: &Graph) -> (res: (Vec<usize>, usize))
    requires
        g.wf(),
    ensures
        res.0@.len() == g.spec_node_count(),
        forall|u: int|
            0 <= u < g.spec_node_count() ==> Some(#[trigger] res.0@[u]) == scc_model(
                *g,
            ).st.comps[u],
        res.1 as int == scc_model(*g).count,
        forall|u: int| 0 <= u < res.0@.len() ==> (#[trigger] res.0@[u] as int) < res.1 as int,
        res.1 <= g.spec_node_count(),
{
    proof {
        lemma_scc_model_total(*g);
    }
    let order = ordering_pass(g);
    let (_rev_edges, rev_adj) = g.transpose();
    let (comps, count) = assignment_pass(&rev_adj, &order);
    let n = g.node_count();
    let mut out: Vec<usize> = Vec::new();
    let mut u: usize = 0;
    while u < n
        invariant
            u <= n,
            comps@ == scc_model(*g).st.comps,
            comps@.len() == n,
            forall|x: int| 0 <= x < n ==> (#[trigger] comps@[x]) is Some,
            out@.len() == u,
            forall|x: int| 0 <= x < u ==> Some(#[trigger] out@[x]) == comps@[x],
        decreases n - u,
    {
        let c = comps[u].unwrap();
        out.push(c);
        u += 1;
    }
    (out, count)
}

/// Whether one edge pair of a graph description is admissible: with
/// one-based numbering both endpoints lie in `[1, n]`, otherwise in
/// `[0, n)`.
pub open spec fn pair_in_range(p: (usize, usize), n: nat, one_based: bool) -> bool {
    if one_based {
        1 <= p.0 <= n && 1 <= p.1 <= n
    } else {
        p.0 < n && p.1 < n
    }
}

/// Whether a whole graph description is admissible: a positive node count
/// and every edge pair in range.
pub open spec fn description_ok(n: nat, pairs: Seq<(usize, usize)>, one_based: bool) -> bool {
    &&& n > 0
    &&& forall|i: int| 0 <= i < pairs.len() ==> pair_in_range(#[trigger] pairs[i], n, one_based)
}

/// The edge that one admissible pair describes, after the optional
/// one-based-to-zero-based conversion.
pub open spec fn pair_edge(p: (usize, usize), one_based: bool) -> Edge {
    if one_based {
        Edge { u: (p.0 - 1) as usize, v: (p.1 - 1) as usize }
    } else {
        Edge { u: p.0, v: p.1 }
    }
}

/// The edge list that an admissible description describes.
pub open spec fn description_edges(pairs: Seq<(usize, usize)>, one_based: bool) -> Seq<Edge> {
    Seq::new(pairs.len(), |i: int| pair_edge(pairs[i], one_based))
}

/// `build_graph`: a validated graph from a plain description, exactly when
/// the description is admissible; otherwise the description is rejected as
/// invalid input.
pub fn build_graph(node_count: usize, pairs: &Vec<(usize, usize)>, one_based: bool) -> (res:
    Result<Graph, GraphError>)
    ensures
        description_ok(node_count as nat, pairs@, one_based) ==> {
            &&& res is Ok
            &&& res->Ok_0.wf()
            &&& res->Ok_0.spec_node_count() == node_count
            &&& res->Ok_0.spec_edges() == description_edges(pairs@, one_based)
        },
        !description_ok(node_count as nat, pairs@, one_based) ==> res == Err::<
            Graph,
            GraphError,
        >(GraphError::InvalidInput),
{
    if node_count == 0 {
        return Err(GraphError::InvalidInput);
    }
    let mut g = Graph::new(node_count);
    let mut i: usize = 0;
    while i < pairs.len()
        invariant
            node_count > 0,
            i <= pairs@.len(),
            g.wf(),
            g.spec_node_count() == node_count,
            forall|t: int| 0 <= t < i ==> pair_in_range(#[trigger] pairs@[t], node_count as nat, one_based),
            g.spec_edges() == description_edges(pairs@.take(i as int), one_based),
        decreases pairs@.len() - i,
    {
        let (pu, pv) = pairs[i];
        let u: usize;
        let v: usize;
        if one_based {
            if pu == 0 || pv == 0 {
                return Err(GraphError::InvalidInput);
            }
            u = pu - 1;
            v = pv - 1;
        } else {
            u = pu;
            v = pv;
        }
        if u >= node_count || v >= node_count {
            return Err(GraphError::InvalidInput);
        }
        let ghost pre = g.spec_edges();
        match g.add_edge(u, v) {
            Ok(()) => {},
            Err(_) => {
                return Err(GraphError::InvalidInput);
            },
        }
        proof {
            assert(g.spec_edges() =~= description_edges(pairs@.take(i + 1), one_based)) by {
                assert(pair_edge(pairs@[i as int], one_based) == (Edge { u, v }));
                assert(g.spec_edges() == pre.push(Edge { u, v }));
            }
        }
        i += 1;
    }
    proof {
        assert(pairs@.take(pairs@.len() as int) =~= pairs@);
    }
    Ok(g)
}

} // verus!
