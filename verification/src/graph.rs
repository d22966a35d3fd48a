//! The graph container: a batch of densely numbered nodes, a directed edge
//! list, and the forward adjacency table derived from it, together with the
//! transposition that the component assignment pass traverses.

use vstd::prelude::*;

verus! {

broadcast use vstd::std_specs::vec::axiom_spec_len;

/// A directed edge `u -> v` between two node indices.
#[derive(Clone, Copy, PartialEq, Eq, Structural, Debug)]
pub struct Edge {
    pub u: usize,
    pub v: usize,
}

impl Edge {
    /// The same connection with its direction flipped.
    pub fn reverse(&self) -> (r: Edge)
        ensures
            r.u == self.v,
            r.v == self.u,
    {
        Edge { u: self.v, v: self.u }
    }
}

/// How a graph description can be rejected.
#[derive(Clone, Copy, PartialEq, Eq, Structural, Debug)]
pub enum GraphError {
    /// An edge endpoint does not name a node of the graph.
    IndexOutOfRange,
    /// The node count or an edge pair of a graph description is malformed.
    InvalidInput,
}

/// Both endpoints of `e` name nodes of a graph with `n` nodes.
pub open spec fn edge_in_range(e: Edge, n: nat) -> bool {
    e.u < n && e.v < n
}

/// Targets of the edges leaving `u`, in edge insertion order.
pub open spec fn out_neighbors(edges: Seq<Edge>, u: int) -> Seq<usize>
    decreases edges.len(),
{
    if edges.len() == 0 {
        Seq::empty()
    } else {
        let rest = out_neighbors(edges.drop_last(), u);
        if edges.last().u == u {
            rest.push(edges.last().v)
        } else {
            rest
        }
    }
}

/// Sources of the edges entering `v`, in edge insertion order.
pub open spec fn in_neighbors(edges: Seq<Edge>, v: int) -> Seq<usize>
    decreases edges.len(),
{
    if edges.len() == 0 {
        Seq::empty()
    } else {
        let rest = in_neighbors(edges.drop_last(), v);
        if edges.last().v == v {
            rest.push(edges.last().u)
        } else {
            rest
        }
    }
}

/// The rows of an adjacency table, one neighbor sequence per node.
pub open spec fn rows(table: Seq<Vec<usize>>) -> Seq<Seq<usize>> {
    Seq::new(table.len(), |i: int| table[i]@)
}

/// The adjacency of the transposed graph: row `v` lists the sources of the
/// edges entering `v`.
pub open spec fn transpose_adj(edges: Seq<Edge>, n: nat) -> Seq<Seq<usize>> {
    Seq::new(n, |v: int| in_neighbors(edges, v))
}

/// A well-formed adjacency table over `n` nodes: one row per node, every
/// entry a node index, and machine-representable row lengths.
pub open spec fn adj_wf(adj: Seq<Seq<usize>>, n: nat) -> bool {
    &&& adj.len() == n
    &&& n <= usize::MAX as nat
    &&& forall|v: int| 0 <= v < n ==> (#[trigger] adj[v]).len() <= usize::MAX as nat
    &&& forall|v: int, j: int|
        0 <= v < n && 0 <= j < adj[v].len() ==> (#[trigger] adj[v][j]) < n
}

/// Appending an edge extends exactly the row of its source.
pub proof fn lemma_out_neighbors_push(edges: Seq<Edge>, e: Edge, u: int)
    ensures
        out_neighbors(edges.push(e), u) == if e.u == u {
            out_neighbors(edges, u).push(e.v)
        } else {
            out_neighbors(edges, u)
        },
{
    assert(edges.push(e).drop_last() =~= edges);
    assert(edges.push(e).last() == e);
}

/// Appending an edge extends exactly the transposed row of its target.
pub proof fn lemma_in_neighbors_push(edges: Seq<Edge>, e: Edge, v: int)
    ensures
        in_neighbors(edges.push(e), v) == if e.v == v {
            in_neighbors(edges, v).push(e.u)
        } else {
            in_neighbors(edges, v)
        },
{
    assert(edges.push(e).drop_last() =~= edges);
    assert(edges.push(e).last() == e);
}

/// The transposed rows hold node indices and are no longer than the edge
/// list.
pub proof fn lemma_in_neighbors_bounds(edges: Seq<Edge>, n: nat, v: int)
    requires
        forall|i: int| 0 <= i < edges.len() ==> edge_in_range(#[trigger] edges[i], n),
    ensures
        in_neighbors(edges, v).len() <= edges.len(),
        forall|j: int|
            0 <= j < in_neighbors(edges, v).len() ==> ((#[trigger] in_neighbors(edges, v)[j])
                as int) < n,
    decreases edges.len(),
{
    if edges.len() > 0 {
        assert(forall|i: int|
            0 <= i < edges.drop_last().len() ==> edge_in_range(
                #[trigger] edges.drop_last()[i],
                n,
            ));
        lemma_in_neighbors_bounds(edges.drop_last(), n, v);
    }
}

/// The adjacency of the transposed graph is well formed whenever the edge
/// list is in range and machine-representable.
pub proof fn lemma_transpose_adj_wf(edges: Seq<Edge>, n: nat)
    requires
        n <= usize::MAX as nat,
        edges.len() <= usize::MAX as nat,
        forall|i: int| 0 <= i < edges.len() ==> edge_in_range(#[trigger] edges[i], n),
    ensures
        adj_wf(transpose_adj(edges, n), n),
{
    let radj = transpose_adj(edges, n);
    assert forall|v: int| 0 <= v < n implies (#[trigger] radj[v]).len() <= usize::MAX as nat by {
        lemma_in_neighbors_bounds(edges, n, v);
    }
    assert forall|v: int, j: int|
        0 <= v < n && 0 <= j < radj[v].len() implies ((#[trigger] radj[v][j]) as int) < n by {
        lemma_in_neighbors_bounds(edges, n, v);
    }
}

/// Every row of an adjacency table built from vectors has a
/// machine-representable length.
pub proof fn lemma_rows_len_bounded(table: Seq<Vec<usize>>)
    ensures
        forall|i: int|
            0 <= i < table.len() ==> (#[trigger] rows(table)[i]).len() <= usize::MAX as nat,
{
    assert forall|i: int|
        0 <= i < table.len() implies (#[trigger] rows(table)[i]).len() <= usize::MAX as nat by {
        let r = table[i];
        assert(vstd::std_specs::vec::spec_vec_len(&r) == r@.len());
    }
}

/// A directed graph: a node count fixed at construction, the edge list in
/// insertion order, and the forward adjacency table kept in step with it.
#[derive(Debug)]
pub struct Graph {
    pub edges: Vec<Edge>,
    pub neighbors: Vec<Vec<usize>>,
}

impl Graph {
    /// How many nodes the graph has.
    pub open spec fn spec_node_count(&self) -> nat {
        self.neighbors@.len()
    }

    /// The edge list, in insertion order.
    pub open spec fn spec_edges(&self) -> Seq<Edge> {
        self.edges@
    }

    /// The forward adjacency table.
    pub open spec fn spec_adj(&self) -> Seq<Seq<usize>> {
        rows(self.neighbors@)
    }

    /// Well-formedness: every edge endpoint is a node, and the adjacency
    /// table is exactly the out-neighbor view of the edge list.
    pub open spec fn wf(&self) -> bool {
        &&& forall|i: int|
            0 <= i < self.spec_edges().len() ==> edge_in_range(
                #[trigger] self.spec_edges()[i],
                self.spec_node_count(),
            )
        &&& forall|u: int|
            0 <= u < self.spec_node_count() ==> #[trigger] self.spec_adj()[u]
                == out_neighbors(self.spec_edges(), u)
        &&& adj_wf(self.spec_adj(), self.spec_node_count())
    }

    /// The edge list of a graph held in vectors is machine-representable.
    pub proof fn lemma_edges_len_bounded(&self)
        ensures
            self.spec_edges().len() <= usize::MAX as nat,
    {
        assert(vstd::std_specs::vec::spec_vec_len(&self.edges) == self.edges@.len());
    }

    /// A graph of `n` nodes with no edges and empty neighbor lists.
    pub fn new(n: usize) -> (g: Graph)
        ensures
            g.wf(),
            g.spec_node_count() == n,
            g.spec_edges() == Seq::<Edge>::empty(),
            forall|u: int| 0 <= u < n ==> (#[trigger] g.spec_adj()[u]).len() == 0,
    {
        let mut neighbors: Vec<Vec<usize>> = Vec::new();
        let mut i: usize = 0;
        while i < n
            invariant
                i <= n,
                neighbors@.len() == i,
                forall|u: int| 0 <= u < i ==> (#[trigger] neighbors@[u])@.len() == 0,
            decreases n - i,
        {
            neighbors.push(Vec::new());
            i += 1;
        }
        let g = Graph { edges: Vec::new(), neighbors };
        proof {
            assert(g.spec_edges() =~= Seq::<Edge>::empty());
            assert(forall|u: int|
                0 <= u < n ==> #[trigger] g.spec_adj()[u] == out_neighbors(g.spec_edges(), u))
                by {
                assert(forall|u: int|
                    out_neighbors(Seq::<Edge>::empty(), u) =~= Seq::<usize>::empty());
            }
        }
        g
    }

    /// The number of nodes.
    pub fn node_count(&self) -> (n: usize)
        ensures
            n == self.spec_node_count(),
    {
        self.neighbors.len()
    }

    /// The number of edges.
    pub fn edge_count(&self) -> (m: usize)
        ensures
            m == self.spec_edges().len(),
    {
        self.edges.len()
    }

    /// The out-neighbor list of node `u`, in edge insertion order.
    pub fn out_neighbors_of(&self, u: usize) -> (r: &Vec<usize>)
        requires
            u < self.spec_node_count(),
        ensures
            r@ == self.spec_adj()[u as int],
    {
        &self.neighbors[u]
    }

    /// Records the directed edge `u -> v`. An endpoint that names no node is
    /// refused and leaves the graph unchanged.
    pub fn add_edge(&mut self, u: usize, v: usize) -> (r: Result<(), GraphError>)
        requires
            old(self).wf(),
        ensures
            final(self).wf(),
            final(self).spec_node_count() == old(self).spec_node_count(),
            u < old(self).spec_node_count() && v < old(self).spec_node_count() ==> {
                &&& r is Ok
                &&& final(self).spec_edges() == old(self).spec_edges().push(Edge { u, v })
                &&& final(self).spec_adj() == old(self).spec_adj().update(
                    u as int,
                    old(self).spec_adj()[u as int].push(v),
                )
            },
            !(u < old(self).spec_node_count() && v < old(self).spec_node_count()) ==> {
                &&& r == Err::<(), GraphError>(GraphError::IndexOutOfRange)
                &&& *final(self) == *old(self)
            },
    {
        let n = self.neighbors.len();
        if u < n && v < n {
            let e = Edge { u, v };
            self.edges.push(e);
            self.neighbors[u].push(v);
            proof {
                lemma_rows_len_bounded(self.neighbors@);
                assert(self.spec_adj() =~= old(self).spec_adj().update(
                    u as int,
                    old(self).spec_adj()[u as int].push(v),
                ));
                assert forall|w: int| 0 <= w < self.spec_node_count() implies
                    #[trigger] self.spec_adj()[w] == out_neighbors(self.spec_edges(), w) by {
                    lemma_out_neighbors_push(old(self).spec_edges(), e, w);
                }
            }
            Ok(())
        } else {
            Err(GraphError::IndexOutOfRange)
        }
    }

    /// The reversed edge list and the adjacency of the transposed graph: for
    /// every edge `u -> v` a reversed edge `v -> u`, visited in edge order.
    pub fn transpose(&self) -> (r: (Vec<Edge>, Vec<Vec<usize>>))
        requires
            self.wf(),
        ensures
            r.0@.len() == self.spec_edges().len(),
            forall|i: int|
                0 <= i < r.0@.len() ==> #[trigger] r.0@[i] == (Edge {
                    u: self.spec_edges()[i].v,
                    v: self.spec_edges()[i].u,
                }),
            rows(r.1@) == transpose_adj(self.spec_edges(), self.spec_node_count()),
            adj_wf(rows(r.1@), self.spec_node_count()),
    {
        let n = self.neighbors.len();
        let mut rev_adj: Vec<Vec<usize>> = Vec::new();
        let mut i: usize = 0;
        while i < n
            invariant
                i <= n,
                rev_adj@.len() == i,
                forall|x: int| 0 <= x < i ==> (#[trigger] rev_adj@[x])@.len() == 0,
            decreases n - i,
        {
            rev_adj.push(Vec::new());
            i += 1;
        }
        let mut rev_edges: Vec<Edge> = Vec::new();
        let mut j: usize = 0;
        proof {
            assert(forall|x: int|
                in_neighbors(self.spec_edges().take(0), x) =~= Seq::<usize>::empty());
        }
        while j < self.edges.len()
            invariant
                self.wf(),
                n == self.spec_node_count(),
                j <= self.spec_edges().len(),
                rev_edges@.len() == j,
                forall|t: int|
                    0 <= t < j ==> #[trigger] rev_edges@[t] == (Edge {
                        u: self.spec_edges()[t].v,
                        v: self.spec_edges()[t].u,
                    }),
                rev_adj@.len() == n,
                forall|x: int|
                    0 <= x < n ==> (#[trigger] rev_adj@[x])@ == in_neighbors(
                        self.spec_edges().take(j as int),
                        x,
                    ),
                forall|x: int, t: int|
                    0 <= x < n && 0 <= t < rev_adj@[x]@.len() ==> (#[trigger] rev_adj@[x]@[t])
                        < n,
            decreases self.spec_edges().len() - j,
        {
            let e = self.edges[j];
            let rev = e.reverse();
            let ghost prefix = self.spec_edges().take(j as int);
            rev_adj[rev.u].push(rev.v);
            rev_edges.push(rev);
            proof {
                assert(self.spec_edges().take(j + 1) =~= prefix.push(e));
                assert forall|x: int| 0 <= x < n implies (#[trigger] rev_adj@[x])@
                    == in_neighbors(self.spec_edges().take(j + 1), x) by {
                    lemma_in_neighbors_push(prefix, e, x);
                }
            }
            j += 1;
        }
        proof {
            lemma_rows_len_bounded(rev_adj@);
            assert(self.spec_edges().take(self.spec_edges().len() as int)
                =~= self.spec_edges());
            assert(rows(rev_adj@) =~= transpose_adj(
                self.spec_edges(),
                self.spec_node_count(),
            ));
        }
        (rev_edges, rev_adj)
    }
}

} // verus!
