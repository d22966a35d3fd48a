//! The condensation classifier: per-component node totals and
//! cross-component edge flags, and the partition of the components into the
//! three structural classes used to size the minimum edge set that would
//! make the condensation strongly connected.

use vstd::prelude::*;

verus! {

use crate::graph::Edge;
use crate::graph::Graph;

/// Per-component bookkeeping: how many nodes the component holds, and
/// whether any cross-component edge enters or leaves it.
#[derive(Clone, Copy, PartialEq, Eq, Structural, Debug)]
pub struct ComponentData {
    pub count: usize,
    pub has_incoming_cross_edge: bool,
    pub has_outgoing_cross_edge: bool,
}

impl Default for ComponentData {
    /// An empty component record: no members, no cross edges seen.
    fn default() -> (d: Self)
        ensures
            d.count == 0,
            !d.has_incoming_cross_edge,
            !d.has_outgoing_cross_edge,
    {
        ComponentData { count: 0, has_incoming_cross_edge: false, has_outgoing_cross_edge: false }
    }
}

/// How many nodes carry the component id `c`.
pub open spec fn component_size(comp: Seq<usize>, c: int) -> nat
    decreases comp.len(),
{
    if comp.len() == 0 {
        0
    } else {
        component_size(comp.drop_last(), c) + if (comp.last() as int) == c {
            1nat
        } else {
            0nat
        }
    }
}

/// The node totals of the components with ids below `k`, summed.
pub open spec fn total_size(comp: Seq<usize>, k: int) -> nat
    decreases k,
{
    if k <= 0 {
        0
    } else {
        total_size(comp, k - 1) + component_size(comp, k - 1)
    }
}

/// `e` crosses components into `c`.
pub open spec fn cross_into(e: Edge, comp: Seq<usize>, c: int) -> bool {
    (comp[e.v as int] as int) == c && comp[e.u as int] != comp[e.v as int]
}

/// `e` crosses components out of `c`.
pub open spec fn cross_out_of(e: Edge, comp: Seq<usize>, c: int) -> bool {
    (comp[e.u as int] as int) == c && comp[e.u as int] != comp[e.v as int]
}

/// Some edge crosses components into `c`.
pub open spec fn has_cross_in(edges: Seq<Edge>, comp: Seq<usize>, c: int) -> bool {
    exists|i: int| 0 <= i < edges.len() && cross_into(#[trigger] edges[i], comp, c)
}

/// Some edge crosses components out of `c`.
pub open spec fn has_cross_out(edges: Seq<Edge>, comp: Seq<usize>, c: int) -> bool {
    exists|i: int| 0 <= i < edges.len() && cross_out_of(#[trigger] edges[i], comp, c)
}

/// Class A, "outgoing-only / source": cross edges leave the component and
/// none enter it.
pub open spec fn is_class_a(edges: Seq<Edge>, comp: Seq<usize>, c: int) -> bool {
    has_cross_out(edges, comp, c) && !has_cross_in(edges, comp, c)
}

/// Class B, "incoming-only / sink": cross edges enter the component and
/// none leave it.
pub open spec fn is_class_b(edges: Seq<Edge>, comp: Seq<usize>, c: int) -> bool {
    has_cross_in(edges, comp, c) && !has_cross_out(edges, comp, c)
}

/// Class C, "mixed or isolated": cross edges in both directions, or none
/// at all.
pub open spec fn is_class_c(edges: Seq<Edge>, comp: Seq<usize>, c: int) -> bool {
    has_cross_in(edges, comp, c) == has_cross_out(edges, comp, c)
}

/// The nodes of the Class A components with ids below `k`, summed.
pub open spec fn class_a_size(edges: Seq<Edge>, comp: Seq<usize>, k: int) -> nat
    decreases k,
{
    if k <= 0 {
        0
    } else {
        class_a_size(edges, comp, k - 1) + if is_class_a(edges, comp, k - 1) {
            component_size(comp, k - 1)
        } else {
            0nat
        }
    }
}

/// The nodes of the Class B components with ids below `k`, summed.
pub open spec fn class_b_size(edges: Seq<Edge>, comp: Seq<usize>, k: int) -> nat
    decreases k,
{
    if k <= 0 {
        0
    } else {
        class_b_size(edges, comp, k - 1) + if is_class_b(edges, comp, k - 1) {
            component_size(comp, k - 1)
        } else {
            0nat
        }
    }
}

/// The nodes of the Class C components with ids below `k`, summed.
pub open spec fn class_c_size(edges: Seq<Edge>, comp: Seq<usize>, k: int) -> nat
    decreases k,
{
    if k <= 0 {
        0
    } else {
        class_c_size(edges, comp, k - 1) + if is_class_c(edges, comp, k - 1) {
            component_size(comp, k - 1)
        } else {
            0nat
        }
    }
}

pub proof fn lemma_component_size_le(comp: Seq<usize>, c: int)
    ensures
        component_size(comp, c) <= comp.len(),
    decreases comp.len(),
{
    if comp.len() > 0 {
        lemma_component_size_le(comp.drop_last(), c);
    }
}

/// One more labelled node grows exactly the total of its own component.
pub proof fn lemma_component_size_push(comp: Seq<usize>, x: usize, c: int)
    ensures
        component_size(comp.push(x), c) == component_size(comp, c) + if (x as int) == c {
            1nat
        } else {
            0nat
        },
{
    assert(comp.push(x).drop_last() =~= comp);
    assert(comp.push(x).last() == x);
}

pub proof fn lemma_total_size_empty(k: int)
    ensures
        total_size(Seq::<usize>::empty(), k) == 0,
    decreases k,
{
    if k > 0 {
        lemma_total_size_empty(k - 1);
    }
}

/// One more labelled node grows the summed totals by one when its id is
/// counted, and not at all otherwise.
pub proof fn lemma_total_size_push(comp: Seq<usize>, x: usize, k: int)
    ensures
        total_size(comp.push(x), k) == total_size(comp, k) + if 0 <= (x as int) < k {
            1nat
        } else {
            0nat
        },
    decreases k,
{
    if k > 0 {
        lemma_total_size_push(comp, x, k - 1);
        lemma_component_size_push(comp, x, k - 1);
    }
}

/// The per-component node totals sum to the node count: every node is
/// counted in exactly one component.
pub proof fn lemma_component_sizes_total(comp: Seq<usize>, k: int)
    requires
        forall|u: int| 0 <= u < comp.len() ==> ((#[trigger] comp[u]) as int) < k,
    ensures
        total_size(comp, k) == comp.len(),
    decreases comp.len(),
{
    if comp.len() == 0 {
        assert(comp =~= Seq::<usize>::empty());
        lemma_total_size_empty(k);
    } else {
        let s = comp.drop_last();
        assert(forall|u: int| 0 <= u < s.len() ==> ((#[trigger] s[u]) as int) < k);
        assert(comp[comp.len() - 1] == comp.last());
        lemma_component_sizes_total(s, k);
        lemma_total_size_push(s, comp.last(), k);
        assert(s.push(comp.last()) =~= comp);
    }
}

/// A node with id `c` makes that component's total positive.
pub proof fn lemma_component_size_positive(comp: Seq<usize>, i: int)
    requires
        0 <= i < comp.len(),
    ensures
        component_size(comp, comp[i] as int) >= 1,
    decreases comp.len(),
{
    if i < comp.len() - 1 {
        lemma_component_size_positive(comp.drop_last(), i);
        assert(comp.drop_last()[i] == comp[i]);
    }
}

/// Two nodes with the same id make that component's total at least two.
pub proof fn lemma_component_size_two(comp: Seq<usize>, i: int, j: int)
    requires
        0 <= i < j < comp.len(),
        comp[i] == comp[j],
    ensures
        component_size(comp, comp[i] as int) >= 2,
    decreases comp.len(),
{
    if j == comp.len() - 1 {
        lemma_component_size_positive(comp.drop_last(), i);
        assert(comp.drop_last()[i] == comp[i]);
    } else {
        lemma_component_size_two(comp.drop_last(), i, j);
        assert(comp.drop_last()[i] == comp[i]);
    }
}

/// With every id below `k` carried by some node, the totals sum to at
/// least `k`.
pub proof fn lemma_total_size_at_least(comp: Seq<usize>, k: int)
    requires
        forall|c: int| 0 <= c < k ==> component_size(comp, c) >= 1,
    ensures
        total_size(comp, k) >= k,
    decreases k,
{
    if k > 0 {
        lemma_total_size_at_least(comp, k - 1);
    }
}

/// ... and to strictly more when one component holds two nodes.
pub proof fn lemma_total_size_pigeonhole(comp: Seq<usize>, k: int, c0: int)
    requires
        forall|c: int| 0 <= c < k ==> component_size(comp, c) >= 1,
        0 <= c0 < k,
        component_size(comp, c0) >= 2,
    ensures
        total_size(comp, k) >= k + 1,
    decreases k,
{
    if c0 == k - 1 {
        lemma_total_size_at_least(comp, k - 1);
    } else {
        lemma_total_size_pigeonhole(comp, k - 1, c0);
    }
}

/// Summed totals only grow with the id bound.
pub proof fn lemma_total_size_monotone(comp: Seq<usize>, k1: int, k2: int)
    requires
        k1 <= k2,
    ensures
        total_size(comp, k1) <= total_size(comp, k2),
    decreases k2 - k1,
{
    if k1 < k2 {
        lemma_total_size_monotone(comp, k1, k2 - 1);
    }
}

/// Every component falls in exactly one class, so the three class totals
/// partition the summed node totals.
pub proof fn lemma_class_partition(edges: Seq<Edge>, comp: Seq<usize>, k: int)
    ensures
        class_a_size(edges, comp, k) + class_b_size(edges, comp, k) + class_c_size(
            edges,
            comp,
            k,
        ) == total_size(comp, k),
    decreases k,
{
    if k > 0 {
        lemma_class_partition(edges, comp, k - 1);
    }
}

/// One more inspected edge extends the crossing facts by exactly that
/// edge's crossings.
pub proof fn lemma_has_cross_extend(edges: Seq<Edge>, comp: Seq<usize>, c: int, i: int)
    requires
        0 <= i < edges.len(),
    ensures
        has_cross_in(edges.take(i + 1), comp, c) == (has_cross_in(edges.take(i), comp, c)
            || cross_into(edges[i], comp, c)),
        has_cross_out(edges.take(i + 1), comp, c) == (has_cross_out(edges.take(i), comp, c)
            || cross_out_of(edges[i], comp, c)),
{
    let pre = edges.take(i);
    let ext = edges.take(i + 1);
    assert(ext[i] == edges[i]);
    if has_cross_in(ext, comp, c) {
        let j = choose|j: int| 0 <= j < ext.len() && cross_into(#[trigger] ext[j], comp, c);
        if j < i {
            assert(cross_into(pre[j], comp, c));
        }
    }
    if has_cross_in(pre, comp, c) {
        let j = choose|j: int| 0 <= j < pre.len() && cross_into(#[trigger] pre[j], comp, c);
        assert(cross_into(ext[j], comp, c));
    }
    if has_cross_out(ext, comp, c) {
        let j = choose|j: int| 0 <= j < ext.len() && cross_out_of(#[trigger] ext[j], comp, c);
        if j < i {
            assert(cross_out_of(pre[j], comp, c));
        }
    }
    if has_cross_out(pre, comp, c) {
        let j = choose|j: int| 0 <= j < pre.len() && cross_out_of(#[trigger] pre[j], comp, c);
        assert(cross_out_of(ext[j], comp, c));
    }
}

/// `classify_condensation`: the edge count of the graph and the summed node
/// totals of the three structural classes. The class totals are pinned to
/// the crossing facts of the edge list, and together they cover every node
/// exactly once.
pub fn classify_condensation(g: &Graph, comp: &Vec<usize>, component_count: usize) -> (res: (
    usize,
    usize,
    usize,
    usize,
))
    requires
        g.wf(),
        comp@.len() == g.spec_node_count(),
        forall|u: int| 0 <= u < comp@.len() ==> ((#[trigger] comp@[u]) as int) < component_count,
    ensures
        res.0 == g.spec_edges().len(),
        res.1 == class_a_size(g.spec_edges(), comp@, component_count as int),
        res.2 == class_b_size(g.spec_edges(), comp@, component_count as int),
        res.3 == class_c_size(g.spec_edges(), comp@, component_count as int),
        res.1 + res.2 + res.3 == g.spec_node_count(),
{
    let ghost edges = g.spec_edges();
    let n = g.node_count();
    let k = component_count;
    let mut groups: Vec<ComponentData> = Vec::new();
    let mut j: usize = 0;
    while j < k
        invariant
            j <= k,
            groups@.len() == j,
            forall|c: int|
                0 <= c < j ==> (#[trigger] groups@[c]) == (ComponentData {
                    count: 0,
                    has_incoming_cross_edge: false,
                    has_outgoing_cross_edge: false,
                }),
        decreases k - j,
    {
        groups.push(ComponentData::default());
        j += 1;
    }
    // Count the members of every component, one pass over the nodes.
    let mut u: usize = 0;
    proof {
        assert(comp@.take(0) =~= Seq::<usize>::empty());
    }
    while u < n
        invariant
            u <= n,
            n == g.spec_node_count(),
            comp@.len() == n,
            forall|x: int|
                0 <= x < comp@.len() ==> ((#[trigger] comp@[x]) as int) < k,
            groups@.len() == k,
            forall|c: int|
                0 <= c < k ==> (#[trigger] groups@[c]).count == component_size(
                    comp@.take(u as int),
                    c,
                ),
            forall|c: int|
                0 <= c < k ==> !(#[trigger] groups@[c]).has_incoming_cross_edge && !groups@[
                    c
                ].has_outgoing_cross_edge,
        decreases n - u,
    {
        let c = comp[u];
        let cd = groups[c];
        proof {
            lemma_component_size_le(comp@.take(u as int), c as int);
        }
        groups.set(
            c,
            ComponentData {
                count: cd.count + 1,
                has_incoming_cross_edge: cd.has_incoming_cross_edge,
                has_outgoing_cross_edge: cd.has_outgoing_cross_edge,
            },
        );
        proof {
            assert(comp@.take(u + 1) =~= comp@.take(u as int).push(comp@[u as int]));
            assert forall|c2: int| 0 <= c2 < k implies (#[trigger] groups@[c2]).count
                == component_size(comp@.take(u + 1), c2) by {
                lemma_component_size_push(comp@.take(u as int), comp@[u as int], c2);
            }
        }
        u += 1;
    }
    proof {
        assert(comp@.take(n as int) =~= comp@);
    }
    // Mark the components with entering and leaving cross edges, one pass
    // over the edges.
    let m = g.edge_count();
    let mut i: usize = 0;
    while i < m
        invariant
            i <= m,
            m == edges.len(),
            edges == g.spec_edges(),
            g.wf(),
            n == g.spec_node_count(),
            comp@.len() == n,
            forall|x: int|
                0 <= x < comp@.len() ==> ((#[trigger] comp@[x]) as int) < k,
            groups@.len() == k,
            forall|c: int|
                0 <= c < k ==> (#[trigger] groups@[c]).count == component_size(comp@, c),
            forall|c: int|
                0 <= c < k ==> (#[trigger] groups@[c]).has_incoming_cross_edge == has_cross_in(
                    edges.take(i as int),
                    comp@,
                    c,
                ),
            forall|c: int|
                0 <= c < k ==> (#[trigger] groups@[c]).has_outgoing_cross_edge == has_cross_out(
                    edges.take(i as int),
                    comp@,
                    c,
                ),
        decreases m - i,
    {
        let e = g.edges[i];
        let cu = comp[e.u];
        let cv = comp[e.v];
        if cu != cv {
            let cd_in = groups[cv];
            groups.set(
                cv,
                ComponentData {
                    count: cd_in.count,
                    has_incoming_cross_edge: true,
                    has_outgoing_cross_edge: cd_in.has_outgoing_cross_edge,
                },
            );
            let cd_out = groups[cu];
            groups.set(
                cu,
                ComponentData {
                    count: cd_out.count,
                    has_incoming_cross_edge: cd_out.has_incoming_cross_edge,
                    has_outgoing_cross_edge: true,
                },
            );
        }
        proof {
            assert forall|c: int| 0 <= c < k implies (#[trigger] groups@[c]).has_incoming_cross_edge
                == has_cross_in(edges.take(i + 1), comp@, c) && groups@[c].has_outgoing_cross_edge
                == has_cross_out(edges.take(i + 1), comp@, c) by {
                lemma_has_cross_extend(edges, comp@, c, i as int);
            }
        }
        i += 1;
    }
    proof {
        assert(edges.take(m as int) =~= edges);
    }
    // Partition the components into the three classes and sum their nodes.
    let mut class_a: usize = 0;
    let mut class_b: usize = 0;
    let mut class_c: usize = 0;
    let mut c: usize = 0;
    proof {
        lemma_component_sizes_total(comp@, k as int);
    }
    while c < k
        invariant
            c <= k,
            edges == g.spec_edges(),
            n == g.spec_node_count(),
            comp@.len() == n,
            forall|x: int|
                0 <= x < comp@.len() ==> ((#[trigger] comp@[x]) as int) < k,
            groups@.len() == k,
            forall|c2: int|
                0 <= c2 < k ==> (#[trigger] groups@[c2]).count == component_size(comp@, c2),
            forall|c2: int|
                0 <= c2 < k ==> (#[trigger] groups@[c2]).has_incoming_cross_edge == has_cross_in(
                    edges,
                    comp@,
                    c2,
                ),
            forall|c2: int|
                0 <= c2 < k ==> (#[trigger] groups@[c2]).has_outgoing_cross_edge == has_cross_out(
                    edges,
                    comp@,
                    c2,
                ),
            class_a == class_a_size(edges, comp@, c as int),
            class_b == class_b_size(edges, comp@, c as int),
            class_c == class_c_size(edges, comp@, c as int),
            class_a + class_b + class_c == total_size(comp@, c as int),
            total_size(comp@, k as int) == n,
        decreases k - c,
    {
        proof {
            lemma_total_size_monotone(comp@, c + 1, k as int);
        }
        let cd = groups[c];
        if cd.has_incoming_cross_edge && cd.has_outgoing_cross_edge {
            class_c = class_c + cd.count;
        } else if cd.has_outgoing_cross_edge {
            class_a = class_a + cd.count;
        } else if cd.has_incoming_cross_edge {
            class_b = class_b + cd.count;
        } else {
            class_c = class_c + cd.count;
        }
        c += 1;
    }
    (g.edge_count(), class_a, class_b, class_c)
}

} // verus!
