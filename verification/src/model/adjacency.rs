//! What the adjacency indices of a graph hold, element by element: the
//! children of a node are exactly its outgoing anchors, its parent is its
//! incoming anchor, and the edges of a property are exactly those that touch
//! it, each list in edge order.
use vstd::prelude::*;

use crate::model::types::{
    EdgeId, EdgeView, Graph, NodeId, PropId, child_links, domain_views, edge_views, edges_touching,
    node_views, parent_link, prop_views, deriv_views, single_parent, touch_count,
};

verus! {

/// `e` is an anchor whose parent is `node`.
pub open spec fn link_from(e: EdgeView, node: NodeId) -> bool {
    e matches EdgeView::Link { parent, .. } && parent == node
}

/// `e` is an anchor whose child is `node`.
pub open spec fn link_into(e: EdgeView, node: NodeId) -> bool {
    e matches EdgeView::Link { child, .. } && child == node
}

/// Every id in `s` is below `n`, and the ids grow along `s` (strictly when
/// `strict`).
pub open spec fn ordered_below(s: Seq<EdgeId>, n: nat, strict: bool) -> bool {
    &&& forall|i: int| 0 <= i < s.len() ==> (#[trigger] s[i]).0 < n
    &&& forall|i: int, j: int|
        0 <= i < j < s.len() ==> if strict {
            (#[trigger] s[i]).0 < (#[trigger] s[j]).0
        } else {
            s[i].0 <= s[j].0
        }
}

proof fn lemma_child_links(edges: Seq<EdgeView>, node: NodeId, n: nat)
    requires
        n <= edges.len() <= u32::MAX,
    ensures
        ordered_below(child_links(edges, node, n), n, true),
        forall|e: int|
            0 <= e < n ==> (child_links(edges, node, n).contains(EdgeId(e as u32)) <==> link_from(
                #[trigger] edges[e],
                node,
            )),
    decreases n,
{
    if n > 0 {
        let m = (n - 1) as nat;
        lemma_child_links(edges, node, m);
        let prev = child_links(edges, node, m);
        let list = child_links(edges, node, n);
        let id = EdgeId(m as u32);
        assert(list == prev || (list == prev.push(id) && link_from(edges[m as int], node)));
        assert(list == prev ==> !link_from(edges[m as int], node));
        assert forall|e: int| 0 <= e < n implies (list.contains(EdgeId(e as u32)) <==> link_from(
            #[trigger] edges[e],
            node,
        )) by {
            let x = EdgeId(e as u32);
            if list.contains(x) {
                let i = choose|i: int| 0 <= i < list.len() && list[i] == x;
                if i < prev.len() {
                    assert(prev[i] == x);
                    assert(prev.contains(x));
                } else {
                    assert(x == id);
                }
            }
            if e < m {
                if prev.contains(x) {
                    let i = choose|i: int| 0 <= i < prev.len() && prev[i] == x;
                    assert(list[i] == x);
                }
            } else if link_from(edges[e], node) {
                assert(list[list.len() - 1] == id);
            }
        }
    }
}

proof fn lemma_edges_touching(edges: Seq<EdgeView>, p: PropId, n: nat)
    requires
        n <= edges.len() <= u32::MAX,
    ensures
        ordered_below(edges_touching(edges, p, n), n, false),
        forall|e: int|
            0 <= e < n ==> (edges_touching(edges, p, n).contains(EdgeId(e as u32)) <==> touch_count(
                #[trigger] edges[e],
                p,
            ) > 0),
    decreases n,
{
    if n > 0 {
        let m = (n - 1) as nat;
        lemma_edges_touching(edges, p, m);
        let prev = edges_touching(edges, p, m);
        let list = edges_touching(edges, p, n);
        let id = EdgeId(m as u32);
        let t = touch_count(edges[m as int], p);
        assert(t <= 2);
        assert(t == 0 ==> list == prev);
        assert(t == 1 ==> list == prev.push(id));
        assert(t == 2 ==> list == prev.push(id).push(id));
        assert forall|i: int| 0 <= i < list.len() implies (#[trigger] list[i]).0 < n by {
            if i < prev.len() {
                assert(list[i] == prev[i]);
            }
        }
        assert forall|i: int, j: int| 0 <= i < j < list.len() implies (#[trigger] list[i]).0 <= (
        #[trigger] list[j]).0 by {
            if j < prev.len() {
                assert(list[i] == prev[i] && list[j] == prev[j]);
            } else if i < prev.len() {
                assert(list[i] == prev[i]);
            }
        }
        assert forall|e: int| 0 <= e < n implies (list.contains(EdgeId(e as u32)) <==> touch_count(
            #[trigger] edges[e],
            p,
        ) > 0) by {
            let x = EdgeId(e as u32);
            if list.contains(x) {
                let i = choose|i: int| 0 <= i < list.len() && list[i] == x;
                if i < prev.len() {
                    assert(prev[i] == x);
                    assert(prev.contains(x));
                } else {
                    assert(x == id);
                }
            }
            if e < m {
                if prev.contains(x) {
                    let i = choose|i: int| 0 <= i < prev.len() && prev[i] == x;
                    assert(list[i] == x);
                }
            } else if t > 0 {
                assert(list[prev.len() as int] == id);
            }
        }
    }
}

proof fn lemma_parent_link(edges: Seq<EdgeView>, node: NodeId, n: nat)
    requires
        n <= edges.len() <= u32::MAX,
    ensures
        parent_link(edges, node, n) matches Some(x) ==> x.0 < n && link_into(edges[x.0 as int], node),
        forall|e: int| 0 <= e < n && link_into(#[trigger] edges[e], node) ==> parent_link(edges, node, n) is Some,
    decreases n,
{
    if n > 0 {
        lemma_parent_link(edges, node, (n - 1) as nat);
    }
}

/// The adjacency indices of a well-formed graph in which every node has at
/// most one parent: identifiers are positions; the parent of node `n` is
/// edge `e` exactly when `e` is an anchor into `n`; the children of `n` are
/// exactly the anchors out of `n`, in edge order; and the edges of property
/// `p` are exactly the edges that touch `p`, in edge order.
pub proof fn lemma_adjacency(g: Graph)
    requires
        g.wf(),
        single_parent(edge_views(g.edges@)),
    ensures
        forall|i: int| 0 <= i < g.nodes@.len() ==> (#[trigger] g.nodes@[i]).id == NodeId(i as u32),
        forall|i: int| 0 <= i < g.properties@.len() ==> (#[trigger] g.properties@[i]).id == PropId(i as u32),
        forall|i: int| 0 <= i < g.derivations@.len() ==> (#[trigger] g.derivations@[i]).id.0 == i,
        forall|i: int| 0 <= i < g.domains@.len() ==> (#[trigger] g.domains@[i]).id.0 == i,
        forall|n: int, e: int|
            0 <= n < g.nodes@.len() && 0 <= e < g.edges@.len() ==> (#[trigger] g.node_parent@[n]
                == Some(EdgeId(e as u32)) <==> link_into(#[trigger] g.edges@[e]@, NodeId(n as u32))),
        forall|n: int|
            0 <= n < g.nodes@.len() ==> (#[trigger] g.node_parent@[n] matches Some(x) ==> x.0
                < g.edges@.len()),
        forall|n: int|
            0 <= n < g.nodes@.len() ==> ordered_below(#[trigger] g.node_children@[n]@, g.edges@.len(), true),
        forall|n: int, e: int|
            0 <= n < g.nodes@.len() && 0 <= e < g.edges@.len() ==> ((#[trigger] g.node_children@[n]@).contains(
                EdgeId(e as u32),
            ) <==> link_from(#[trigger] g.edges@[e]@, NodeId(n as u32))),
        forall|p: int|
            0 <= p < g.properties@.len() ==> ordered_below(#[trigger] g.prop_edges@[p]@, g.edges@.len(), false),
        forall|p: int, e: int|
            0 <= p < g.properties@.len() && 0 <= e < g.edges@.len() ==> ((#[trigger] g.prop_edges@[p]@).contains(
                EdgeId(e as u32),
            ) <==> touch_count(#[trigger] g.edges@[e]@, PropId(p as u32)) > 0),
{
    let edges = edge_views(g.edges@);
    let ne = edges.len();
    assert forall|i: int| 0 <= i < g.nodes@.len() implies (#[trigger] g.nodes@[i]).id == NodeId(i as u32) by {
        assert(node_views(g.nodes@)[i] == g.nodes@[i]@);
    }
    assert forall|i: int| 0 <= i < g.properties@.len() implies (#[trigger] g.properties@[i]).id == PropId(i as u32) by {
        assert(prop_views(g.properties@)[i] == g.properties@[i]@);
    }
    assert forall|i: int| 0 <= i < g.derivations@.len() implies (#[trigger] g.derivations@[i]).id.0 == i by {
        assert(deriv_views(g.derivations@)[i] == g.derivations@[i]@);
    }
    assert forall|i: int| 0 <= i < g.domains@.len() implies (#[trigger] g.domains@[i]).id.0 == i by {
        assert(domain_views(g.domains@)[i] == g.domains@[i]@);
    }
    assert forall|n: int, e: int|
        0 <= n < g.nodes@.len() && 0 <= e < g.edges@.len() implies (#[trigger] g.node_parent@[n]
            == Some(EdgeId(e as u32)) <==> link_into(#[trigger] g.edges@[e]@, NodeId(n as u32))) by {
        let node = NodeId(n as u32);
        lemma_parent_link(edges, node, ne);
        assert(edges[e] == g.edges@[e]@);
        if let Some(x) = parent_link(edges, node, ne) {
            if link_into(edges[e], node) && x.0 != e {
                if x.0 < e {
                    assert(edges[x.0 as int] is Link && edges[e] is Link);
                } else {
                    assert(edges[e] is Link && edges[x.0 as int] is Link);
                }
            }
        }
    }
    assert forall|n: int| 0 <= n < g.nodes@.len() implies (#[trigger] g.node_parent@[n] matches Some(x)
        ==> x.0 < g.edges@.len()) by {
        lemma_parent_link(edges, NodeId(n as u32), ne);
    }
    assert forall|n: int| 0 <= n < g.nodes@.len() implies ordered_below(
        #[trigger] g.node_children@[n]@,
        g.edges@.len(),
        true,
    ) by {
        lemma_child_links(edges, NodeId(n as u32), ne);
    }
    assert forall|n: int, e: int|
        0 <= n < g.nodes@.len() && 0 <= e < g.edges@.len() implies ((#[trigger] g.node_children@[n]@).contains(
            EdgeId(e as u32),
        ) <==> link_from(#[trigger] g.edges@[e]@, NodeId(n as u32))) by {
        lemma_child_links(edges, NodeId(n as u32), ne);
        assert(edges[e] == g.edges@[e]@);
    }
    assert forall|p: int| 0 <= p < g.properties@.len() implies ordered_below(
        #[trigger] g.prop_edges@[p]@,
        g.edges@.len(),
        false,
    ) by {
        lemma_edges_touching(edges, PropId(p as u32), ne);
    }
    assert forall|p: int, e: int|
        0 <= p < g.properties@.len() && 0 <= e < g.edges@.len() implies ((#[trigger] g.prop_edges@[p]@).contains(
            EdgeId(e as u32),
        ) <==> touch_count(#[trigger] g.edges@[e]@, PropId(p as u32)) > 0) by {
        lemma_edges_touching(edges, PropId(p as u32), ne);
        assert(edges[e] == g.edges@[e]@);
    }
}

} // verus!
