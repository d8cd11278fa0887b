//! The validated graph: nodes, properties, derivations, edges and domains,
//! each numbered by its position, with port-level adjacency indices.
use vstd::prelude::*;

verus! {

/// Index of a node in `Graph::nodes`.
#[derive(Clone, Copy, Debug, PartialEq, Eq, Hash, Structural)]
pub struct NodeId(pub u32);

/// Index of a property in `Graph::properties`.
#[derive(Clone, Copy, Debug, PartialEq, Eq, Hash, Structural)]
pub struct PropId(pub u32);

/// Index of a derivation in `Graph::derivations`.
#[derive(Clone, Copy, Debug, PartialEq, Eq, Hash, Structural)]
pub struct DerivId(pub u32);

/// Index of an edge in `Graph::edges`.
#[derive(Clone, Copy, Debug, PartialEq, Eq, Hash, Structural)]
pub struct EdgeId(pub u32);

/// Index of a domain in `Graph::domains`.
#[derive(Clone, Copy, Debug, PartialEq, Eq, Hash, Structural)]
pub struct DomainId(pub u32);

impl NodeId {
    pub fn index(&self) -> (r: usize)
        ensures
            r == self.0,
    {
        self.0 as usize
    }
}

impl PropId {
    pub fn index(&self) -> (r: usize)
        ensures
            r == self.0,
    {
        self.0 as usize
    }
}

impl DerivId {
    pub fn index(&self) -> (r: usize)
        ensures
            r == self.0,
    {
        self.0 as usize
    }
}

impl EdgeId {
    pub fn index(&self) -> (r: usize)
        ensures
            r == self.0,
    {
        self.0 as usize
    }
}

impl DomainId {
    pub fn index(&self) -> (r: usize)
        ensures
            r == self.0,
    {
        self.0 as usize
    }
}

/// How a property takes part in the trust of its node.
#[derive(Clone, Copy, Debug, PartialEq, Eq, Structural)]
pub enum TrustClass {
    /// Gates the node's verified state until constrained.
    Critical,
    /// Pre-satisfied by annotation.
    Constrained,
    /// Always trusted; never gates the node.
    Always,
}

#[derive(Debug)]
pub struct Node {
    pub id: NodeId,
    pub ident: String,
    pub display_name: Option<String>,
    /// Declared properties of the node, in declaration order.
    pub properties: Vec<PropId>,
    pub domain: Option<DomainId>,
    pub is_root: bool,
    pub is_selected: bool,
}

/// The text of an optional string.
pub open spec fn opt_view(o: Option<String>) -> Option<Seq<char>> {
    match o {
        Some(s) => Some(s@),
        None => None,
    }
}

pub struct NodeView {
    pub id: NodeId,
    pub ident: Seq<char>,
    pub display_name: Option<Seq<char>>,
    pub properties: Seq<PropId>,
    pub domain: Option<DomainId>,
    pub is_root: bool,
    pub is_selected: bool,
}

impl View for Node {
    type V = NodeView;

    open spec fn view(&self) -> NodeView {
        NodeView {
            id: self.id,
            ident: self.ident@,
            display_name: opt_view(self.display_name),
            properties: self.properties@,
            domain: self.domain,
            is_root: self.is_root,
            is_selected: self.is_selected,
        }
    }
}

#[derive(Debug)]
pub struct Property {
    pub id: PropId,
    /// The node that owns the property (for a derivation output: the node
    /// it is drawn next to).
    pub node: NodeId,
    pub name: String,
    pub trust: TrustClass,
}

pub struct PropertyView {
    pub id: PropId,
    pub node: NodeId,
    pub name: Seq<char>,
    pub trust: TrustClass,
}

impl View for Property {
    type V = PropertyView;

    open spec fn view(&self) -> PropertyView {
        PropertyView { id: self.id, node: self.node, name: self.name@, trust: self.trust }
    }
}

#[derive(Debug)]
pub struct Derivation {
    pub id: DerivId,
    pub operation: String,
    pub inputs: Vec<PropId>,
    pub output_prop: PropId,
}

pub struct DerivationView {
    pub id: DerivId,
    pub operation: Seq<char>,
    pub inputs: Seq<PropId>,
    pub output_prop: PropId,
}

impl View for Derivation {
    type V = DerivationView;

    open spec fn view(&self) -> DerivationView {
        DerivationView {
            id: self.id,
            operation: self.operation@,
            inputs: self.inputs@,
            output_prop: self.output_prop,
        }
    }
}

#[derive(Debug)]
pub enum Edge {
    /// Anchor of `child` to `parent`.
    Link { child: NodeId, parent: NodeId, operation: Option<String> },
    /// Input `source_prop` of derivation `target_deriv`.
    DerivInput { source_prop: PropId, target_deriv: DerivId },
    /// `dest_prop` is constrained by `source_prop`.
    Constraint { dest_prop: PropId, source_prop: PropId, operation: Option<String> },
}

pub enum EdgeView {
    Link { child: NodeId, parent: NodeId, operation: Option<Seq<char>> },
    DerivInput { source_prop: PropId, target_deriv: DerivId },
    Constraint { dest_prop: PropId, source_prop: PropId, operation: Option<Seq<char>> },
}

impl View for Edge {
    type V = EdgeView;

    open spec fn view(&self) -> EdgeView {
        match self {
            Edge::Link { child, parent, operation } => EdgeView::Link {
                child: *child,
                parent: *parent,
                operation: opt_view(*operation),
            },
            Edge::DerivInput { source_prop, target_deriv } => EdgeView::DerivInput {
                source_prop: *source_prop,
                target_deriv: *target_deriv,
            },
            Edge::Constraint { dest_prop, source_prop, operation } => EdgeView::Constraint {
                dest_prop: *dest_prop,
                source_prop: *source_prop,
                operation: opt_view(*operation),
            },
        }
    }
}

impl Edge {
    pub fn is_link(&self) -> (r: bool)
        ensures
            r == (self is Link),
    {
        match self {
            Edge::Link { .. } => true,
            _ => false,
        }
    }

    pub fn is_deriv_input(&self) -> (r: bool)
        ensures
            r == (self is DerivInput),
    {
        match self {
            Edge::DerivInput { .. } => true,
            _ => false,
        }
    }

    pub fn is_constraint(&self) -> (r: bool)
        ensures
            r == (self is Constraint),
    {
        match self {
            Edge::Constraint { .. } => true,
            _ => false,
        }
    }
}

#[derive(Debug)]
pub struct Domain {
    pub id: DomainId,
    pub display_name: String,
    /// Member nodes, in declaration order.
    pub members: Vec<NodeId>,
}

pub struct DomainView {
    pub id: DomainId,
    pub display_name: Seq<char>,
    pub members: Seq<NodeId>,
}

impl View for Domain {
    type V = DomainView;

    open spec fn view(&self) -> DomainView {
        DomainView { id: self.id, display_name: self.display_name@, members: self.members@ }
    }
}

/// The immutable graph produced by `build`.
#[derive(Debug)]
pub struct Graph {
    pub nodes: Vec<Node>,
    pub properties: Vec<Property>,
    pub derivations: Vec<Derivation>,
    pub edges: Vec<Edge>,
    pub domains: Vec<Domain>,
    /// For each property, the edges that touch it, in edge order.
    pub prop_edges: Vec<Vec<EdgeId>>,
    /// For each node, its outgoing anchor (link) edges, in edge order.
    pub node_children: Vec<Vec<EdgeId>>,
    /// For each node, its incoming anchor edge, if any.
    pub node_parent: Vec<Option<EdgeId>>,
}

pub open spec fn node_views(s: Seq<Node>) -> Seq<NodeView> {
    s.map_values(|n: Node| n@)
}

pub open spec fn prop_views(s: Seq<Property>) -> Seq<PropertyView> {
    s.map_values(|p: Property| p@)
}

pub open spec fn deriv_views(s: Seq<Derivation>) -> Seq<DerivationView> {
    s.map_values(|d: Derivation| d@)
}

pub open spec fn edge_views(s: Seq<Edge>) -> Seq<EdgeView> {
    s.map_values(|e: Edge| e@)
}

pub open spec fn domain_views(s: Seq<Domain>) -> Seq<DomainView> {
    s.map_values(|d: Domain| d@)
}

/// Whether edge `e` touches property `p`, counted once per endpoint: a
/// constraint touches its destination and its source, a derivation input
/// touches its source property.
pub open spec fn touch_count(e: EdgeView, p: PropId) -> nat {
    match e {
        EdgeView::Link { .. } => 0,
        EdgeView::DerivInput { source_prop, .. } => if source_prop == p {
            1
        } else {
            0
        },
        EdgeView::Constraint { dest_prop, source_prop, .. } => (if dest_prop == p {
            1nat
        } else {
            0nat
        }) + (if source_prop == p {
            1nat
        } else {
            0nat
        }),
    }
}

/// The edges among the first `n` that touch `p`, in order, an edge listed
/// once per endpoint at `p`.
pub open spec fn edges_touching(edges: Seq<EdgeView>, p: PropId, n: nat) -> Seq<EdgeId>
    decreases n,
{
    if n == 0 || n > edges.len() {
        Seq::empty()
    } else {
        let prev = edges_touching(edges, p, (n - 1) as nat);
        let id = EdgeId((n - 1) as u32);
        if touch_count(edges[n - 1], p) == 2 {
            prev.push(id).push(id)
        } else if touch_count(edges[n - 1], p) == 1 {
            prev.push(id)
        } else {
            prev
        }
    }
}

/// The link edges among the first `n` whose parent is `node`, in order.
pub open spec fn child_links(edges: Seq<EdgeView>, node: NodeId, n: nat) -> Seq<EdgeId>
    decreases n,
{
    if n == 0 || n > edges.len() {
        Seq::empty()
    } else {
        let prev = child_links(edges, node, (n - 1) as nat);
        match edges[n - 1] {
            EdgeView::Link { parent, .. } => if parent == node {
                prev.push(EdgeId((n - 1) as u32))
            } else {
                prev
            },
            _ => prev,
        }
    }
}

/// The first link edge among the first `n` whose child is `node`.
pub open spec fn parent_link(edges: Seq<EdgeView>, node: NodeId, n: nat) -> Option<EdgeId>
    decreases n,
{
    if n == 0 || n > edges.len() {
        None
    } else {
        match parent_link(edges, node, (n - 1) as nat) {
            Some(e) => Some(e),
            None => match edges[n - 1] {
                EdgeView::Link { child, .. } => if child == node {
                    Some(EdgeId((n - 1) as u32))
                } else {
                    None
                },
                _ => None,
            },
        }
    }
}

/// Every identifier in an edge names an existing element.
pub open spec fn edge_refs_valid(e: EdgeView, nn: nat, np: nat, nd: nat) -> bool {
    match e {
        EdgeView::Link { child, parent, .. } => child.0 < nn && parent.0 < nn,
        EdgeView::DerivInput { source_prop, target_deriv } => source_prop.0 < np && target_deriv.0
            < nd,
        EdgeView::Constraint { dest_prop, source_prop, .. } => dest_prop.0 < np && source_prop.0
            < np,
    }
}

/// Each element's identifier is its position, every identifier names an
/// existing element, and each node lists only its own properties.
pub open spec fn refs_wf(
    nodes: Seq<NodeView>,
    props: Seq<PropertyView>,
    derivs: Seq<DerivationView>,
    edges: Seq<EdgeView>,
) -> bool {
    &&& nodes.len() <= u32::MAX
    &&& props.len() <= u32::MAX
    &&& derivs.len() <= u32::MAX
    &&& edges.len() <= u32::MAX
    &&& forall|i: int| 0 <= i < nodes.len() ==> (#[trigger] nodes[i]).id == NodeId(i as u32)
    &&& forall|i: int, j: int|
        0 <= i < nodes.len() && 0 <= j < nodes[i].properties.len() ==> {
            let p = #[trigger] nodes[i].properties[j];
            p.0 < props.len() && props[p.0 as int].node == NodeId(i as u32)
        }
    &&& forall|p: int|
        0 <= p < props.len() ==> (#[trigger] props[p]).id == PropId(p as u32) && props[p].node.0
            < nodes.len()
    &&& forall|d: int|
        0 <= d < derivs.len() ==> (#[trigger] derivs[d]).id == DerivId(d as u32)
            && derivs[d].output_prop.0 < props.len()
    &&& forall|d: int, k: int|
        0 <= d < derivs.len() && 0 <= k < derivs[d].inputs.len() ==> (#[trigger] derivs[d].inputs[k]).0
            < props.len()
    &&& forall|e: int|
        0 <= e < edges.len() ==> edge_refs_valid(
            #[trigger] edges[e],
            nodes.len(),
            props.len(),
            derivs.len(),
        )
}

/// No two link edges have the same child: every node has at most one parent.
pub open spec fn single_parent(edges: Seq<EdgeView>) -> bool {
    forall|i: int, j: int|
        0 <= i < j < edges.len() && (#[trigger] edges[i]) is Link && (#[trigger] edges[j]) is Link
            ==> edges[i]->child != edges[j]->child
}

/// Each domain's identifier is its position and its members exist.
pub open spec fn domains_wf(domains: Seq<DomainView>, nn: nat) -> bool {
    &&& domains.len() <= u32::MAX
    &&& forall|d: int| 0 <= d < domains.len() ==> (#[trigger] domains[d]).id == DomainId(d as u32)
    &&& forall|d: int, m: int|
        0 <= d < domains.len() && 0 <= m < domains[d].members.len() ==> (
        #[trigger] domains[d].members[m]).0 < nn
}

impl Graph {
    /// Identifiers are positions and name existing elements, and the
    /// adjacency indices agree with the edges.
    pub open spec fn wf(&self) -> bool {
        &&& refs_wf(
            node_views(self.nodes@),
            prop_views(self.properties@),
            deriv_views(self.derivations@),
            edge_views(self.edges@),
        )
        &&& domains_wf(domain_views(self.domains@), self.nodes@.len())
        &&& self.indices_agree()
    }

    /// The adjacency indices agree with the edge list.
    pub open spec fn indices_agree(&self) -> bool {
        let edges = edge_views(self.edges@);
        &&& self.prop_edges@.len() == self.properties@.len()
        &&& self.node_children@.len() == self.nodes@.len()
        &&& self.node_parent@.len() == self.nodes@.len()
        &&& forall|p: int|
            0 <= p < self.prop_edges@.len() ==> #[trigger] self.prop_edges@[p]@ == edges_touching(
                edges,
                PropId(p as u32),
                edges.len(),
            )
        &&& forall|n: int|
            0 <= n < self.node_children@.len() ==> #[trigger] self.node_children@[n]@
                == child_links(edges, NodeId(n as u32), edges.len())
        &&& forall|n: int|
            0 <= n < self.node_parent@.len() ==> #[trigger] self.node_parent@[n] == parent_link(
                edges,
                NodeId(n as u32),
                edges.len(),
            )
    }

    /// The link edges whose parent is `node` (empty for an unknown node).
    pub fn children_of(&self, node: NodeId) -> (r: &[EdgeId])
        ensures
            node.0 < self.node_children@.len() ==> r@ == self.node_children@[node.0 as int]@,
            node.0 >= self.node_children@.len() ==> r@.len() == 0,
    {
        let i = node.index();
        if i < self.node_children.len() {
            self.node_children[i].as_slice()
        } else {
            &[]
        }
    }

    /// The edges that touch property `prop` (empty for an unknown property).
    pub fn edges_on_prop(&self, prop: PropId) -> (r: &[EdgeId])
        ensures
            prop.0 < self.prop_edges@.len() ==> r@ == self.prop_edges@[prop.0 as int]@,
            prop.0 >= self.prop_edges@.len() ==> r@.len() == 0,
    {
        let i = prop.index();
        if i < self.prop_edges.len() {
            self.prop_edges[i].as_slice()
        } else {
            &[]
        }
    }

    /// The incoming anchor edge of `node`, if any.
    pub fn parent_of(&self, node: NodeId) -> (r: Option<EdgeId>)
        ensures
            node.0 < self.node_parent@.len() ==> r == self.node_parent@[node.0 as int],
            node.0 >= self.node_parent@.len() ==> r is None,
    {
        let i = node.index();
        if i < self.node_parent.len() {
            self.node_parent[i]
        } else {
            None
        }
    }
}

} // verus!
