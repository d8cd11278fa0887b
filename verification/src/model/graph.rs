//! Graph construction from the syntax tree.
//!
//! Domains and their member nodes are allocated first, in order, then the
//! top-level nodes; each node's properties follow it. Links come next, then
//! constraints, whose derivation expressions are allocated on first use and
//! shared by every later occurrence of the same expression.
use vstd::prelude::*;

use crate::ast::{
    AstConstraint, AstDerivationExpr, AstDomain, AstGraph, AstLink, AstNode, AstProperty,
    AstSourceExpr, AstTrustAnnotation, DerivView, deriv_eq, deriv_view, source_view,
};
use crate::error::{GraphError, ObgraphError, error_message, error_text, validation_error_of};
use crate::model::types::{
    DerivId, Derivation, DerivationView, Domain, DomainId, DomainView, Edge, EdgeId, EdgeView,
    Graph, Node, NodeId, NodeView, PropId, Property, PropertyView, TrustClass, child_links,
    deriv_views, domain_views, domains_wf, edge_views, edges_touching, node_views, opt_view,
    parent_link, prop_views, refs_wf, single_parent,
};
use crate::model::validate::{check_rules, graph_validation_error, validation_error};
use crate::text::{decimal, push_decimal};

verus! {

// ---------------------------------------------------------------------------
// The state of construction, as mathematical values
// ---------------------------------------------------------------------------

/// What construction has allocated so far. `keys[d]` is the expression that
/// derivation `d` was allocated for.
#[verifier::ext_equal]
pub struct BuildState {
    pub nodes: Seq<NodeView>,
    pub properties: Seq<PropertyView>,
    pub derivations: Seq<DerivationView>,
    pub keys: Seq<DerivView>,
    pub edges: Seq<EdgeView>,
    pub domains: Seq<DomainView>,
}

pub open spec fn empty_state() -> BuildState {
    BuildState {
        nodes: Seq::empty(),
        properties: Seq::empty(),
        derivations: Seq::empty(),
        keys: Seq::empty(),
        edges: Seq::empty(),
        domains: Seq::empty(),
    }
}

/// A count of elements that a 32-bit identifier can still number.
pub open spec fn has_room(len: nat) -> bool {
    len < u32::MAX
}

pub open spec fn trust_class_of(ann: AstTrustAnnotation) -> TrustClass {
    match ann {
        AstTrustAnnotation::Default => TrustClass::Critical,
        AstTrustAnnotation::Constrained => TrustClass::Constrained,
        AstTrustAnnotation::Always => TrustClass::Always,
    }
}

/// The first of the first `n` nodes with identifier `ident`.
pub open spec fn lookup_node(nodes: Seq<NodeView>, ident: Seq<char>, n: nat) -> Option<NodeId>
    decreases n,
{
    if n == 0 || n > nodes.len() {
        None
    } else {
        match lookup_node(nodes, ident, (n - 1) as nat) {
            Some(id) => Some(id),
            None => if nodes[n - 1].ident == ident {
                Some(NodeId((n - 1) as u32))
            } else {
                None
            },
        }
    }
}

pub open spec fn find_node(st: BuildState, ident: Seq<char>) -> Option<NodeId> {
    lookup_node(st.nodes, ident, st.nodes.len())
}

/// The first of the first `n` property ids in `ids` whose property is named
/// `name`.
pub open spec fn lookup_prop(props: Seq<PropertyView>, ids: Seq<PropId>, name: Seq<char>, n: nat) -> Option<PropId>
    decreases n,
{
    if n == 0 || n > ids.len() {
        None
    } else {
        match lookup_prop(props, ids, name, (n - 1) as nat) {
            Some(id) => Some(id),
            None => if ids[n - 1].0 < props.len() && props[ids[n - 1].0 as int].name == name {
                Some(ids[n - 1])
            } else {
                None
            },
        }
    }
}

/// The declared property `name` of the node with identifier `node`.
pub open spec fn find_prop(st: BuildState, node: Seq<char>, name: Seq<char>) -> Option<PropId> {
    match find_node(st, node) {
        None => None,
        Some(nid) => {
            let ids = st.nodes[nid.0 as int].properties;
            lookup_prop(st.properties, ids, name, ids.len())
        },
    }
}

/// The first of the first `n` derivation keys equal to `key`.
pub open spec fn find_key(keys: Seq<DerivView>, key: DerivView, n: nat) -> Option<nat>
    decreases n,
{
    if n == 0 || n > keys.len() {
        None
    } else {
        match find_key(keys, key, (n - 1) as nat) {
            Some(k) => Some(k),
            None => if keys[n - 1] == key {
                Some((n - 1) as nat)
            } else {
                None
            },
        }
    }
}

// ---------------------------------------------------------------------------
// Nodes, properties and domains
// ---------------------------------------------------------------------------

pub open spec fn alloc_node(st: BuildState, node: AstNode, domain: Option<DomainId>) -> Result<
    (BuildState, NodeId),
    GraphError,
> {
    if find_node(st, node.ident@) is Some {
        Err(GraphError::DuplicateNode { ident: node.ident })
    } else if !has_room(st.nodes.len()) {
        Err(GraphError::CapacityExceeded)
    } else {
        let id = NodeId(st.nodes.len() as u32);
        let view = NodeView {
            id,
            ident: node.ident@,
            display_name: opt_view(node.display_name),
            properties: Seq::empty(),
            domain,
            is_root: node.is_root,
            is_selected: node.is_selected,
        };
        Ok((BuildState { nodes: st.nodes.push(view), ..st }, id))
    }
}

pub open spec fn alloc_property(st: BuildState, nid: NodeId, node_ident: String, prop: AstProperty) -> Result<
    BuildState,
    GraphError,
> {
    let owner = st.nodes[nid.0 as int];
    if lookup_prop(st.properties, owner.properties, prop.name@, owner.properties.len()) is Some {
        Err(GraphError::DuplicateProperty { node: node_ident, prop: prop.name })
    } else if !has_room(st.properties.len()) {
        Err(GraphError::CapacityExceeded)
    } else {
        let id = PropId(st.properties.len() as u32);
        let p = PropertyView { id, node: nid, name: prop.name@, trust: trust_class_of(prop.trust) };
        Ok(
            BuildState {
                properties: st.properties.push(p),
                nodes: st.nodes.update(
                    nid.0 as int,
                    NodeView { properties: owner.properties.push(id), ..owner },
                ),
                ..st
            },
        )
    }
}

/// Allocates the first `n` properties of `node` on node `nid`.
pub open spec fn alloc_props(st: BuildState, nid: NodeId, node: AstNode, n: nat) -> Result<
    BuildState,
    GraphError,
>
    decreases n,
{
    if n == 0 || n > node.properties@.len() {
        Ok(st)
    } else {
        match alloc_props(st, nid, node, (n - 1) as nat) {
            Err(e) => Err(e),
            Ok(s) => alloc_property(s, nid, node.ident, node.properties@[n - 1]),
        }
    }
}

/// Allocates a node and all its properties.
pub open spec fn alloc_decl(st: BuildState, node: AstNode, domain: Option<DomainId>) -> Result<
    (BuildState, NodeId),
    GraphError,
> {
    match alloc_node(st, node, domain) {
        Err(e) => Err(e),
        Ok((s, nid)) => match alloc_props(s, nid, node, node.properties@.len()) {
            Err(e) => Err(e),
            Ok(s2) => Ok((s2, nid)),
        },
    }
}

/// Allocates the first `n` nodes of a domain; gives the ids of the members.
pub open spec fn alloc_members(st: BuildState, nodes: Seq<AstNode>, d: DomainId, n: nat) -> Result<
    (BuildState, Seq<NodeId>),
    GraphError,
>
    decreases n,
{
    if n == 0 || n > nodes.len() {
        Ok((st, Seq::empty()))
    } else {
        match alloc_members(st, nodes, d, (n - 1) as nat) {
            Err(e) => Err(e),
            Ok((s, ids)) => match alloc_decl(s, nodes[n - 1], Some(d)) {
                Err(e) => Err(e),
                Ok((s2, nid)) => Ok((s2, ids.push(nid))),
            },
        }
    }
}

pub open spec fn alloc_domain(st: BuildState, dom: AstDomain) -> Result<BuildState, GraphError> {
    if !has_room(st.domains.len()) {
        Err(GraphError::CapacityExceeded)
    } else {
        let did = DomainId(st.domains.len() as u32);
        match alloc_members(st, dom.nodes@, did, dom.nodes@.len()) {
            Err(e) => Err(e),
            Ok((s, members)) => Ok(
                BuildState {
                    domains: s.domains.push(
                        DomainView { id: did, display_name: dom.display_name@, members },
                    ),
                    ..s
                },
            ),
        }
    }
}

/// Allocates the first `n` domains with their members.
pub open spec fn alloc_domains(st: BuildState, doms: Seq<AstDomain>, n: nat) -> Result<
    BuildState,
    GraphError,
>
    decreases n,
{
    if n == 0 || n > doms.len() {
        Ok(st)
    } else {
        match alloc_domains(st, doms, (n - 1) as nat) {
            Err(e) => Err(e),
            Ok(s) => alloc_domain(s, doms[n - 1]),
        }
    }
}

/// Allocates the first `n` top-level nodes.
pub open spec fn alloc_top_nodes(st: BuildState, nodes: Seq<AstNode>, n: nat) -> Result<
    BuildState,
    GraphError,
>
    decreases n,
{
    if n == 0 || n > nodes.len() {
        Ok(st)
    } else {
        match alloc_top_nodes(st, nodes, (n - 1) as nat) {
            Err(e) => Err(e),
            Ok(s) => match alloc_decl(s, nodes[n - 1], None) {
                Err(e) => Err(e),
                Ok((s2, _)) => Ok(s2),
            },
        }
    }
}

// ---------------------------------------------------------------------------
// Links
// ---------------------------------------------------------------------------

/// The link edges so far with `child` as child: the first one, if any.
pub open spec fn has_parent(st: BuildState, child: NodeId) -> bool {
    parent_link(st.edges, child, st.edges.len()) is Some
}

pub open spec fn link_step(st: BuildState, link: AstLink) -> Result<BuildState, GraphError> {
    match find_node(st, link.child_ident@) {
        None => Err(GraphError::UnknownNode { ident: link.child_ident }),
        Some(child) => match find_node(st, link.parent_ident@) {
            None => Err(GraphError::UnknownNode { ident: link.parent_ident }),
            Some(parent) => if !has_room(st.edges.len()) {
                Err(GraphError::CapacityExceeded)
            } else if has_parent(st, child) {
                Err(GraphError::MultipleParents { ident: link.child_ident })
            } else {
                Ok(
                    BuildState {
                        edges: st.edges.push(
                            EdgeView::Link { child, parent, operation: opt_view(link.operation) },
                        ),
                        ..st
                    },
                )
            },
        },
    }
}

/// Processes the first `n` links.
pub open spec fn process_links(st: BuildState, links: Seq<AstLink>, n: nat) -> Result<
    BuildState,
    GraphError,
>
    decreases n,
{
    if n == 0 || n > links.len() {
        Ok(st)
    } else {
        match process_links(st, links, (n - 1) as nat) {
            Err(e) => Err(e),
            Ok(s) => link_step(s, links[n - 1]),
        }
    }
}

// ---------------------------------------------------------------------------
// Constraints and derivations
// ---------------------------------------------------------------------------

/// Name of the output property of derivation `d`.
pub open spec fn synth_name(d: DerivId) -> Seq<char> {
    "__deriv_"@ + decimal(d.0 as nat)
}

/// The input edges of derivation `d`, one per input, in order.
pub open spec fn input_edges(inputs: Seq<PropId>, d: DerivId) -> Seq<EdgeView> {
    Seq::new(inputs.len(), |i: int| EdgeView::DerivInput { source_prop: inputs[i], target_deriv: d })
}

/// Resolves a source expression to the property that carries its value,
/// allocating derivations on first use. `dest` is the node that a new
/// derivation output is attributed to.
pub open spec fn resolve_source(st: BuildState, src: AstSourceExpr, dest: NodeId) -> Result<
    (BuildState, PropId),
    GraphError,
>
    decreases src, 0nat,
{
    match src {
        AstSourceExpr::PropRef { node_ident, prop_name } => match find_prop(
            st,
            node_ident@,
            prop_name@,
        ) {
            Some(p) => Ok((st, p)),
            None => Err(GraphError::UnknownProperty { node: node_ident, prop: prop_name }),
        },
        AstSourceExpr::Derivation(d) => ensure_derivation(st, d, dest),
    }
}

/// The state after allocating derivation `expr` with the given inputs.
pub open spec fn add_derivation(st: BuildState, expr: AstDerivationExpr, dest: NodeId, inputs: Seq<PropId>) -> (BuildState, PropId) {
    let did = DerivId(st.derivations.len() as u32);
    let out = PropId(st.properties.len() as u32);
    let prop = PropertyView { id: out, node: dest, name: synth_name(did), trust: TrustClass::Always };
    (
        BuildState {
            properties: st.properties.push(prop),
            derivations: st.derivations.push(
                DerivationView { id: did, operation: expr.function@, inputs, output_prop: out },
            ),
            keys: st.keys.push(deriv_view(expr)),
            edges: st.edges + input_edges(inputs, did),
            ..st
        },
        out,
    )
}

pub open spec fn ensure_derivation(st: BuildState, expr: AstDerivationExpr, dest: NodeId) -> Result<
    (BuildState, PropId),
    GraphError,
>
    decreases expr, 0nat,
{
    match find_key(st.keys, deriv_view(expr), st.keys.len()) {
        Some(k) => Ok((st, st.derivations[k as int].output_prop)),
        None => match resolve_args(st, expr.args@, dest, expr.args@.len()) {
            Err(e) => Err(e),
            Ok((s, inputs)) => if !has_room(s.derivations.len()) || !has_room(s.properties.len())
                || !has_room(s.edges.len() + inputs.len()) {
                Err(GraphError::CapacityExceeded)
            } else {
                Ok(add_derivation(s, expr, dest, inputs))
            },
        },
    }
}

/// Resolves the first `n` arguments, left to right.
pub open spec fn resolve_args(st: BuildState, args: Seq<AstSourceExpr>, dest: NodeId, n: nat) -> Result<
    (BuildState, Seq<PropId>),
    GraphError,
>
    decreases args, n,
{
    if n == 0 || n > args.len() {
        Ok((st, Seq::empty()))
    } else {
        match resolve_args(st, args, dest, (n - 1) as nat) {
            Err(e) => Err(e),
            Ok((s, ins)) => match resolve_source(s, args[n - 1], dest) {
                Err(e) => Err(e),
                Ok((s2, p)) => Ok((s2, ins.push(p))),
            },
        }
    }
}

pub open spec fn constraint_step(st: BuildState, c: AstConstraint) -> Result<BuildState, GraphError> {
    match find_node(st, c.dest_node@) {
        None => Err(GraphError::UnknownNode { ident: c.dest_node }),
        Some(dest_node) => match find_prop(st, c.dest_node@, c.dest_prop@) {
            None => Err(GraphError::UnknownProperty { node: c.dest_node, prop: c.dest_prop }),
            Some(dest_prop) => match resolve_source(st, c.source, dest_node) {
                Err(e) => Err(e),
                Ok((s, source_prop)) => if !has_room(s.edges.len()) {
                    Err(GraphError::CapacityExceeded)
                } else {
                    Ok(
                        BuildState {
                            edges: s.edges.push(
                                EdgeView::Constraint {
                                    dest_prop,
                                    source_prop,
                                    operation: opt_view(c.operation),
                                },
                            ),
                            ..s
                        },
                    )
                },
            },
        },
    }
}

/// Processes the first `n` constraints.
pub open spec fn process_constraints(st: BuildState, cs: Seq<AstConstraint>, n: nat) -> Result<
    BuildState,
    GraphError,
>
    decreases n,
{
    if n == 0 || n > cs.len() {
        Ok(st)
    } else {
        match process_constraints(st, cs, (n - 1) as nat) {
            Err(e) => Err(e),
            Ok(s) => constraint_step(s, cs[n - 1]),
        }
    }
}

/// Everything that construction allocates for `ast`, or the first error it
/// meets, before validation.
pub open spec fn construct(ast: AstGraph) -> Result<BuildState, GraphError> {
    match alloc_domains(empty_state(), ast.domains@, ast.domains@.len()) {
        Err(e) => Err(e),
        Ok(s1) => match alloc_top_nodes(s1, ast.nodes@, ast.nodes@.len()) {
            Err(e) => Err(e),
            Ok(s2) => match process_links(s2, ast.links@, ast.links@.len()) {
                Err(e) => Err(e),
                Ok(s3) => process_constraints(s3, ast.constraints@, ast.constraints@.len()),
            },
        },
    }
}


// ---------------------------------------------------------------------------
// What a step leaves behind when it stops at an error
// ---------------------------------------------------------------------------

/// The state left by allocating the first `n` properties of `node`: up to
/// the first error, everything allocated before it stays.
pub open spec fn alloc_props_left(st: BuildState, nid: NodeId, node: AstNode, n: nat) -> BuildState
    decreases n,
{
    if n == 0 || n > node.properties@.len() {
        st
    } else {
        match alloc_props(st, nid, node, (n - 1) as nat) {
            Err(_) => alloc_props_left(st, nid, node, (n - 1) as nat),
            Ok(s) => match alloc_property(s, nid, node.ident, node.properties@[n - 1]) {
                Ok(s2) => s2,
                Err(_) => s,
            },
        }
    }
}

/// The state left by allocating a node and its properties.
pub open spec fn alloc_decl_left(st: BuildState, node: AstNode, domain: Option<DomainId>) -> BuildState {
    match alloc_node(st, node, domain) {
        Err(_) => st,
        Ok((s, nid)) => alloc_props_left(s, nid, node, node.properties@.len()),
    }
}

/// The state left by allocating the first `n` members of a domain.
pub open spec fn alloc_members_left(st: BuildState, nodes: Seq<AstNode>, d: DomainId, n: nat) -> BuildState
    decreases n,
{
    if n == 0 || n > nodes.len() {
        st
    } else {
        match alloc_members(st, nodes, d, (n - 1) as nat) {
            Err(_) => alloc_members_left(st, nodes, d, (n - 1) as nat),
            Ok((s, _)) => alloc_decl_left(s, nodes[n - 1], Some(d)),
        }
    }
}

/// The state left by allocating a domain with its members.
pub open spec fn alloc_domain_left(st: BuildState, dom: AstDomain) -> BuildState {
    match alloc_domain(st, dom) {
        Ok(s) => s,
        Err(_) => if !has_room(st.domains.len()) {
            st
        } else {
            alloc_members_left(st, dom.nodes@, DomainId(st.domains.len() as u32), dom.nodes@.len())
        },
    }
}

/// The state left by a link: a second anchor into a node is recorded before
/// it is refused.
pub open spec fn link_step_left(st: BuildState, link: AstLink) -> BuildState {
    match link_step(st, link) {
        Ok(s) => s,
        Err(_) => match (find_node(st, link.child_ident@), find_node(st, link.parent_ident@)) {
            (Some(child), Some(parent)) => if has_room(st.edges.len()) && has_parent(st, child) {
                BuildState {
                    edges: st.edges.push(
                        EdgeView::Link { child, parent, operation: opt_view(link.operation) },
                    ),
                    ..st
                }
            } else {
                st
            },
            _ => st,
        },
    }
}

/// The state left by resolving a source expression: when an argument fails,
/// what the arguments before it allocated stays, and nothing is allocated
/// for the expressions that contain it.
pub open spec fn resolve_source_left(st: BuildState, src: AstSourceExpr, dest: NodeId) -> BuildState
    decreases src, 0nat,
{
    match src {
        AstSourceExpr::PropRef { .. } => st,
        AstSourceExpr::Derivation(d) => ensure_derivation_left(st, d, dest),
    }
}

pub open spec fn ensure_derivation_left(st: BuildState, expr: AstDerivationExpr, dest: NodeId) -> BuildState
    decreases expr, 0nat,
{
    match find_key(st.keys, deriv_view(expr), st.keys.len()) {
        Some(_) => st,
        None => match resolve_args(st, expr.args@, dest, expr.args@.len()) {
            Err(_) => resolve_args_left(st, expr.args@, dest, expr.args@.len()),
            Ok((s, inputs)) => if !has_room(s.derivations.len()) || !has_room(s.properties.len())
                || !has_room(s.edges.len() + inputs.len()) {
                s
            } else {
                add_derivation(s, expr, dest, inputs).0
            },
        },
    }
}

pub open spec fn resolve_args_left(st: BuildState, args: Seq<AstSourceExpr>, dest: NodeId, n: nat) -> BuildState
    decreases args, n,
{
    if n == 0 || n > args.len() {
        st
    } else {
        match resolve_args(st, args, dest, (n - 1) as nat) {
            Err(_) => resolve_args_left(st, args, dest, (n - 1) as nat),
            Ok((s, _)) => resolve_source_left(s, args[n - 1], dest),
        }
    }
}

/// The state left by a constraint.
pub open spec fn constraint_step_left(st: BuildState, c: AstConstraint) -> BuildState {
    match constraint_step(st, c) {
        Ok(s) => s,
        Err(_) => match find_node(st, c.dest_node@) {
            None => st,
            Some(dest_node) => match find_prop(st, c.dest_node@, c.dest_prop@) {
                None => st,
                Some(_) => match resolve_source(st, c.source, dest_node) {
                    Err(_) => resolve_source_left(st, c.source, dest_node),
                    Ok((s, _)) => s,
                },
            },
        },
    }
}

// ---------------------------------------------------------------------------
// Lemmas on the first-match lookups and on error propagation
// ---------------------------------------------------------------------------

proof fn lemma_lookup_node_stable(nodes: Seq<NodeView>, ident: Seq<char>, m: nat, n: nat)
    requires
        m <= n <= nodes.len(),
        lookup_node(nodes, ident, m) is Some,
    ensures
        lookup_node(nodes, ident, n) == lookup_node(nodes, ident, m),
    decreases n,
{
    if n > m {
        lemma_lookup_node_stable(nodes, ident, m, (n - 1) as nat);
    }
}

proof fn lemma_lookup_prop_stable(
    props: Seq<PropertyView>,
    ids: Seq<PropId>,
    name: Seq<char>,
    m: nat,
    n: nat,
)
    requires
        m <= n <= ids.len(),
        lookup_prop(props, ids, name, m) is Some,
    ensures
        lookup_prop(props, ids, name, n) == lookup_prop(props, ids, name, m),
    decreases n,
{
    if n > m {
        lemma_lookup_prop_stable(props, ids, name, m, (n - 1) as nat);
    }
}

pub proof fn lemma_find_key_stable(keys: Seq<DerivView>, key: DerivView, m: nat, n: nat)
    requires
        m <= n <= keys.len(),
        find_key(keys, key, m) is Some,
    ensures
        find_key(keys, key, n) == find_key(keys, key, m),
    decreases n,
{
    if n > m {
        lemma_find_key_stable(keys, key, m, (n - 1) as nat);
    }
}

proof fn lemma_parent_link_stable(edges: Seq<EdgeView>, node: NodeId, m: nat, n: nat)
    requires
        m <= n <= edges.len(),
        parent_link(edges, node, m) is Some,
    ensures
        parent_link(edges, node, n)
            == parent_link(edges, node, m),
    decreases n,
{
    if n > m {
        lemma_parent_link_stable(edges, node, m, (n - 1) as nat);
    }
}

proof fn lemma_alloc_props_err(st: BuildState, nid: NodeId, node: AstNode, m: nat, n: nat)
    requires
        m <= n <= node.properties@.len(),
        alloc_props(st, nid, node, m) is Err,
    ensures
        alloc_props(st, nid, node, n) == alloc_props(st, nid, node, m),
        alloc_props_left(st, nid, node, n) == alloc_props_left(st, nid, node, m),
    decreases n,
{
    if n > m {
        lemma_alloc_props_err(st, nid, node, m, (n - 1) as nat);
    }
}

proof fn lemma_alloc_members_err(st: BuildState, nodes: Seq<AstNode>, d: DomainId, m: nat, n: nat)
    requires
        m <= n <= nodes.len(),
        alloc_members(st, nodes, d, m) is Err,
    ensures
        alloc_members(st, nodes, d, n) == alloc_members(st, nodes, d, m),
        alloc_members_left(st, nodes, d, n) == alloc_members_left(st, nodes, d, m),
    decreases n,
{
    if n > m {
        lemma_alloc_members_err(st, nodes, d, m, (n - 1) as nat);
    }
}

proof fn lemma_alloc_domains_err(st: BuildState, doms: Seq<AstDomain>, m: nat, n: nat)
    requires
        m <= n <= doms.len(),
        alloc_domains(st, doms, m) is Err,
    ensures
        alloc_domains(st, doms, n) == alloc_domains(st, doms, m),
    decreases n,
{
    if n > m {
        lemma_alloc_domains_err(st, doms, m, (n - 1) as nat);
    }
}

proof fn lemma_alloc_top_nodes_err(st: BuildState, nodes: Seq<AstNode>, m: nat, n: nat)
    requires
        m <= n <= nodes.len(),
        alloc_top_nodes(st, nodes, m) is Err,
    ensures
        alloc_top_nodes(st, nodes, n) == alloc_top_nodes(st, nodes, m),
    decreases n,
{
    if n > m {
        lemma_alloc_top_nodes_err(st, nodes, m, (n - 1) as nat);
    }
}

proof fn lemma_process_links_err(st: BuildState, links: Seq<AstLink>, m: nat, n: nat)
    requires
        m <= n <= links.len(),
        process_links(st, links, m) is Err,
    ensures
        process_links(st, links, n) == process_links(st, links, m),
    decreases n,
{
    if n > m {
        lemma_process_links_err(st, links, m, (n - 1) as nat);
    }
}

proof fn lemma_process_constraints_err(st: BuildState, cs: Seq<AstConstraint>, m: nat, n: nat)
    requires
        m <= n <= cs.len(),
        process_constraints(st, cs, m) is Err,
    ensures
        process_constraints(st, cs, n) == process_constraints(st, cs, m),
    decreases n,
{
    if n > m {
        lemma_process_constraints_err(st, cs, m, (n - 1) as nat);
    }
}

proof fn lemma_resolve_args_err(
    st: BuildState,
    args: Seq<AstSourceExpr>,
    dest: NodeId,
    m: nat,
    n: nat,
)
    requires
        m <= n <= args.len(),
        resolve_args(st, args, dest, m) is Err,
    ensures
        resolve_args(st, args, dest, n) == resolve_args(st, args, dest, m),
        resolve_args_left(st, args, dest, n) == resolve_args_left(st, args, dest, m),
    decreases n,
{
    if n > m {
        lemma_resolve_args_err(st, args, dest, m, (n - 1) as nat);
    }
}

// ---------------------------------------------------------------------------
// The builder
// ---------------------------------------------------------------------------

fn clone_opt(o: &Option<String>) -> (r: Option<String>)
    ensures
        r == *o,
{
    match o {
        Some(s) => Some(s.clone()),
        None => None,
    }
}

fn trust_class_from(ann: AstTrustAnnotation) -> (r: TrustClass)
    ensures
        r == trust_class_of(ann),
{
    match ann {
        AstTrustAnnotation::Default => TrustClass::Critical,
        AstTrustAnnotation::Constrained => TrustClass::Constrained,
        AstTrustAnnotation::Always => TrustClass::Always,
    }
}

struct Builder<'a> {
    nodes: Vec<Node>,
    properties: Vec<Property>,
    derivations: Vec<Derivation>,
    keys: Vec<&'a AstDerivationExpr>,
    edges: Vec<Edge>,
    domains: Vec<Domain>,
}

impl<'a> Builder<'a> {
    spec fn state(&self) -> BuildState {
        BuildState {
            nodes: node_views(self.nodes@),
            properties: prop_views(self.properties@),
            derivations: deriv_views(self.derivations@),
            keys: self.keys@.map_values(|k: &AstDerivationExpr| deriv_view(*k)),
            edges: edge_views(self.edges@),
            domains: domain_views(self.domains@),
        }
    }

    spec fn wf(&self) -> bool {
        &&& self.keys@.len() == self.derivations@.len()
        &&& self.nodes@.len() <= u32::MAX
        &&& self.properties@.len() <= u32::MAX
        &&& self.derivations@.len() <= u32::MAX
        &&& self.edges@.len() <= u32::MAX
        &&& self.domains@.len() <= u32::MAX
    }

    fn new() -> (b: Self)
        ensures
            b.wf(),
            b.state() == empty_state(),
    {
        let b = Builder {
            nodes: Vec::new(),
            properties: Vec::new(),
            derivations: Vec::new(),
            keys: Vec::new(),
            edges: Vec::new(),
            domains: Vec::new(),
        };
        assert(b.state() =~= empty_state());
        b
    }

    fn find_node(&self, ident: &String) -> (r: Option<NodeId>)
        requires
            self.wf(),
        ensures
            r == find_node(self.state(), ident@),
    {
        let ghost nodes = self.state().nodes;
        let mut i: usize = 0;
        while i < self.nodes.len()
            invariant
                self.wf(),
                nodes == self.state().nodes,
                i <= self.nodes@.len(),
                lookup_node(nodes, ident@, i as nat) is None,
            decreases self.nodes@.len() - i,
        {
            if self.nodes[i].ident == *ident {
                proof {
                    assert(nodes[i as int] == self.nodes@[i as int]@);
                    assert(lookup_node(nodes, ident@, (i + 1) as nat) == Some(NodeId(i as u32)));
                    lemma_lookup_node_stable(nodes, ident@, (i + 1) as nat, nodes.len());
                }
                return Some(NodeId(i as u32));
            }
            proof {
                assert(nodes[i as int] == self.nodes@[i as int]@);
            }
            i = i + 1;
        }
        None
    }

    /// The declared property `name` of node `nid`, if any.
    fn lookup_prop(&self, nid: NodeId, name: &String) -> (r: Option<PropId>)
        requires
            self.wf(),
            nid.0 < self.nodes@.len(),
        ensures
            r == lookup_prop(
                self.state().properties,
                self.state().nodes[nid.0 as int].properties,
                name@,
                self.state().nodes[nid.0 as int].properties.len(),
            ),
    {
        let ghost props = self.state().properties;
        let ghost ids = self.state().nodes[nid.0 as int].properties;
        let node = &self.nodes[nid.index()];
        assert(self.state().nodes[nid.0 as int] == self.nodes@[nid.0 as int]@);
        assert(ids == node.properties@);
        let mut j: usize = 0;
        while j < node.properties.len()
            invariant
                self.wf(),
                props == self.state().properties,
                nid.0 < self.nodes@.len(),
                ids == self.state().nodes[nid.0 as int].properties,
                ids == node.properties@,
                j <= ids.len(),
                lookup_prop(props, ids, name@, j as nat) is None,
            decreases ids.len() - j,
        {
            let pid = node.properties[j];
            if pid.index() < self.properties.len() && self.properties[pid.index()].name == *name {
                proof {
                    assert(props[pid.0 as int] == self.properties@[pid.0 as int]@);
                    assert(ids[j as int] == pid);
                    assert(lookup_prop(props, ids, name@, (j + 1) as nat) == Some(pid));
                    lemma_lookup_prop_stable(props, ids, name@, (j + 1) as nat, ids.len());
                }
                return Some(pid);
            }
            proof {
                if pid.0 < props.len() {
                    assert(props[pid.0 as int] == self.properties@[pid.0 as int]@);
                }
            }
            j = j + 1;
        }
        None
    }

    fn find_prop(&self, node_ident: &String, name: &String) -> (r: Option<PropId>)
        requires
            self.wf(),
        ensures
            r == find_prop(self.state(), node_ident@, name@),
    {
        match self.find_node(node_ident) {
            None => None,
            Some(nid) => {
                proof {
                    assert(nid.0 < self.nodes@.len()) by {
                        lemma_lookup_node_bound(self.state().nodes, node_ident@, self.state().nodes.len());
                    }
                }
                self.lookup_prop(nid, name)
            },
        }
    }
}

impl<'a> Builder<'a> {
    fn alloc_node(&mut self, node: &AstNode, domain: Option<DomainId>) -> (r: Result<NodeId, GraphError>)
        requires
            old(self).wf(),
        ensures
            final(self).wf(),
            match alloc_node(old(self).state(), *node, domain) {
                Ok((s, id)) => r == Ok::<NodeId, GraphError>(id) && final(self).state() == s,
                Err(e) => r == Err::<NodeId, GraphError>(e) && final(self).state() == old(self).state(),
            },
    {
        if self.find_node(&node.ident).is_some() {
            return Err(GraphError::DuplicateNode { ident: node.ident.clone() });
        }
        if self.nodes.len() >= u32::MAX as usize {
            return Err(GraphError::CapacityExceeded);
        }
        let id = NodeId(self.nodes.len() as u32);
        let ghost old_state = self.state();
        let n = Node {
            id,
            ident: node.ident.clone(),
            display_name: clone_opt(&node.display_name),
            properties: Vec::new(),
            domain,
            is_root: node.is_root,
            is_selected: node.is_selected,
        };
        self.nodes.push(n);
        proof {
            let (s, _) = alloc_node(old_state, *node, domain).unwrap();
            assert(self.state().nodes =~= s.nodes);
            assert(self.state() =~= s);
        }
        Ok(id)
    }

    fn alloc_property(&mut self, nid: NodeId, node: &AstNode, prop: &AstProperty) -> (r: Result<(), GraphError>)
        requires
            old(self).wf(),
            nid.0 < old(self).nodes@.len(),
        ensures
            final(self).wf(),
            final(self).nodes@.len() == old(self).nodes@.len(),
            match alloc_property(old(self).state(), nid, node.ident, *prop) {
                Ok(s) => r is Ok && final(self).state() == s,
                Err(e) => r == Err::<(), GraphError>(e) && final(self).state() == old(self).state(),
            },
    {
        if self.lookup_prop(nid, &prop.name).is_some() {
            return Err(
                GraphError::DuplicateProperty { node: node.ident.clone(), prop: prop.name.clone() },
            );
        }
        if self.properties.len() >= u32::MAX as usize {
            return Err(GraphError::CapacityExceeded);
        }
        let ghost old_state = self.state();
        let id = PropId(self.properties.len() as u32);
        let p = Property {
            id,
            node: nid,
            name: prop.name.clone(),
            trust: trust_class_from(prop.trust),
        };
        self.properties.push(p);
        self.nodes[nid.index()].properties.push(id);
        proof {
            let s = alloc_property(old_state, nid, node.ident, *prop).unwrap();
            assert(self.state().nodes =~= s.nodes);
            assert(self.state().properties =~= s.properties);
            assert(self.state() =~= s);
        }
        Ok(())
    }

    /// Allocates a node and all its properties.
    fn alloc_decl(&mut self, node: &AstNode, domain: Option<DomainId>) -> (r: Result<NodeId, GraphError>)
        requires
            old(self).wf(),
        ensures
            final(self).wf(),
            match alloc_decl(old(self).state(), *node, domain) {
                Ok((s, id)) => r == Ok::<NodeId, GraphError>(id) && final(self).state() == s,
                Err(e) => r == Err::<NodeId, GraphError>(e) && final(self).state() == alloc_decl_left(
                    old(self).state(),
                    *node,
                    domain,
                ),
            },
    {
        let ghost st0 = self.state();
        let nid = self.alloc_node(node, domain)?;
        let ghost st1 = self.state();
        assert(st1.nodes.len() == self.nodes@.len());
        let n = node.properties.len();
        let mut i: usize = 0;
        while i < n
            invariant
                self.wf(),
                n == node.properties@.len(),
                i <= n,
                st0 == old(self).state(),
                alloc_node(st0, *node, domain) == Ok::<(BuildState, NodeId), GraphError>((st1, nid)),
                nid.0 < self.nodes@.len(),
                alloc_props(st1, nid, *node, i as nat) == Ok::<BuildState, GraphError>(self.state()),
            decreases n - i,
        {
            let ghost si = self.state();
            let r = self.alloc_property(nid, node, &node.properties[i]);
            if let Err(e) = r {
                proof {
                    assert(alloc_props(st1, nid, *node, (i + 1) as nat) == alloc_property(si, nid, node.ident, node.properties@[i as int]));
                    assert(alloc_props_left(st1, nid, *node, (i + 1) as nat) == si);
                    lemma_alloc_props_err(st1, nid, *node, (i + 1) as nat, n as nat);
                }
                return Err(e);
            }
            i = i + 1;
        }
        Ok(nid)
    }
}

impl<'a> Builder<'a> {
    fn alloc_domain(&mut self, dom: &AstDomain) -> (r: Result<(), GraphError>)
        requires
            old(self).wf(),
        ensures
            final(self).wf(),
            match alloc_domain(old(self).state(), *dom) {
                Ok(s) => r is Ok && final(self).state() == s,
                Err(e) => r == Err::<(), GraphError>(e) && final(self).state() == alloc_domain_left(
                    old(self).state(),
                    *dom,
                ),
            },
    {
        if self.domains.len() >= u32::MAX as usize {
            return Err(GraphError::CapacityExceeded);
        }
        let did = DomainId(self.domains.len() as u32);
        let ghost st0 = self.state();
        let mut members: Vec<NodeId> = Vec::new();
        let n = dom.nodes.len();
        let mut i: usize = 0;
        while i < n
            invariant
                self.wf(),
                n == dom.nodes@.len(),
                i <= n,
                st0 == old(self).state(),
                did == DomainId(st0.domains.len() as u32),
                has_room(st0.domains.len()),
                self.domains@.len() == st0.domains.len(),
                alloc_members(st0, dom.nodes@, did, i as nat) == Ok::<(BuildState, Seq<NodeId>), GraphError>(
                    (self.state(), members@),
                ),
            decreases n - i,
        {
            let ghost si = self.state();
            let r = self.alloc_decl(&dom.nodes[i], Some(did));
            match r {
                Err(e) => {
                    proof {
                        assert(alloc_members_left(st0, dom.nodes@, did, (i + 1) as nat) == self.state());
                        lemma_alloc_members_err(st0, dom.nodes@, did, (i + 1) as nat, n as nat);
                    }
                    return Err(e);
                },
                Ok(nid) => {
                    members.push(nid);
                },
            }
            proof {
                lemma_alloc_decl_frame(si, dom.nodes@[i as int], Some(did));
                assert(self.state().domains.len() == self.domains@.len());
            }
            i = i + 1;
        }
        let ghost st1 = self.state();
        self.domains.push(Domain { id: did, display_name: dom.display_name.clone(), members });
        proof {
            let s = alloc_domain(st0, *dom).unwrap();
            assert(self.state().domains =~= s.domains);
            assert(self.state() =~= s);
        }
        Ok(())
    }
}

impl<'a> Builder<'a> {
    /// Whether some link edge so far has `child` as child.
    fn has_parent(&self, child: NodeId) -> (r: bool)
        requires
            self.wf(),
        ensures
            r == has_parent(self.state(), child),
    {
        let ghost edges = self.state().edges;
        let mut i: usize = 0;
        while i < self.edges.len()
            invariant
                self.wf(),
                edges == self.state().edges,
                i <= self.edges@.len(),
                parent_link(edges, child, i as nat) is None,
            decreases self.edges@.len() - i,
        {
            proof {
                assert(edges[i as int] == self.edges@[i as int]@);
            }
            match &self.edges[i] {
                Edge::Link { child: c, .. } => {
                    if *c == child {
                        proof {
                            lemma_parent_link_stable(edges, child, (i + 1) as nat, edges.len());
                        }
                        return true;
                    }
                },
                _ => {},
            }
            i = i + 1;
        }
        false
    }

    fn link_step(&mut self, link: &AstLink) -> (r: Result<(), GraphError>)
        requires
            old(self).wf(),
        ensures
            final(self).wf(),
            match link_step(old(self).state(), *link) {
                Ok(s) => r is Ok && final(self).state() == s,
                Err(e) => r == Err::<(), GraphError>(e) && final(self).state() == link_step_left(
                    old(self).state(),
                    *link,
                ),
            },
    {
        let child = match self.find_node(&link.child_ident) {
            Some(c) => c,
            None => {
                return Err(GraphError::UnknownNode { ident: link.child_ident.clone() });
            },
        };
        let parent = match self.find_node(&link.parent_ident) {
            Some(p) => p,
            None => {
                return Err(GraphError::UnknownNode { ident: link.parent_ident.clone() });
            },
        };
        if self.edges.len() >= u32::MAX as usize {
            return Err(GraphError::CapacityExceeded);
        }
        let had_parent = self.has_parent(child);
        let ghost st0 = self.state();
        self.edges.push(Edge::Link { child, parent, operation: clone_opt(&link.operation) });
        if had_parent {
            proof {
                assert(self.state().edges =~= link_step_left(st0, *link).edges);
                assert(self.state() =~= link_step_left(st0, *link));
            }
            return Err(GraphError::MultipleParents { ident: link.child_ident.clone() });
        }
        proof {
            let s = link_step(st0, *link).unwrap();
            assert(self.state().edges =~= s.edges);
            assert(self.state() =~= s);
        }
        Ok(())
    }
}

impl<'a> Builder<'a> {
    /// The first derivation allocated for an expression equal to `expr`.
    fn find_key(&self, expr: &AstDerivationExpr) -> (r: Option<usize>)
        requires
            self.wf(),
        ensures
            r matches Some(k) ==> find_key(self.state().keys, deriv_view(*expr), self.state().keys.len())
                == Some(k as nat) && k < self.derivations@.len(),
            r is None ==> find_key(self.state().keys, deriv_view(*expr), self.state().keys.len()) is None,
    {
        let ghost keys = self.state().keys;
        let mut k: usize = 0;
        while k < self.keys.len()
            invariant
                self.wf(),
                keys == self.state().keys,
                k <= self.keys@.len(),
                find_key(keys, deriv_view(*expr), k as nat) is None,
            decreases self.keys@.len() - k,
        {
            proof {
                assert(keys[k as int] == deriv_view(*self.keys@[k as int]));
            }
            if deriv_eq(self.keys[k], expr) {
                proof {
                    lemma_find_key_stable(keys, deriv_view(*expr), (k + 1) as nat, keys.len());
                }
                return Some(k);
            }
            k = k + 1;
        }
        None
    }

    fn resolve_source(&mut self, source: &'a AstSourceExpr, dest: NodeId) -> (r: Result<PropId, GraphError>)
        requires
            old(self).wf(),
        ensures
            final(self).wf(),
            match resolve_source(old(self).state(), *source, dest) {
                Ok((s, p)) => r == Ok::<PropId, GraphError>(p) && final(self).state() == s,
                Err(e) => r == Err::<PropId, GraphError>(e) && final(self).state()
                    == resolve_source_left(old(self).state(), *source, dest),
            },
        decreases source, 0nat,
    {
        match source {
            AstSourceExpr::PropRef { node_ident, prop_name } => {
                match self.find_prop(node_ident, prop_name) {
                    Some(p) => Ok(p),
                    None => Err(
                        GraphError::UnknownProperty {
                            node: node_ident.clone(),
                            prop: prop_name.clone(),
                        },
                    ),
                }
            },
            AstSourceExpr::Derivation(d) => self.ensure_derivation(d, dest),
        }
    }

    /// Allocates derivation `expr` unless an equal expression was allocated
    /// before; gives the property that carries its value.
    fn ensure_derivation(&mut self, expr: &'a AstDerivationExpr, dest: NodeId) -> (r: Result<PropId, GraphError>)
        requires
            old(self).wf(),
        ensures
            final(self).wf(),
            match ensure_derivation(old(self).state(), *expr, dest) {
                Ok((s, p)) => r == Ok::<PropId, GraphError>(p) && final(self).state() == s,
                Err(e) => r == Err::<PropId, GraphError>(e) && final(self).state()
                    == ensure_derivation_left(old(self).state(), *expr, dest),
            },
        decreases expr, 0nat,
    {
        if let Some(k) = self.find_key(expr) {
            proof {
                assert(self.state().derivations[k as int] == self.derivations@[k as int]@);
            }
            return Ok(self.derivations[k].output_prop);
        }
        let ghost st0 = self.state();
        let n = expr.args.len();
        let mut inputs: Vec<PropId> = Vec::new();
        let mut i: usize = 0;
        while i < n
            invariant
                self.wf(),
                n == expr.args@.len(),
                i <= n,
                st0 == old(self).state(),
                find_key(st0.keys, deriv_view(*expr), st0.keys.len()) is None,
                resolve_args(st0, expr.args@, dest, i as nat) == Ok::<(BuildState, Seq<PropId>), GraphError>(
                    (self.state(), inputs@),
                ),
            decreases n - i,
        {
            proof {
                assert(decreases_to!(expr => expr.args));
                assert(decreases_to!(expr.args => expr.args@));
                assert(decreases_to!(expr.args@ => expr.args@[i as int]));
            }
            let ghost si = self.state();
            match self.resolve_source(&expr.args[i], dest) {
                Err(e) => {
                    proof {
                        assert(resolve_args_left(st0, expr.args@, dest, (i + 1) as nat)
                            == resolve_source_left(si, expr.args@[i as int], dest));
                        lemma_resolve_args_err(st0, expr.args@, dest, (i + 1) as nat, n as nat);
                    }
                    return Err(e);
                },
                Ok(p) => {
                    inputs.push(p);
                },
            }
            i = i + 1;
        }
        if self.derivations.len() >= u32::MAX as usize || self.properties.len() >= u32::MAX as usize
            || inputs.len() >= u32::MAX as usize - self.edges.len() {
            return Err(GraphError::CapacityExceeded);
        }
        let ghost st1 = self.state();
        let did = DerivId(self.derivations.len() as u32);
        let out = PropId(self.properties.len() as u32);
        let mut name = String::from_str("__deriv_");
        push_decimal(&mut name, did.0);
        assert(name@ == synth_name(did));
        self.properties.push(Property { id: out, node: dest, name, trust: TrustClass::Always });
        let mut new_edges: Vec<Edge> = Vec::new();
        let mut j: usize = 0;
        while j < inputs.len()
            invariant
                j <= inputs@.len(),
                new_edges@.len() == j,
                forall|k: int| 0 <= k < j ==> #[trigger] new_edges@[k]@ == input_edges(inputs@, did)[k],
            decreases inputs@.len() - j,
        {
            new_edges.push(Edge::DerivInput { source_prop: inputs[j], target_deriv: did });
            j = j + 1;
        }
        let ghost ne = new_edges@;
        self.edges.append(&mut new_edges);
        let ghost ins = inputs@;
        self.derivations.push(
            Derivation { id: did, operation: expr.function.clone(), inputs, output_prop: out },
        );
        self.keys.push(expr);
        proof {
            let (s, p) = add_derivation(st1, *expr, dest, ins);
            assert(self.state().edges.len() == s.edges.len());
            assert forall|k: int| 0 <= k < s.edges.len() implies self.state().edges[k] == s.edges[k] by {
                if k >= st1.edges.len() {
                    assert(self.edges@[k] == ne[k - st1.edges.len()]);
                }
            }
            assert(self.state().edges =~= s.edges);
            assert(self.state().properties =~= s.properties);
            assert(self.state().derivations =~= s.derivations);
            assert(self.state().keys =~= s.keys);
            assert(self.state() =~= s);
        }
        Ok(out)
    }
}

impl<'a> Builder<'a> {
    fn constraint_step(&mut self, c: &'a AstConstraint) -> (r: Result<(), GraphError>)
        requires
            old(self).wf(),
        ensures
            final(self).wf(),
            match constraint_step(old(self).state(), *c) {
                Ok(s) => r is Ok && final(self).state() == s,
                Err(e) => r == Err::<(), GraphError>(e) && final(self).state()
                    == constraint_step_left(old(self).state(), *c),
            },
    {
        let dest_node = match self.find_node(&c.dest_node) {
            Some(n) => n,
            None => {
                return Err(GraphError::UnknownNode { ident: c.dest_node.clone() });
            },
        };
        let dest_prop = match self.find_prop(&c.dest_node, &c.dest_prop) {
            Some(p) => p,
            None => {
                return Err(
                    GraphError::UnknownProperty {
                        node: c.dest_node.clone(),
                        prop: c.dest_prop.clone(),
                    },
                );
            },
        };
        let source_prop = self.resolve_source(&c.source, dest_node)?;
        if self.edges.len() >= u32::MAX as usize {
            return Err(GraphError::CapacityExceeded);
        }
        let ghost st1 = self.state();
        self.edges.push(
            Edge::Constraint { dest_prop, source_prop, operation: clone_opt(&c.operation) },
        );
        proof {
            assert(self.state().edges =~= st1.edges.push(self.edges@.last()@));
            assert(self.state() =~= constraint_step(old(self).state(), *c).unwrap());
        }
        Ok(())
    }

    /// Assembles the graph, with its adjacency indices computed from the
    /// edge list.
    fn finish(self) -> (g: Graph)
        requires
            self.wf(),
        ensures
            graph_of(g, self.state()),
    {
        let np = self.properties.len();
        let nn = self.nodes.len();
        let mut prop_edges: Vec<Vec<EdgeId>> = Vec::new();
        let mut p: usize = 0;
        while p < np
            invariant
                self.wf(),
                np == self.properties@.len(),
                p <= np,
                prop_edges@.len() == p,
                forall|q: int|
                    0 <= q < p ==> #[trigger] prop_edges@[q]@ == edges_touching(
                        edge_views(self.edges@),
                        PropId(q as u32),
                        self.edges@.len(),
                    ),
            decreases np - p,
        {
            prop_edges.push(collect_touching(&self.edges, PropId(p as u32)));
            p = p + 1;
        }
        let mut node_children: Vec<Vec<EdgeId>> = Vec::new();
        let mut node_parent: Vec<Option<EdgeId>> = Vec::new();
        let mut n: usize = 0;
        while n < nn
            invariant
                self.wf(),
                nn == self.nodes@.len(),
                n <= nn,
                node_children@.len() == n,
                node_parent@.len() == n,
                forall|q: int|
                    0 <= q < n ==> #[trigger] node_children@[q]@ == child_links(
                        edge_views(self.edges@),
                        NodeId(q as u32),
                        self.edges@.len(),
                    ),
                forall|q: int|
                    0 <= q < n ==> #[trigger] node_parent@[q] == parent_link(
                        edge_views(self.edges@),
                        NodeId(q as u32),
                        self.edges@.len(),
                    ),
            decreases nn - n,
        {
            node_children.push(collect_children(&self.edges, NodeId(n as u32)));
            node_parent.push(find_parent(&self.edges, NodeId(n as u32)));
            n = n + 1;
        }
        Graph {
            nodes: self.nodes,
            properties: self.properties,
            derivations: self.derivations,
            edges: self.edges,
            domains: self.domains,
            prop_edges,
            node_children,
            node_parent,
        }
    }
}

/// The edges that touch property `p`.
fn collect_touching(edges: &Vec<Edge>, p: PropId) -> (v: Vec<EdgeId>)
    requires
        edges@.len() <= u32::MAX,
    ensures
        v@ == edges_touching(edge_views(edges@), p, edges@.len()),
{
    let ghost ev = edge_views(edges@);
    let mut v: Vec<EdgeId> = Vec::new();
    let mut i: usize = 0;
    while i < edges.len()
        invariant
            edges@.len() <= u32::MAX,
            ev == edge_views(edges@),
            i <= edges@.len(),
            v@ == edges_touching(ev, p, i as nat),
        decreases edges@.len() - i,
    {
        let id = EdgeId(i as u32);
        proof {
            assert(ev[i as int] == edges@[i as int]@);
        }
        match &edges[i] {
            Edge::Link { .. } => {},
            Edge::DerivInput { source_prop, .. } => {
                if *source_prop == p {
                    v.push(id);
                }
            },
            Edge::Constraint { dest_prop, source_prop, .. } => {
                if *dest_prop == p {
                    v.push(id);
                }
                if *source_prop == p {
                    v.push(id);
                }
            },
        }
        i = i + 1;
    }
    v
}

/// The link edges whose parent is `node`.
fn collect_children(edges: &Vec<Edge>, node: NodeId) -> (v: Vec<EdgeId>)
    requires
        edges@.len() <= u32::MAX,
    ensures
        v@ == child_links(edge_views(edges@), node, edges@.len()),
{
    let ghost ev = edge_views(edges@);
    let mut v: Vec<EdgeId> = Vec::new();
    let mut i: usize = 0;
    while i < edges.len()
        invariant
            edges@.len() <= u32::MAX,
            ev == edge_views(edges@),
            i <= edges@.len(),
            v@ == child_links(ev, node, i as nat),
        decreases edges@.len() - i,
    {
        proof {
            assert(ev[i as int] == edges@[i as int]@);
        }
        match &edges[i] {
            Edge::Link { parent, .. } => {
                if *parent == node {
                    v.push(EdgeId(i as u32));
                }
            },
            _ => {},
        }
        i = i + 1;
    }
    v
}

/// The first link edge whose child is `node`.
fn find_parent(edges: &Vec<Edge>, node: NodeId) -> (r: Option<EdgeId>)
    requires
        edges@.len() <= u32::MAX,
    ensures
        r == parent_link(edge_views(edges@), node, edges@.len()),
{
    let ghost ev = edge_views(edges@);
    let mut i: usize = 0;
    while i < edges.len()
        invariant
            edges@.len() <= u32::MAX,
            ev == edge_views(edges@),
            i <= edges@.len(),
            parent_link(ev, node, i as nat) is None,
        decreases edges@.len() - i,
    {
        proof {
            assert(ev[i as int] == edges@[i as int]@);
        }
        match &edges[i] {
            Edge::Link { child, .. } => {
                if *child == node {
                    proof {
                        lemma_parent_link_stable(ev, node, (i + 1) as nat, ev.len());
                    }
                    return Some(EdgeId(i as u32));
                }
            },
            _ => {},
        }
        i = i + 1;
    }
    None
}

/// `g` holds exactly what `st` describes, with adjacency indices that agree
/// with its edges.
pub open spec fn graph_of(g: Graph, st: BuildState) -> bool {
    &&& node_views(g.nodes@) == st.nodes
    &&& prop_views(g.properties@) == st.properties
    &&& deriv_views(g.derivations@) == st.derivations
    &&& edge_views(g.edges@) == st.edges
    &&& domain_views(g.domains@) == st.domains
    &&& g.indices_agree()
}

/// Allocates everything `ast` declares and resolves every reference in it.
fn construct_graph(ast: &AstGraph) -> (r: Result<Graph, GraphError>)
    ensures
        match construct(*ast) {
            Err(e) => r == Err::<Graph, GraphError>(e),
            Ok(st) => r matches Ok(g) && graph_of(g, st),
        },
{
    let mut b = Builder::new();
    // Domains and their members, in order.
    let ghost st0 = b.state();
    let nd = ast.domains.len();
    let mut i: usize = 0;
    while i < nd
        invariant
            b.wf(),
            nd == ast.domains@.len(),
            i <= nd,
            st0 == empty_state(),
            alloc_domains(st0, ast.domains@, i as nat) == Ok::<BuildState, GraphError>(b.state()),
        decreases nd - i,
    {
        if let Err(e) = b.alloc_domain(&ast.domains[i]) {
            proof {
                lemma_alloc_domains_err(st0, ast.domains@, (i + 1) as nat, nd as nat);
            }
            return Err(e);
        }
        i = i + 1;
    }
    // Top-level nodes.
    let ghost st1 = b.state();
    let nn = ast.nodes.len();
    let mut i: usize = 0;
    while i < nn
        invariant
            b.wf(),
            nn == ast.nodes@.len(),
            i <= nn,
            alloc_domains(empty_state(), ast.domains@, ast.domains@.len()) == Ok::<BuildState, GraphError>(st1),
            alloc_top_nodes(st1, ast.nodes@, i as nat) == Ok::<BuildState, GraphError>(b.state()),
        decreases nn - i,
    {
        let ghost si = b.state();
        if let Err(e) = b.alloc_decl(&ast.nodes[i], None) {
            proof {
                assert(alloc_top_nodes(st1, ast.nodes@, (i + 1) as nat) == Err::<BuildState, GraphError>(e));
                lemma_alloc_top_nodes_err(st1, ast.nodes@, (i + 1) as nat, nn as nat);
            }
            return Err(e);
        }
        i = i + 1;
    }
    // Links.
    let ghost st2 = b.state();
    let nl = ast.links.len();
    let mut i: usize = 0;
    while i < nl
        invariant
            b.wf(),
            nl == ast.links@.len(),
            i <= nl,
            alloc_domains(empty_state(), ast.domains@, ast.domains@.len()) == Ok::<BuildState, GraphError>(st1),
            alloc_top_nodes(st1, ast.nodes@, ast.nodes@.len()) == Ok::<BuildState, GraphError>(st2),
            process_links(st2, ast.links@, i as nat) == Ok::<BuildState, GraphError>(b.state()),
        decreases nl - i,
    {
        if let Err(e) = b.link_step(&ast.links[i]) {
            proof {
                lemma_process_links_err(st2, ast.links@, (i + 1) as nat, nl as nat);
            }
            return Err(e);
        }
        i = i + 1;
    }
    // Constraints.
    let ghost st3 = b.state();
    let nc = ast.constraints.len();
    let mut i: usize = 0;
    while i < nc
        invariant
            b.wf(),
            nc == ast.constraints@.len(),
            i <= nc,
            alloc_domains(empty_state(), ast.domains@, ast.domains@.len()) == Ok::<BuildState, GraphError>(st1),
            alloc_top_nodes(st1, ast.nodes@, ast.nodes@.len()) == Ok::<BuildState, GraphError>(st2),
            process_links(st2, ast.links@, ast.links@.len()) == Ok::<BuildState, GraphError>(st3),
            process_constraints(st3, ast.constraints@, i as nat) == Ok::<BuildState, GraphError>(b.state()),
        decreases nc - i,
    {
        if let Err(e) = b.constraint_step(&ast.constraints[i]) {
            proof {
                lemma_process_constraints_err(st3, ast.constraints@, (i + 1) as nat, nc as nat);
            }
            return Err(e);
        }
        i = i + 1;
    }
    Ok(b.finish())
}

// ---------------------------------------------------------------------------
// Every step keeps the state well formed
// ---------------------------------------------------------------------------

/// Identifiers are positions and name existing elements.
pub open spec fn state_wf(st: BuildState) -> bool {
    &&& refs_wf(st.nodes, st.properties, st.derivations, st.edges)
    &&& domains_wf(st.domains, st.nodes.len())
    &&& st.keys.len() == st.derivations.len()
}

proof fn lemma_lookup_prop_bound(props: Seq<PropertyView>, ids: Seq<PropId>, name: Seq<char>, n: nat)
    ensures
        lookup_prop(props, ids, name, n) matches Some(p) ==> p.0 < props.len(),
    decreases n,
{
    if n > 0 && n <= ids.len() {
        lemma_lookup_prop_bound(props, ids, name, (n - 1) as nat);
    }
}

pub proof fn lemma_find_key_none(keys: Seq<DerivView>, key: DerivView, n: nat)
    requires
        n <= keys.len(),
        find_key(keys, key, n) is None,
    ensures
        forall|i: int| 0 <= i < n ==> keys[i] != key,
    decreases n,
{
    if n > 0 {
        lemma_find_key_none(keys, key, (n - 1) as nat);
    }
}

proof fn lemma_find_prop_bound(st: BuildState, node: Seq<char>, name: Seq<char>)
    requires
        state_wf(st),
    ensures
        find_prop(st, node, name) matches Some(p) ==> p.0 < st.properties.len(),
{
    if let Some(nid) = find_node(st, node) {
        let ids = st.nodes[nid.0 as int].properties;
        lemma_lookup_prop_bound(st.properties, ids, name, ids.len());
    }
}

proof fn lemma_alloc_node_wf(st: BuildState, node: AstNode, domain: Option<DomainId>)
    requires
        state_wf(st),
    ensures
        alloc_node(st, node, domain) matches Ok((s, id)) ==> state_wf(s) && id.0 == st.nodes.len()
            && s.nodes.len() == st.nodes.len() + 1 && s.properties == st.properties && s.derivations
            == st.derivations && s.keys == st.keys && s.edges == st.edges && s.domains == st.domains,
{
    if let Ok((s, id)) = alloc_node(st, node, domain) {
        assert(refs_wf(s.nodes, s.properties, s.derivations, s.edges)) by {
            assert forall|i: int, j: int|
                0 <= i < s.nodes.len() && 0 <= j < s.nodes[i].properties.len() implies {
                let p = #[trigger] s.nodes[i].properties[j];
                p.0 < s.properties.len() && s.properties[p.0 as int].node == NodeId(i as u32)
            } by {
                assert(i < st.nodes.len());
                assert(s.nodes[i] == st.nodes[i]);
            }
            assert forall|e: int| 0 <= e < s.edges.len() implies crate::model::types::edge_refs_valid(
                #[trigger] s.edges[e],
                s.nodes.len(),
                s.properties.len(),
                s.derivations.len(),
            ) by {
                assert(crate::model::types::edge_refs_valid(
                    st.edges[e],
                    st.nodes.len(),
                    st.properties.len(),
                    st.derivations.len(),
                ));
            }
        }
    }
}

proof fn lemma_alloc_property_wf(st: BuildState, nid: NodeId, ident: String, prop: AstProperty)
    requires
        state_wf(st),
        nid.0 < st.nodes.len(),
    ensures
        alloc_property(st, nid, ident, prop) matches Ok(s) ==> state_wf(s) && s.nodes.len()
            == st.nodes.len() && s.properties.len() == st.properties.len() + 1 && s.derivations
            == st.derivations && s.keys == st.keys && s.edges == st.edges && s.domains == st.domains,
{
    if let Ok(s) = alloc_property(st, nid, ident, prop) {
        assert(refs_wf(s.nodes, s.properties, s.derivations, s.edges)) by {
            assert forall|i: int, j: int|
                0 <= i < s.nodes.len() && 0 <= j < s.nodes[i].properties.len() implies {
                let p = #[trigger] s.nodes[i].properties[j];
                p.0 < s.properties.len() && s.properties[p.0 as int].node == NodeId(i as u32)
            } by {
                if i != nid.0 {
                    assert(s.nodes[i] == st.nodes[i]);
                    let p = st.nodes[i].properties[j];
                    assert(p.0 < st.properties.len());
                    assert(s.properties[p.0 as int] == st.properties[p.0 as int]);
                } else if j < st.nodes[i].properties.len() {
                    let p = st.nodes[i].properties[j];
                    assert(s.nodes[i].properties[j] == p);
                    assert(p.0 < st.properties.len());
                    assert(s.properties[p.0 as int] == st.properties[p.0 as int]);
                }
            }
            assert forall|p: int| 0 <= p < s.properties.len() implies (#[trigger] s.properties[p]).id
                == PropId(p as u32) && s.properties[p].node.0 < s.nodes.len() by {
                if p < st.properties.len() {
                    assert(s.properties[p] == st.properties[p]);
                }
            }
            assert forall|e: int| 0 <= e < s.edges.len() implies crate::model::types::edge_refs_valid(
                #[trigger] s.edges[e],
                s.nodes.len(),
                s.properties.len(),
                s.derivations.len(),
            ) by {
                assert(crate::model::types::edge_refs_valid(
                    st.edges[e],
                    st.nodes.len(),
                    st.properties.len(),
                    st.derivations.len(),
                ));
            }
            assert forall|d: int, k: int|
                0 <= d < s.derivations.len() && 0 <= k < s.derivations[d].inputs.len() implies (
            #[trigger] s.derivations[d].inputs[k]).0 < s.properties.len() by {
                assert(st.derivations[d].inputs[k].0 < st.properties.len());
            }
        }
    }
}

proof fn lemma_alloc_props_wf(st: BuildState, nid: NodeId, node: AstNode, n: nat)
    requires
        state_wf(st),
        nid.0 < st.nodes.len(),
    ensures
        alloc_props(st, nid, node, n) matches Ok(s) ==> state_wf(s) && s.nodes.len()
            == st.nodes.len() && s.derivations == st.derivations && s.keys == st.keys && s.edges
            == st.edges && s.domains == st.domains,
    decreases n,
{
    if n > 0 && n <= node.properties@.len() {
        lemma_alloc_props_wf(st, nid, node, (n - 1) as nat);
        if let Ok(s) = alloc_props(st, nid, node, (n - 1) as nat) {
            lemma_alloc_property_wf(s, nid, node.ident, node.properties@[n - 1]);
        }
    }
}

proof fn lemma_alloc_decl_wf(st: BuildState, node: AstNode, domain: Option<DomainId>)
    requires
        state_wf(st),
    ensures
        alloc_decl(st, node, domain) matches Ok((s, id)) ==> state_wf(s) && id.0 < s.nodes.len()
            && s.nodes.len() == st.nodes.len() + 1 && s.derivations == st.derivations && s.keys
            == st.keys && s.edges == st.edges && s.domains == st.domains,
{
    lemma_alloc_node_wf(st, node, domain);
    if let Ok((s, nid)) = alloc_node(st, node, domain) {
        lemma_alloc_props_wf(s, nid, node, node.properties@.len());
    }
}

proof fn lemma_alloc_members_wf(st: BuildState, nodes: Seq<AstNode>, d: DomainId, n: nat)
    requires
        state_wf(st),
    ensures
        alloc_members(st, nodes, d, n) matches Ok((s, ids)) ==> state_wf(s) && s.nodes.len()
            >= st.nodes.len() && s.derivations == st.derivations && s.keys == st.keys && s.edges
            == st.edges && s.domains == st.domains && forall|k: int|
            0 <= k < ids.len() ==> (#[trigger] ids[k]).0 < s.nodes.len(),
    decreases n,
{
    if n > 0 && n <= nodes.len() {
        lemma_alloc_members_wf(st, nodes, d, (n - 1) as nat);
        if let Ok((s, ids)) = alloc_members(st, nodes, d, (n - 1) as nat) {
            lemma_alloc_decl_wf(s, nodes[n - 1], Some(d));
        }
    }
}

proof fn lemma_alloc_domain_wf(st: BuildState, dom: AstDomain)
    requires
        state_wf(st),
    ensures
        alloc_domain(st, dom) matches Ok(s) ==> state_wf(s) && s.derivations == st.derivations
            && s.keys == st.keys && s.edges == st.edges,
{
    if has_room(st.domains.len()) {
        let did = DomainId(st.domains.len() as u32);
        lemma_alloc_members_wf(st, dom.nodes@, did, dom.nodes@.len());
        if let Ok(s) = alloc_domain(st, dom) {
            let (s1, members) = alloc_members(st, dom.nodes@, did, dom.nodes@.len()).unwrap();
            assert(domains_wf(s.domains, s.nodes.len())) by {
                assert forall|x: int, m: int|
                    0 <= x < s.domains.len() && 0 <= m < s.domains[x].members.len() implies (
                #[trigger] s.domains[x].members[m]).0 < s.nodes.len() by {
                    if x < s1.domains.len() {
                        assert(s.domains[x] == s1.domains[x]);
                        assert(s1.domains[x].members[m].0 < s1.nodes.len());
                    } else {
                        assert(s.domains[x].members == members);
                        assert(members[m].0 < s1.nodes.len());
                    }
                }
            }
        }
    }
}

proof fn lemma_alloc_domains_wf(st: BuildState, doms: Seq<AstDomain>, n: nat)
    requires
        state_wf(st),
    ensures
        alloc_domains(st, doms, n) matches Ok(s) ==> state_wf(s) && s.derivations == st.derivations
            && s.keys == st.keys && s.edges == st.edges,
    decreases n,
{
    if n > 0 && n <= doms.len() {
        lemma_alloc_domains_wf(st, doms, (n - 1) as nat);
        if let Ok(s) = alloc_domains(st, doms, (n - 1) as nat) {
            lemma_alloc_domain_wf(s, doms[n - 1]);
        }
    }
}

proof fn lemma_alloc_top_nodes_wf(st: BuildState, nodes: Seq<AstNode>, n: nat)
    requires
        state_wf(st),
    ensures
        alloc_top_nodes(st, nodes, n) matches Ok(s) ==> state_wf(s) && s.derivations
            == st.derivations && s.keys == st.keys && s.edges == st.edges,
    decreases n,
{
    if n > 0 && n <= nodes.len() {
        lemma_alloc_top_nodes_wf(st, nodes, (n - 1) as nat);
        if let Ok(s) = alloc_top_nodes(st, nodes, (n - 1) as nat) {
            lemma_alloc_decl_wf(s, nodes[n - 1], None);
        }
    }
}

proof fn lemma_link_step_wf(st: BuildState, link: AstLink)
    requires
        state_wf(st),
    ensures
        link_step(st, link) matches Ok(s) ==> state_wf(s) && s.nodes == st.nodes && s.properties
            == st.properties && s.derivations == st.derivations && s.keys == st.keys,
{
    lemma_lookup_node_bound(st.nodes, link.child_ident@, st.nodes.len());
    lemma_lookup_node_bound(st.nodes, link.parent_ident@, st.nodes.len());
    if let Ok(s) = link_step(st, link) {
        assert(refs_wf(s.nodes, s.properties, s.derivations, s.edges)) by {
            assert forall|e: int| 0 <= e < s.edges.len() implies crate::model::types::edge_refs_valid(
                #[trigger] s.edges[e],
                s.nodes.len(),
                s.properties.len(),
                s.derivations.len(),
            ) by {
                if e < st.edges.len() {
                    assert(s.edges[e] == st.edges[e]);
                }
            }
        }
    }
}

proof fn lemma_process_links_wf(st: BuildState, links: Seq<AstLink>, n: nat)
    requires
        state_wf(st),
    ensures
        process_links(st, links, n) matches Ok(s) ==> state_wf(s) && s.nodes == st.nodes
            && s.properties == st.properties && s.derivations == st.derivations && s.keys == st.keys,
    decreases n,
{
    if n > 0 && n <= links.len() {
        lemma_process_links_wf(st, links, (n - 1) as nat);
        if let Ok(s) = process_links(st, links, (n - 1) as nat) {
            lemma_link_step_wf(s, links[n - 1]);
        }
    }
}

/// What resolving a source keeps: the nodes, the domains, and the
/// well-formedness of the state; properties and derivations only grow.
pub open spec fn resolve_frame(st: BuildState, s: BuildState) -> bool {
    &&& state_wf(s)
    &&& s.nodes == st.nodes
    &&& s.domains == st.domains
    &&& s.properties.len() >= st.properties.len()
    &&& s.derivations.len() >= st.derivations.len()
    &&& forall|k: int| 0 <= k < st.keys.len() ==> #[trigger] s.keys[k] == st.keys[k]
    &&& forall|k: int| 0 <= k < st.derivations.len() ==> #[trigger] s.derivations[k] == st.derivations[k]
    &&& s.edges.len() >= st.edges.len()
    &&& forall|k: int| 0 <= k < st.edges.len() ==> #[trigger] s.edges[k] == st.edges[k]
    &&& forall|k: int| st.edges.len() <= k < s.edges.len() ==> !(#[trigger] s.edges[k] is Link)
}

pub proof fn lemma_resolve_source_wf(st: BuildState, src: AstSourceExpr, dest: NodeId)
    requires
        state_wf(st),
        dest.0 < st.nodes.len(),
    ensures
        resolve_source(st, src, dest) matches Ok((s, p)) ==> resolve_frame(st, s) && p.0
            < s.properties.len(),
    decreases src, 0nat,
{
    match src {
        AstSourceExpr::PropRef { node_ident, prop_name } => {
            lemma_find_prop_bound(st, node_ident@, prop_name@);
        },
        AstSourceExpr::Derivation(d) => {
            lemma_ensure_derivation_wf(st, d, dest);
        },
    }
}

pub proof fn lemma_ensure_derivation_wf(st: BuildState, expr: AstDerivationExpr, dest: NodeId)
    requires
        state_wf(st),
        dest.0 < st.nodes.len(),
    ensures
        ensure_derivation(st, expr, dest) matches Ok((s, p)) ==> resolve_frame(st, s) && p.0
            < s.properties.len(),
    decreases expr, 0nat,
{
    match find_key(st.keys, deriv_view(expr), st.keys.len()) {
        Some(k) => {
            lemma_find_key_bound(st.keys, deriv_view(expr), st.keys.len());
        },
        None => {
            assert(decreases_to!(expr => expr.args));
            assert(decreases_to!(expr.args => expr.args@));
            lemma_resolve_args_wf(st, expr.args@, dest, expr.args@.len());
            if let Ok((s, inputs)) = resolve_args(st, expr.args@, dest, expr.args@.len()) {
                if has_room(s.derivations.len()) && has_room(s.properties.len()) && has_room(
                    s.edges.len() + inputs.len(),
                ) {
                    lemma_add_derivation_wf(s, expr, dest, inputs);
                }
            }
        },
    }
}

pub proof fn lemma_find_key_bound(keys: Seq<DerivView>, key: DerivView, n: nat)
    ensures
        find_key(keys, key, n) matches Some(k) ==> k < n && k < keys.len() && keys[k as int] == key,
    decreases n,
{
    if n > 0 && n <= keys.len() {
        lemma_find_key_bound(keys, key, (n - 1) as nat);
    }
}

pub proof fn lemma_resolve_args_wf(st: BuildState, args: Seq<AstSourceExpr>, dest: NodeId, n: nat)
    requires
        state_wf(st),
        dest.0 < st.nodes.len(),
    ensures
        resolve_args(st, args, dest, n) matches Ok((s, ins)) ==> resolve_frame(st, s) && forall|k: int|
            0 <= k < ins.len() ==> (#[trigger] ins[k]).0 < s.properties.len(),
    decreases args, n,
{
    if n > 0 && n <= args.len() {
        lemma_resolve_args_wf(st, args, dest, (n - 1) as nat);
        if let Ok((s, ins)) = resolve_args(st, args, dest, (n - 1) as nat) {
            lemma_resolve_source_wf(s, args[n - 1], dest);
        }
    }
}

proof fn lemma_add_derivation_wf(st: BuildState, expr: AstDerivationExpr, dest: NodeId, inputs: Seq<PropId>)
    requires
        state_wf(st),
        dest.0 < st.nodes.len(),
        has_room(st.derivations.len()),
        has_room(st.properties.len()),
        has_room(st.edges.len() + inputs.len()),
        forall|k: int| 0 <= k < inputs.len() ==> (#[trigger] inputs[k]).0 < st.properties.len(),
    ensures
        resolve_frame(st, add_derivation(st, expr, dest, inputs).0),
        add_derivation(st, expr, dest, inputs).1.0 < add_derivation(st, expr, dest, inputs).0.properties.len(),
{
    let (s, p) = add_derivation(st, expr, dest, inputs);
    let did = DerivId(st.derivations.len() as u32);
    assert(refs_wf(s.nodes, s.properties, s.derivations, s.edges)) by {
        assert forall|i: int, j: int|
            0 <= i < s.nodes.len() && 0 <= j < s.nodes[i].properties.len() implies {
            let q = #[trigger] s.nodes[i].properties[j];
            q.0 < s.properties.len() && s.properties[q.0 as int].node == NodeId(i as u32)
        } by {
            let q = st.nodes[i].properties[j];
            assert(q.0 < st.properties.len());
            assert(s.properties[q.0 as int] == st.properties[q.0 as int]);
        }
        assert forall|q: int| 0 <= q < s.properties.len() implies (#[trigger] s.properties[q]).id
            == PropId(q as u32) && s.properties[q].node.0 < s.nodes.len() by {
            if q < st.properties.len() {
                assert(s.properties[q] == st.properties[q]);
            }
        }
        assert forall|d: int| 0 <= d < s.derivations.len() implies (#[trigger] s.derivations[d]).id
            == DerivId(d as u32) && s.derivations[d].output_prop.0 < s.properties.len() by {
            if d < st.derivations.len() {
                assert(s.derivations[d] == st.derivations[d]);
            }
        }
        assert forall|d: int, k: int|
            0 <= d < s.derivations.len() && 0 <= k < s.derivations[d].inputs.len() implies (
        #[trigger] s.derivations[d].inputs[k]).0 < s.properties.len() by {
            if d < st.derivations.len() {
                assert(s.derivations[d] == st.derivations[d]);
                assert(st.derivations[d].inputs[k].0 < st.properties.len());
            }
        }
        assert forall|e: int| 0 <= e < s.edges.len() implies crate::model::types::edge_refs_valid(
            #[trigger] s.edges[e],
            s.nodes.len(),
            s.properties.len(),
            s.derivations.len(),
        ) by {
            if e < st.edges.len() {
                assert(s.edges[e] == st.edges[e]);
                assert(crate::model::types::edge_refs_valid(
                    st.edges[e],
                    st.nodes.len(),
                    st.properties.len(),
                    st.derivations.len(),
                ));
            } else {
                assert(s.edges[e] == input_edges(inputs, did)[e - st.edges.len()]);
            }
        }
    }
}
proof fn lemma_constraint_step_wf(st: BuildState, c: AstConstraint)
    requires
        state_wf(st),
    ensures
        constraint_step(st, c) matches Ok(s) ==> resolve_frame(st, s),
{
    lemma_lookup_node_bound(st.nodes, c.dest_node@, st.nodes.len());
    lemma_find_prop_bound(st, c.dest_node@, c.dest_prop@);
    if let Some(dest_node) = find_node(st, c.dest_node@) {
        if let Some(dest_prop) = find_prop(st, c.dest_node@, c.dest_prop@) {
            lemma_resolve_source_wf(st, c.source, dest_node);
            if let Ok((s1, source_prop)) = resolve_source(st, c.source, dest_node) {
                if let Ok(s) = constraint_step(st, c) {
                    assert(refs_wf(s.nodes, s.properties, s.derivations, s.edges)) by {
                        assert forall|e: int| 0 <= e < s.edges.len() implies crate::model::types::edge_refs_valid(
                            #[trigger] s.edges[e],
                            s.nodes.len(),
                            s.properties.len(),
                            s.derivations.len(),
                        ) by {
                            if e < s1.edges.len() {
                                assert(s.edges[e] == s1.edges[e]);
                            }
                        }
                    }
                }
            }
        }
    }
}

proof fn lemma_process_constraints_wf(st: BuildState, cs: Seq<AstConstraint>, n: nat)
    requires
        state_wf(st),
    ensures
        process_constraints(st, cs, n) matches Ok(s) ==> resolve_frame(st, s),
    decreases n,
{
    if n > 0 && n <= cs.len() {
        lemma_process_constraints_wf(st, cs, (n - 1) as nat);
        if let Ok(s) = process_constraints(st, cs, (n - 1) as nat) {
            lemma_constraint_step_wf(s, cs[n - 1]);
        }
    }
}

/// Construction, when it succeeds, gives a well-formed state.
proof fn lemma_construct_wf(ast: AstGraph)
    ensures
        construct(ast) matches Ok(st) ==> state_wf(st),
{
    let st0 = empty_state();
    lemma_alloc_domains_wf(st0, ast.domains@, ast.domains@.len());
    if let Ok(s1) = alloc_domains(st0, ast.domains@, ast.domains@.len()) {
        lemma_alloc_top_nodes_wf(s1, ast.nodes@, ast.nodes@.len());
        if let Ok(s2) = alloc_top_nodes(s1, ast.nodes@, ast.nodes@.len()) {
            lemma_process_links_wf(s2, ast.links@, ast.links@.len());
            if let Ok(s3) = process_links(s2, ast.links@, ast.links@.len()) {
                lemma_process_constraints_wf(s3, ast.constraints@, ast.constraints@.len());
            }
        }
    }
}

proof fn lemma_parent_link_none(edges: Seq<EdgeView>, node: NodeId, n: nat)
    requires
        n <= edges.len(),
        parent_link(edges, node, n) is None,
    ensures
        forall|k: int| 0 <= k < n && (#[trigger] edges[k]) is Link ==> edges[k]->child != node,
    decreases n,
{
    if n > 0 {
        lemma_parent_link_none(edges, node, (n - 1) as nat);
    }
}

proof fn lemma_process_links_single_parent(st: BuildState, links: Seq<AstLink>, n: nat)
    requires
        single_parent(st.edges),
    ensures
        process_links(st, links, n) matches Ok(s) ==> single_parent(s.edges),
    decreases n,
{
    if n > 0 && n <= links.len() {
        lemma_process_links_single_parent(st, links, (n - 1) as nat);
        if let Ok(s) = process_links(st, links, (n - 1) as nat) {
            if let Ok(s2) = link_step(s, links[n - 1]) {
                let child = find_node(s, links[n - 1].child_ident@).unwrap();
                lemma_parent_link_none(s.edges, child, s.edges.len());
                assert forall|i: int, j: int|
                    0 <= i < j < s2.edges.len() && (#[trigger] s2.edges[i]) is Link && (
                    #[trigger] s2.edges[j]) is Link implies s2.edges[i]->child != s2.edges[j]->child by {
                    if j < s.edges.len() {
                        assert(s2.edges[i] == s.edges[i]);
                        assert(s2.edges[j] == s.edges[j]);
                    } else {
                        assert(s2.edges[i] == s.edges[i]);
                    }
                }
            }
        }
    }
}

proof fn lemma_process_constraints_single_parent(st: BuildState, cs: Seq<AstConstraint>, n: nat)
    requires
        state_wf(st),
        single_parent(st.edges),
    ensures
        process_constraints(st, cs, n) matches Ok(s) ==> single_parent(s.edges),
    decreases n,
{
    if n > 0 && n <= cs.len() {
        lemma_process_constraints_single_parent(st, cs, (n - 1) as nat);
        lemma_process_constraints_wf(st, cs, (n - 1) as nat);
        if let Ok(s) = process_constraints(st, cs, (n - 1) as nat) {
            lemma_constraint_step_wf(s, cs[n - 1]);
            if let Ok(s2) = constraint_step(s, cs[n - 1]) {
                assert forall|i: int, j: int|
                    0 <= i < j < s2.edges.len() && (#[trigger] s2.edges[i]) is Link && (
                    #[trigger] s2.edges[j]) is Link implies s2.edges[i]->child != s2.edges[j]->child by {
                    assert(j < s.edges.len());
                    assert(s2.edges[i] == s.edges[i]);
                    assert(s2.edges[j] == s.edges[j]);
                }
            }
        }
    }
}

/// Every node that construction accepts has at most one parent.
pub proof fn lemma_construct_single_parent(ast: AstGraph)
    ensures
        construct(ast) matches Ok(st) ==> single_parent(st.edges),
{
    let st0 = empty_state();
    lemma_alloc_domains_wf(st0, ast.domains@, ast.domains@.len());
    if let Ok(s1) = alloc_domains(st0, ast.domains@, ast.domains@.len()) {
        lemma_alloc_top_nodes_wf(s1, ast.nodes@, ast.nodes@.len());
        if let Ok(s2) = alloc_top_nodes(s1, ast.nodes@, ast.nodes@.len()) {
            assert(s2.edges.len() == 0);
            lemma_process_links_single_parent(s2, ast.links@, ast.links@.len());
            lemma_process_links_wf(s2, ast.links@, ast.links@.len());
            if let Ok(s3) = process_links(s2, ast.links@, ast.links@.len()) {
                lemma_process_constraints_single_parent(s3, ast.constraints@, ast.constraints@.len());
            }
        }
    }
}

/// Build a validated graph from a parsed syntax tree.
///
/// Allocates the nodes, properties, derivations and domains, resolves every
/// node and property reference, shares equal derivation expressions, builds
/// the adjacency indices, and runs validation. Gives the graph, or the first
/// error met.
pub fn build(ast: AstGraph) -> (r: Result<Graph, ObgraphError>)
    ensures
        match construct(ast) {
            Err(e) => r matches Err(x) && error_text(x) == error_message(e),
            Ok(st) => match validation_error(st.nodes, st.properties, st.derivations, st.edges) {
                Some(e) => r matches Err(x) && error_text(x) == error_message(e),
                None => r matches Ok(g) && graph_of(g, st) && g.wf(),
            },
        },
        r matches Ok(g) ==> single_parent(edge_views(g.edges@)),
        r matches Ok(g) ==> graph_validation_error(g) is None,
        r matches Ok(g) ==> node_idents(node_views(g.nodes@)) == declared_idents(ast),
        r matches Ok(g) ==> members_in_domain(node_views(g.nodes@), domain_views(g.domains@)),
        r matches Ok(g) ==> nodes_listed(node_views(g.nodes@), domain_views(g.domains@)),
{
    let g = match construct_graph(&ast) {
        Ok(g) => g,
        Err(e) => {
            return Err(validation_error_of(&e));
        },
    };
    proof {
        lemma_construct_wf(ast);
        lemma_construct_single_parent(ast);
        lemma_construct_node_order(ast);
        lemma_construct_member_domains(ast);
        lemma_construct_nodes_listed(ast);
    }
    match check_rules(&g) {
        Ok(()) => Ok(g),
        Err(e) => Err(validation_error_of(&e)),
    }
}

/// Allocating nodes and properties leaves links, derivations and domains
/// as they were, and only adds nodes.
pub open spec fn decl_frame(s: BuildState, s2: BuildState) -> bool {
    &&& s2.edges == s.edges
    &&& s2.derivations == s.derivations
    &&& s2.keys == s.keys
    &&& s2.domains == s.domains
    &&& s2.nodes.len() >= s.nodes.len()
}

proof fn lemma_alloc_props_frame(st: BuildState, nid: NodeId, node: AstNode, n: nat)
    requires
        nid.0 < st.nodes.len(),
    ensures
        alloc_props(st, nid, node, n) matches Ok(s2) ==> decl_frame(st, s2) && s2.nodes.len()
            == st.nodes.len(),
    decreases n,
{
    if n > 0 && n <= node.properties@.len() {
        lemma_alloc_props_frame(st, nid, node, (n - 1) as nat);
    }
}

proof fn lemma_alloc_decl_frame(st: BuildState, node: AstNode, domain: Option<DomainId>)
    ensures
        alloc_decl(st, node, domain) matches Ok((s2, _)) ==> decl_frame(st, s2) && s2.nodes.len()
            == st.nodes.len() + 1,
{
    if let Ok((s, nid)) = alloc_node(st, node, domain) {
        lemma_alloc_props_frame(s, nid, node, node.properties@.len());
    }
}

pub proof fn lemma_lookup_node_bound(nodes: Seq<NodeView>, ident: Seq<char>, n: nat)
    requires
        nodes.len() <= u32::MAX,
    ensures
        lookup_node(nodes, ident, n) matches Some(id) ==> id.0 < n && id.0 < nodes.len()
            && nodes[id.0 as int].ident == ident,
    decreases n,
{
    if n > 0 && n <= nodes.len() {
        lemma_lookup_node_bound(nodes, ident, (n - 1) as nat);
    }
}

// ---------------------------------------------------------------------------
// Node identifiers stay distinct
// ---------------------------------------------------------------------------

/// Node identifiers are positions, no two nodes share an identifier, and
/// looking an identifier up finds the node at its own position.
pub open spec fn nodes_indexed(nodes: Seq<NodeView>) -> bool {
    &&& nodes.len() <= u32::MAX
    &&& forall|i: int| 0 <= i < nodes.len() ==> (#[trigger] nodes[i]).id == NodeId(i as u32)
    &&& forall|i: int|
        0 <= i < nodes.len() ==> lookup_node(nodes, (#[trigger] nodes[i]).ident, nodes.len()) == Some(
            NodeId(i as u32),
        )
}

/// Lookups among the first `m` nodes depend only on their identifiers.
proof fn lemma_lookup_node_prefix(a: Seq<NodeView>, b: Seq<NodeView>, ident: Seq<char>, m: nat)
    requires
        m <= a.len(),
        m <= b.len(),
        forall|i: int| 0 <= i < m ==> #[trigger] a[i].ident == b[i].ident,
    ensures
        lookup_node(a, ident, m) == lookup_node(b, ident, m),
    decreases m,
{
    if m > 0 {
        lemma_lookup_node_prefix(a, b, ident, (m - 1) as nat);
        assert(a[m - 1].ident == b[m - 1].ident);
    }
}

/// Nodes with the same identifiers and ids as indexed ones are indexed.
proof fn lemma_nodes_indexed_same(a: Seq<NodeView>, b: Seq<NodeView>)
    requires
        nodes_indexed(a),
        a.len() == b.len(),
        forall|i: int| 0 <= i < a.len() ==> #[trigger] a[i].ident == b[i].ident && a[i].id == b[i].id,
    ensures
        nodes_indexed(b),
{
    assert forall|i: int| 0 <= i < b.len() implies lookup_node(b, (#[trigger] b[i]).ident, b.len())
        == Some(NodeId(i as u32)) by {
        assert(a[i].ident == b[i].ident);
        lemma_lookup_node_prefix(a, b, a[i].ident, a.len());
    }
    assert forall|i: int| 0 <= i < b.len() implies (#[trigger] b[i]).id == NodeId(i as u32) by {
        assert(a[i].id == b[i].id);
    }
}

/// Allocating a node keeps identifiers distinct and found at their own
/// positions, and the new node is found under its identifier. (When it
/// fails, the builder is left as it was.)
pub proof fn lemma_alloc_node_indexed(st: BuildState, node: AstNode, domain: Option<DomainId>)
    requires
        nodes_indexed(st.nodes),
    ensures
        alloc_node(st, node, domain) matches Ok((s, id)) ==> nodes_indexed(s.nodes) && find_node(
            s,
            node.ident@,
        ) == Some(id),
{
    if let Ok((s, id)) = alloc_node(st, node, domain) {
        let n = st.nodes.len();
        let a = st.nodes;
        let b = s.nodes;
        assert(b == a.push(b[n as int]));
        assert forall|i: int| 0 <= i < b.len() implies lookup_node(b, (#[trigger] b[i]).ident, b.len())
            == Some(NodeId(i as u32)) by {
            lemma_lookup_node_prefix(a, b, b[i].ident, n);
            if i < n {
                assert(b[i] == a[i]);
            }
        }
        lemma_lookup_node_prefix(a, b, node.ident@, n);
    }
}

proof fn lemma_alloc_props_indexed(st: BuildState, nid: NodeId, node: AstNode, n: nat)
    requires
        nodes_indexed(st.nodes),
        nid.0 < st.nodes.len(),
    ensures
        alloc_props(st, nid, node, n) matches Ok(s) ==> nodes_indexed(s.nodes) && s.nodes.len()
            == st.nodes.len() && forall|i: int| 0 <= i < st.nodes.len() ==> #[trigger] s.nodes[i].ident
            == st.nodes[i].ident,
    decreases n,
{
    if n > 0 && n <= node.properties@.len() {
        lemma_alloc_props_indexed(st, nid, node, (n - 1) as nat);
        if let Ok(s) = alloc_props(st, nid, node, (n - 1) as nat) {
            if let Ok(s2) = alloc_property(s, nid, node.ident, node.properties@[n - 1]) {
                assert forall|i: int| 0 <= i < s.nodes.len() implies #[trigger] s.nodes[i].ident
                    == s2.nodes[i].ident && s.nodes[i].id == s2.nodes[i].id by {}
                lemma_nodes_indexed_same(s.nodes, s2.nodes);
                assert forall|i: int| 0 <= i < st.nodes.len() implies #[trigger] s2.nodes[i].ident
                    == st.nodes[i].ident by {
                    assert(s.nodes[i].ident == st.nodes[i].ident);
                }
            }
        }
    }
}

proof fn lemma_alloc_decl_indexed(st: BuildState, node: AstNode, domain: Option<DomainId>)
    requires
        nodes_indexed(st.nodes),
    ensures
        alloc_decl(st, node, domain) matches Ok((s, _)) ==> nodes_indexed(s.nodes),
{
    lemma_alloc_node_indexed(st, node, domain);
    if let Ok((s, nid)) = alloc_node(st, node, domain) {
        lemma_alloc_props_indexed(s, nid, node, node.properties@.len());
    }
}

proof fn lemma_alloc_members_indexed(st: BuildState, nodes: Seq<AstNode>, d: DomainId, n: nat)
    requires
        nodes_indexed(st.nodes),
    ensures
        alloc_members(st, nodes, d, n) matches Ok((s, _)) ==> nodes_indexed(s.nodes),
    decreases n,
{
    if n > 0 && n <= nodes.len() {
        lemma_alloc_members_indexed(st, nodes, d, (n - 1) as nat);
        if let Ok((s, _)) = alloc_members(st, nodes, d, (n - 1) as nat) {
            lemma_alloc_decl_indexed(s, nodes[n - 1], Some(d));
        }
    }
}

proof fn lemma_alloc_domains_indexed(st: BuildState, doms: Seq<AstDomain>, n: nat)
    requires
        nodes_indexed(st.nodes),
    ensures
        alloc_domains(st, doms, n) matches Ok(s) ==> nodes_indexed(s.nodes),
    decreases n,
{
    if n > 0 && n <= doms.len() {
        lemma_alloc_domains_indexed(st, doms, (n - 1) as nat);
        if let Ok(s) = alloc_domains(st, doms, (n - 1) as nat) {
            let dom = doms[n - 1];
            if has_room(s.domains.len()) {
                lemma_alloc_members_indexed(
                    s,
                    dom.nodes@,
                    DomainId(s.domains.len() as u32),
                    dom.nodes@.len(),
                );
            }
        }
    }
}

proof fn lemma_alloc_top_nodes_indexed(st: BuildState, nodes: Seq<AstNode>, n: nat)
    requires
        nodes_indexed(st.nodes),
    ensures
        alloc_top_nodes(st, nodes, n) matches Ok(s) ==> nodes_indexed(s.nodes),
    decreases n,
{
    if n > 0 && n <= nodes.len() {
        lemma_alloc_top_nodes_indexed(st, nodes, (n - 1) as nat);
        if let Ok(s) = alloc_top_nodes(st, nodes, (n - 1) as nat) {
            lemma_alloc_decl_indexed(s, nodes[n - 1], None);
        }
    }
}

proof fn lemma_process_links_nodes(st: BuildState, links: Seq<AstLink>, n: nat)
    ensures
        process_links(st, links, n) matches Ok(s) ==> s.nodes == st.nodes && s.domains == st.domains,
    decreases n,
{
    if n > 0 && n <= links.len() {
        lemma_process_links_nodes(st, links, (n - 1) as nat);
    }
}

proof fn lemma_resolve_source_nodes(st: BuildState, src: AstSourceExpr, dest: NodeId)
    ensures
        resolve_source(st, src, dest) matches Ok((s, _)) ==> s.nodes == st.nodes && s.domains == st.domains,
    decreases src, 0nat,
{
    if let AstSourceExpr::Derivation(d) = src {
        lemma_ensure_derivation_nodes(st, d, dest);
    }
}

proof fn lemma_ensure_derivation_nodes(st: BuildState, expr: AstDerivationExpr, dest: NodeId)
    ensures
        ensure_derivation(st, expr, dest) matches Ok((s, _)) ==> s.nodes == st.nodes && s.domains == st.domains,
    decreases expr, 0nat,
{
    if find_key(st.keys, deriv_view(expr), st.keys.len()) is None {
        assert(decreases_to!(expr => expr.args));
        assert(decreases_to!(expr.args => expr.args@));
        lemma_resolve_args_nodes(st, expr.args@, dest, expr.args@.len());
    }
}

proof fn lemma_resolve_args_nodes(st: BuildState, args: Seq<AstSourceExpr>, dest: NodeId, n: nat)
    ensures
        resolve_args(st, args, dest, n) matches Ok((s, _)) ==> s.nodes == st.nodes && s.domains == st.domains,
    decreases args, n,
{
    if n > 0 && n <= args.len() {
        lemma_resolve_args_nodes(st, args, dest, (n - 1) as nat);
        if let Ok((s, _)) = resolve_args(st, args, dest, (n - 1) as nat) {
            lemma_resolve_source_nodes(s, args[n - 1], dest);
        }
    }
}

proof fn lemma_process_constraints_nodes(st: BuildState, cs: Seq<AstConstraint>, n: nat)
    ensures
        process_constraints(st, cs, n) matches Ok(s) ==> s.nodes == st.nodes && s.domains == st.domains,
    decreases n,
{
    if n > 0 && n <= cs.len() {
        lemma_process_constraints_nodes(st, cs, (n - 1) as nat);
        if let Ok(s) = process_constraints(st, cs, (n - 1) as nat) {
            if let Some(dn) = find_node(s, cs[n - 1].dest_node@) {
                lemma_resolve_source_nodes(s, cs[n - 1].source, dn);
            }
        }
    }
}

/// In every state that construction reaches, node identifiers are distinct
/// and each is found at its own position.
pub proof fn lemma_construct_nodes_indexed(ast: AstGraph)
    ensures
        construct(ast) matches Ok(st) ==> nodes_indexed(st.nodes),
{
    let st0 = empty_state();
    lemma_alloc_domains_indexed(st0, ast.domains@, ast.domains@.len());
    if let Ok(s1) = alloc_domains(st0, ast.domains@, ast.domains@.len()) {
        lemma_alloc_top_nodes_indexed(s1, ast.nodes@, ast.nodes@.len());
        if let Ok(s2) = alloc_top_nodes(s1, ast.nodes@, ast.nodes@.len()) {
            lemma_process_links_nodes(s2, ast.links@, ast.links@.len());
            if let Ok(s3) = process_links(s2, ast.links@, ast.links@.len()) {
                lemma_process_constraints_nodes(s3, ast.constraints@, ast.constraints@.len());
            }
        }
    }
}

// ---------------------------------------------------------------------------
// Nodes come in declaration order
// ---------------------------------------------------------------------------

pub open spec fn node_idents(nodes: Seq<NodeView>) -> Seq<Seq<char>> {
    nodes.map_values(|n: NodeView| n.ident)
}

/// The identifiers of the first `n` node declarations.
pub open spec fn decl_idents(nodes: Seq<AstNode>, n: nat) -> Seq<Seq<char>>
    decreases n,
{
    if n == 0 || n > nodes.len() {
        Seq::empty()
    } else {
        decl_idents(nodes, (n - 1) as nat).push(nodes[n - 1].ident@)
    }
}

/// The identifiers of the members of the first `n` domains, domain by
/// domain.
pub open spec fn domain_idents(doms: Seq<AstDomain>, n: nat) -> Seq<Seq<char>>
    decreases n,
{
    if n == 0 || n > doms.len() {
        Seq::empty()
    } else {
        domain_idents(doms, (n - 1) as nat) + decl_idents(doms[n - 1].nodes@, doms[n - 1].nodes@.len())
    }
}

/// The identifiers that `ast` declares: the members of each domain in turn,
/// then the top-level nodes, each list in declaration order.
pub open spec fn declared_idents(ast: AstGraph) -> Seq<Seq<char>> {
    domain_idents(ast.domains@, ast.domains@.len()) + decl_idents(ast.nodes@, ast.nodes@.len())
}

proof fn lemma_alloc_props_idents(st: BuildState, nid: NodeId, node: AstNode, n: nat)
    requires
        nid.0 < st.nodes.len(),
    ensures
        alloc_props(st, nid, node, n) matches Ok(s) ==> node_idents(s.nodes) == node_idents(st.nodes),
    decreases n,
{
    if n > 0 && n <= node.properties@.len() {
        lemma_alloc_props_idents(st, nid, node, (n - 1) as nat);
        if let Ok(s) = alloc_props(st, nid, node, (n - 1) as nat) {
            if let Ok(s2) = alloc_property(s, nid, node.ident, node.properties@[n - 1]) {
                assert(node_idents(s2.nodes) =~= node_idents(s.nodes));
            }
        }
    }
}

proof fn lemma_alloc_decl_idents(st: BuildState, node: AstNode, domain: Option<DomainId>)
    ensures
        alloc_decl(st, node, domain) matches Ok((s, _)) ==> node_idents(s.nodes) == node_idents(
            st.nodes,
        ).push(node.ident@),
{
    if let Ok((s, nid)) = alloc_node(st, node, domain) {
        assert(node_idents(s.nodes) =~= node_idents(st.nodes).push(node.ident@));
        lemma_alloc_props_idents(s, nid, node, node.properties@.len());
    }
}

proof fn lemma_alloc_members_idents(st: BuildState, nodes: Seq<AstNode>, d: DomainId, n: nat)
    ensures
        n <= nodes.len() ==> (alloc_members(st, nodes, d, n) matches Ok((s, _)) ==> node_idents(s.nodes)
            == node_idents(st.nodes) + decl_idents(nodes, n)),
    decreases n,
{
    if n == 0 {
        assert(node_idents(st.nodes) + decl_idents(nodes, 0) =~= node_idents(st.nodes));
    } else if n <= nodes.len() {
        lemma_alloc_members_idents(st, nodes, d, (n - 1) as nat);
        if let Ok((s, _)) = alloc_members(st, nodes, d, (n - 1) as nat) {
            lemma_alloc_decl_idents(s, nodes[n - 1], Some(d));
            assert(node_idents(st.nodes) + decl_idents(nodes, (n - 1) as nat).push(nodes[n - 1].ident@)
                =~= (node_idents(st.nodes) + decl_idents(nodes, (n - 1) as nat)).push(nodes[n - 1].ident@));
        }
    }
}

proof fn lemma_alloc_domains_idents(st: BuildState, doms: Seq<AstDomain>, n: nat)
    ensures
        n <= doms.len() ==> (alloc_domains(st, doms, n) matches Ok(s) ==> node_idents(s.nodes)
            == node_idents(st.nodes) + domain_idents(doms, n)),
    decreases n,
{
    if n == 0 {
        assert(node_idents(st.nodes) + domain_idents(doms, 0) =~= node_idents(st.nodes));
    } else if n <= doms.len() {
        lemma_alloc_domains_idents(st, doms, (n - 1) as nat);
        if let Ok(s) = alloc_domains(st, doms, (n - 1) as nat) {
            let dom = doms[n - 1];
            if has_room(s.domains.len()) {
                lemma_alloc_members_idents(s, dom.nodes@, DomainId(s.domains.len() as u32), dom.nodes@.len());
            }
            assert(node_idents(st.nodes) + domain_idents(doms, (n - 1) as nat) + decl_idents(
                dom.nodes@,
                dom.nodes@.len(),
            ) =~= node_idents(st.nodes) + domain_idents(doms, n));
        }
    }
}

proof fn lemma_alloc_top_nodes_idents(st: BuildState, nodes: Seq<AstNode>, n: nat)
    ensures
        n <= nodes.len() ==> (alloc_top_nodes(st, nodes, n) matches Ok(s) ==> node_idents(s.nodes)
            == node_idents(st.nodes) + decl_idents(nodes, n)),
    decreases n,
{
    if n == 0 {
        assert(node_idents(st.nodes) + decl_idents(nodes, 0) =~= node_idents(st.nodes));
    } else if n <= nodes.len() {
        lemma_alloc_top_nodes_idents(st, nodes, (n - 1) as nat);
        if let Ok(s) = alloc_top_nodes(st, nodes, (n - 1) as nat) {
            lemma_alloc_decl_idents(s, nodes[n - 1], None);
            assert(node_idents(st.nodes) + decl_idents(nodes, (n - 1) as nat).push(nodes[n - 1].ident@)
                =~= (node_idents(st.nodes) + decl_idents(nodes, (n - 1) as nat)).push(nodes[n - 1].ident@));
        }
    }
}

/// Construction lists the nodes in declaration order: the members of each
/// domain in turn, then the top-level nodes.
pub proof fn lemma_construct_node_order(ast: AstGraph)
    ensures
        construct(ast) matches Ok(st) ==> node_idents(st.nodes) == declared_idents(ast),
{
    let st0 = empty_state();
    lemma_alloc_domains_idents(st0, ast.domains@, ast.domains@.len());
    if let Ok(s1) = alloc_domains(st0, ast.domains@, ast.domains@.len()) {
        lemma_alloc_top_nodes_idents(s1, ast.nodes@, ast.nodes@.len());
        if let Ok(s2) = alloc_top_nodes(s1, ast.nodes@, ast.nodes@.len()) {
            lemma_process_links_nodes(s2, ast.links@, ast.links@.len());
            if let Ok(s3) = process_links(s2, ast.links@, ast.links@.len()) {
                lemma_process_constraints_nodes(s3, ast.constraints@, ast.constraints@.len());
            }
        }
        assert(node_idents(st0.nodes) + domain_idents(ast.domains@, ast.domains@.len())
            =~= domain_idents(ast.domains@, ast.domains@.len()));
    }
}

// ---------------------------------------------------------------------------
// A node's domain is the domain that lists it
// ---------------------------------------------------------------------------

/// Every member of domain `d` names a node whose domain is `d`.
pub open spec fn members_in_domain(nodes: Seq<NodeView>, domains: Seq<DomainView>) -> bool {
    forall|d: int, m: int|
        0 <= d < domains.len() && 0 <= m < domains[d].members.len() ==> {
            let id = #[trigger] domains[d].members[m];
            &&& id.0 < nodes.len()
            &&& nodes[id.0 as int].domain == Some(DomainId(d as u32))
        }
}

/// `s` keeps the nodes of `st` with their domains, and may add more.
pub open spec fn keeps_node_domains(st: BuildState, s: BuildState) -> bool {
    &&& s.nodes.len() >= st.nodes.len()
    &&& forall|i: int| 0 <= i < st.nodes.len() ==> #[trigger] s.nodes[i].domain == st.nodes[i].domain
}

proof fn lemma_members_kept(st: BuildState, s: BuildState)
    requires
        members_in_domain(st.nodes, st.domains),
        keeps_node_domains(st, s),
        s.domains == st.domains,
    ensures
        members_in_domain(s.nodes, s.domains),
{
    assert forall|d: int, m: int|
        0 <= d < s.domains.len() && 0 <= m < s.domains[d].members.len() implies {
            let id = #[trigger] s.domains[d].members[m];
            &&& id.0 < s.nodes.len()
            &&& s.nodes[id.0 as int].domain == Some(DomainId(d as u32))
        } by {
        let id = st.domains[d].members[m];
        assert(s.nodes[id.0 as int].domain == st.nodes[id.0 as int].domain);
    }
}

proof fn lemma_alloc_props_domains(st: BuildState, nid: NodeId, node: AstNode, n: nat)
    requires
        nid.0 < st.nodes.len(),
    ensures
        alloc_props(st, nid, node, n) matches Ok(s) ==> s.domains == st.domains && s.nodes.len()
            == st.nodes.len() && keeps_node_domains(st, s),
    decreases n,
{
    if n > 0 && n <= node.properties@.len() {
        lemma_alloc_props_domains(st, nid, node, (n - 1) as nat);
        if let Ok(s) = alloc_props(st, nid, node, (n - 1) as nat) {
            if let Ok(s2) = alloc_property(s, nid, node.ident, node.properties@[n - 1]) {
                assert forall|i: int| 0 <= i < st.nodes.len() implies #[trigger] s2.nodes[i].domain
                    == st.nodes[i].domain by {
                    assert(s2.nodes[i].domain == s.nodes[i].domain);
                }
            }
        }
    }
}

proof fn lemma_alloc_decl_domains(st: BuildState, node: AstNode, domain: Option<DomainId>)
    ensures
        alloc_decl(st, node, domain) matches Ok((s, nid)) ==> {
            &&& s.domains == st.domains
            &&& keeps_node_domains(st, s)
            &&& nid.0 < s.nodes.len()
            &&& nid.0 == st.nodes.len()
            &&& s.nodes.len() == st.nodes.len() + 1
            &&& s.nodes[nid.0 as int].domain == domain
        },
{
    if let Ok((s1, nid)) = alloc_node(st, node, domain) {
        lemma_alloc_props_domains(s1, nid, node, node.properties@.len());
        if let Ok(s2) = alloc_props(s1, nid, node, node.properties@.len()) {
            assert(s2.nodes[nid.0 as int].domain == s1.nodes[nid.0 as int].domain);
            assert forall|i: int| 0 <= i < st.nodes.len() implies #[trigger] s2.nodes[i].domain
                == st.nodes[i].domain by {
                assert(s2.nodes[i].domain == s1.nodes[i].domain);
                assert(s1.nodes[i] == st.nodes[i]);
            }
        }
    }
}

proof fn lemma_alloc_members_domains(st: BuildState, nodes: Seq<AstNode>, d: DomainId, n: nat)
    ensures
        n <= nodes.len() ==> (alloc_members(st, nodes, d, n) matches Ok((s, ids)) ==> {
            &&& s.domains == st.domains
            &&& keeps_node_domains(st, s)
            &&& ids.len() == n
            &&& s.nodes.len() == st.nodes.len() + n
            &&& forall|k: int| 0 <= k < n ==> {
                let id = #[trigger] ids[k];
                &&& id.0 < s.nodes.len()
                &&& id.0 == st.nodes.len() + k
                &&& s.nodes[id.0 as int].domain == Some(d)
            }
        }),
    decreases n,
{
    if n > 0 && n <= nodes.len() {
        lemma_alloc_members_domains(st, nodes, d, (n - 1) as nat);
        if let Ok((s, ids)) = alloc_members(st, nodes, d, (n - 1) as nat) {
            lemma_alloc_decl_domains(s, nodes[n - 1], Some(d));
            if let Ok((s2, nid)) = alloc_decl(s, nodes[n - 1], Some(d)) {
                let ids2 = ids.push(nid);
                assert forall|k: int| 0 <= k < n implies {
                    let id = #[trigger] ids2[k];
                    &&& id.0 < s2.nodes.len()
                    &&& id.0 == st.nodes.len() + k
                    &&& s2.nodes[id.0 as int].domain == Some(d)
                } by {
                    if k < n - 1 {
                        assert(ids2[k] == ids[k]);
                        assert(s2.nodes[ids[k].0 as int].domain == s.nodes[ids[k].0 as int].domain);
                    }
                }
                assert forall|i: int| 0 <= i < st.nodes.len() implies #[trigger] s2.nodes[i].domain
                    == st.nodes[i].domain by {
                    assert(s2.nodes[i].domain == s.nodes[i].domain);
                }
            }
        }
    }
}

proof fn lemma_alloc_domains_members(st: BuildState, doms: Seq<AstDomain>, n: nat)
    requires
        members_in_domain(st.nodes, st.domains),
    ensures
        alloc_domains(st, doms, n) matches Ok(s) ==> members_in_domain(s.nodes, s.domains),
    decreases n,
{
    if n > 0 && n <= doms.len() {
        lemma_alloc_domains_members(st, doms, (n - 1) as nat);
        if let Ok(s) = alloc_domains(st, doms, (n - 1) as nat) {
            let dom = doms[n - 1];
            if has_room(s.domains.len()) {
                let did = DomainId(s.domains.len() as u32);
                lemma_alloc_members_domains(s, dom.nodes@, did, dom.nodes@.len());
                if let Ok((s1, members)) = alloc_members(s, dom.nodes@, did, dom.nodes@.len()) {
                    lemma_members_kept(s, s1);
                    let s2 = alloc_domain(s, dom).unwrap();
                    assert(s2.nodes == s1.nodes);
                    assert(s2.domains == s1.domains.push(
                        DomainView { id: did, display_name: dom.display_name@, members },
                    ));
                    assert forall|d: int, m: int|
                        0 <= d < s2.domains.len() && 0 <= m < s2.domains[d].members.len() implies {
                            let id = #[trigger] s2.domains[d].members[m];
                            &&& id.0 < s2.nodes.len()
                            &&& s2.nodes[id.0 as int].domain == Some(DomainId(d as u32))
                        } by {
                        if d < s1.domains.len() {
                            assert(s2.domains[d] == s1.domains[d]);
                        } else {
                            assert(s2.domains[d].members == members);
                            assert(members[m] == s2.domains[d].members[m]);
                        }
                    }
                }
            }
        }
    }
}

proof fn lemma_alloc_top_nodes_members(st: BuildState, nodes: Seq<AstNode>, n: nat)
    requires
        members_in_domain(st.nodes, st.domains),
    ensures
        alloc_top_nodes(st, nodes, n) matches Ok(s) ==> members_in_domain(s.nodes, s.domains),
    decreases n,
{
    if n > 0 && n <= nodes.len() {
        lemma_alloc_top_nodes_members(st, nodes, (n - 1) as nat);
        if let Ok(s) = alloc_top_nodes(st, nodes, (n - 1) as nat) {
            lemma_alloc_decl_domains(s, nodes[n - 1], None);
            if let Ok((s2, _)) = alloc_decl(s, nodes[n - 1], None) {
                lemma_members_kept(s, s2);
            }
        }
    }
}

/// In every graph that construction gives, a node listed as a member of
/// domain `d` has `d` as its domain.
pub proof fn lemma_construct_member_domains(ast: AstGraph)
    ensures
        construct(ast) matches Ok(st) ==> members_in_domain(st.nodes, st.domains),
{
    let st0 = empty_state();
    lemma_alloc_domains_members(st0, ast.domains@, ast.domains@.len());
    if let Ok(s1) = alloc_domains(st0, ast.domains@, ast.domains@.len()) {
        lemma_alloc_top_nodes_members(s1, ast.nodes@, ast.nodes@.len());
        if let Ok(s2) = alloc_top_nodes(s1, ast.nodes@, ast.nodes@.len()) {
            lemma_process_links_nodes(s2, ast.links@, ast.links@.len());
            if let Ok(s3) = process_links(s2, ast.links@, ast.links@.len()) {
                lemma_process_constraints_nodes(s3, ast.constraints@, ast.constraints@.len());
            }
        }
    }
}

/// Every node that has a domain is listed among that domain's members.
pub open spec fn nodes_listed(nodes: Seq<NodeView>, domains: Seq<DomainView>) -> bool {
    forall|i: int|
        0 <= i < nodes.len() ==> (#[trigger] nodes[i].domain matches Some(d) ==> listed_in(domains, d, i))
}

/// Domain `d` exists and lists node `i` among its members.
pub open spec fn listed_in(domains: Seq<DomainView>, d: DomainId, i: int) -> bool {
    &&& d.0 < domains.len()
    &&& exists|m: int|
        0 <= m < domains[d.0 as int].members.len() && (#[trigger] domains[d.0 as int].members[m]).0 == i
}

proof fn lemma_listed_kept(st: BuildState, s: BuildState)
    requires
        nodes_listed(st.nodes, st.domains),
        keeps_node_domains(st, s),
        s.domains == st.domains,
        forall|i: int| st.nodes.len() <= i < s.nodes.len() ==> #[trigger] s.nodes[i].domain is None,
    ensures
        nodes_listed(s.nodes, s.domains),
{
    assert forall|i: int| 0 <= i < s.nodes.len() implies (#[trigger] s.nodes[i].domain matches Some(d)
        ==> listed_in(s.domains, d, i)) by {
        if i < st.nodes.len() {
            assert(s.nodes[i].domain == st.nodes[i].domain);
        }
    }
}

proof fn lemma_alloc_domains_listed(st: BuildState, doms: Seq<AstDomain>, n: nat)
    requires
        nodes_listed(st.nodes, st.domains),
    ensures
        alloc_domains(st, doms, n) matches Ok(s) ==> nodes_listed(s.nodes, s.domains),
    decreases n,
{
    if n > 0 && n <= doms.len() {
        lemma_alloc_domains_listed(st, doms, (n - 1) as nat);
        if let Ok(s) = alloc_domains(st, doms, (n - 1) as nat) {
            let dom = doms[n - 1];
            if has_room(s.domains.len()) {
                let did = DomainId(s.domains.len() as u32);
                lemma_alloc_members_domains(s, dom.nodes@, did, dom.nodes@.len());
                if let Ok((s1, members)) = alloc_members(s, dom.nodes@, did, dom.nodes@.len()) {
                    let s2 = alloc_domain(s, dom).unwrap();
                    assert(s2.nodes == s1.nodes);
                    assert(s2.domains == s1.domains.push(
                        DomainView { id: did, display_name: dom.display_name@, members },
                    ));
                    assert forall|i: int| 0 <= i < s2.nodes.len() implies (#[trigger] s2.nodes[i].domain matches Some(d)
                        ==> listed_in(s2.domains, d, i)) by {
                        if i < s.nodes.len() {
                            assert(s1.nodes[i].domain == s.nodes[i].domain);
                            assert(s2.nodes[i].domain == s.nodes[i].domain);
                            if let Some(d) = s.nodes[i].domain {
                                assert(d.0 < s.domains.len());
                                let m = choose|m: int|
                                    0 <= m < s.domains[d.0 as int].members.len() && s.domains[d.0 as int].members[m].0 == i;
                                assert(s2.domains[d.0 as int] == s.domains[d.0 as int]);
                                assert(0 <= m < s2.domains[d.0 as int].members.len() && s2.domains[d.0 as int].members[m].0 == i);
                                assert(listed_in(s2.domains, d, i));
                            }
                        } else {
                            let k = i - s.nodes.len();
                            assert(0 <= k < members.len());
                            assert(members[k].0 == s.nodes.len() + k);
                            assert(members[k].0 == i);
                            assert(s2.nodes[i].domain == Some(did));
                            assert(did.0 == s.domains.len());
                            assert(s2.domains[did.0 as int].members == members);
                            assert(0 <= k < s2.domains[did.0 as int].members.len() && s2.domains[did.0 as int].members[k].0 == i);
                            assert(listed_in(s2.domains, did, i));
                        }
                    }
                }
            }
        }
    }
}

proof fn lemma_alloc_top_nodes_listed(st: BuildState, nodes: Seq<AstNode>, n: nat)
    requires
        nodes_listed(st.nodes, st.domains),
    ensures
        alloc_top_nodes(st, nodes, n) matches Ok(s) ==> nodes_listed(s.nodes, s.domains),
    decreases n,
{
    if n > 0 && n <= nodes.len() {
        lemma_alloc_top_nodes_listed(st, nodes, (n - 1) as nat);
        if let Ok(s) = alloc_top_nodes(st, nodes, (n - 1) as nat) {
            lemma_alloc_decl_domains(s, nodes[n - 1], None);
            if let Ok((s2, _)) = alloc_decl(s, nodes[n - 1], None) {
                lemma_listed_kept(s, s2);
            }
        }
    }
}

/// In every graph that construction gives, a node has a domain exactly when
/// that domain lists it: top-level nodes have none.
pub proof fn lemma_construct_nodes_listed(ast: AstGraph)
    ensures
        construct(ast) matches Ok(st) ==> nodes_listed(st.nodes, st.domains),
{
    let st0 = empty_state();
    lemma_alloc_domains_listed(st0, ast.domains@, ast.domains@.len());
    if let Ok(s1) = alloc_domains(st0, ast.domains@, ast.domains@.len()) {
        lemma_alloc_top_nodes_listed(s1, ast.nodes@, ast.nodes@.len());
        if let Ok(s2) = alloc_top_nodes(s1, ast.nodes@, ast.nodes@.len()) {
            lemma_process_links_nodes(s2, ast.links@, ast.links@.len());
            if let Ok(s3) = process_links(s2, ast.links@, ast.links@.len()) {
                lemma_process_constraints_nodes(s3, ast.constraints@, ast.constraints@.len());
            }
        }
    }
}

} // verus!
