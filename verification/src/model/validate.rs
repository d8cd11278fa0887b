//! Validation rules that need the whole graph: constraints on always-trusted
//! properties, anchors into root nodes, nullary derivations, and cycles.
//!
//! Cycles are looked for among the drawn elements, nodes and derivations:
//! an anchor leads from parent to child, a derivation input from the
//! element that owns the input to the derivation, and a constraint from the
//! element that carries its source to the node of its destination. The
//! output property of a derivation is carried by the derivation itself.
use vstd::prelude::*;

use crate::error::{GraphError, ObgraphError, error_message, error_text, validation_error_of};
use crate::model::types::{
    DerivationView, EdgeView, Graph, NodeId, NodeView, PropId, PropertyView, TrustClass, Edge,
    deriv_views, edge_views, node_views, parent_link, prop_views,
};

verus! {

// ---------------------------------------------------------------------------
// The rules, as mathematical statements
// ---------------------------------------------------------------------------

/// The destination of edge `e`, if `e` is a constraint on an always-trusted
/// property.
pub open spec fn always_dest(props: Seq<PropertyView>, e: EdgeView) -> Option<PropId> {
    match e {
        EdgeView::Constraint { dest_prop, .. } => if dest_prop.0 < props.len()
            && props[dest_prop.0 as int].trust == TrustClass::Always {
            Some(dest_prop)
        } else {
            None
        },
        _ => None,
    }
}

/// The first of the first `n` edges that constrains an always-trusted property.
pub open spec fn first_always_constraint(props: Seq<PropertyView>, edges: Seq<EdgeView>, n: nat) -> Option<PropId>
    decreases n,
{
    if n == 0 || n > edges.len() {
        None
    } else {
        match first_always_constraint(props, edges, (n - 1) as nat) {
            Some(p) => Some(p),
            None => always_dest(props, edges[n - 1]),
        }
    }
}

/// The first of the first `n` nodes that is a root and the child of a link.
pub open spec fn first_rooted_child(nodes: Seq<NodeView>, edges: Seq<EdgeView>, n: nat) -> Option<NodeId>
    decreases n,
{
    if n == 0 || n > nodes.len() {
        None
    } else {
        match first_rooted_child(nodes, edges, (n - 1) as nat) {
            Some(x) => Some(x),
            None => {
                let id = NodeId((n - 1) as u32);
                if nodes[n - 1].is_root && parent_link(edges, id, edges.len()) is Some {
                    Some(id)
                } else {
                    None
                }
            },
        }
    }
}

/// The first of the first `n` derivations that has no input.
pub open spec fn first_nullary(derivs: Seq<DerivationView>, n: nat) -> Option<crate::model::types::DerivId>
    decreases n,
{
    if n == 0 || n > derivs.len() {
        None
    } else {
        match first_nullary(derivs, (n - 1) as nat) {
            Some(d) => Some(d),
            None => if derivs[n - 1].inputs.len() == 0 {
                Some(crate::model::types::DerivId((n - 1) as u32))
            } else {
                None
            },
        }
    }
}

/// The element that carries property `p`, looking at the first `k`
/// derivations: the last of them with `p` as output, else the node of `p`.
/// Nodes are elements `0 .. nn`, derivation `d` is element `nn + d`.
pub open spec fn prop_element(nn: nat, props: Seq<PropertyView>, derivs: Seq<DerivationView>, p: PropId, k: nat) -> nat
    decreases k,
{
    if k == 0 || k > derivs.len() {
        if p.0 < props.len() {
            props[p.0 as int].node.0 as nat
        } else {
            0
        }
    } else if derivs[k - 1].output_prop == p {
        nn + (k - 1) as nat
    } else {
        prop_element(nn, props, derivs, p, (k - 1) as nat)
    }
}

pub open spec fn element_of(nn: nat, props: Seq<PropertyView>, derivs: Seq<DerivationView>, p: PropId) -> nat {
    prop_element(nn, props, derivs, p, derivs.len())
}

/// The step between elements that edge `e` makes.
pub open spec fn element_edge(nn: nat, props: Seq<PropertyView>, derivs: Seq<DerivationView>, e: EdgeView) -> (nat, nat) {
    match e {
        EdgeView::Link { child, parent, .. } => (parent.0 as nat, child.0 as nat),
        EdgeView::DerivInput { source_prop, target_deriv } => (
            element_of(nn, props, derivs, source_prop),
            nn + target_deriv.0 as nat,
        ),
        EdgeView::Constraint { dest_prop, source_prop, .. } => (
            element_of(nn, props, derivs, source_prop),
            element_of(nn, props, derivs, dest_prop),
        ),
    }
}

pub open spec fn element_edges(
    nodes: Seq<NodeView>,
    props: Seq<PropertyView>,
    derivs: Seq<DerivationView>,
    edges: Seq<EdgeView>,
) -> Seq<(nat, nat)> {
    Seq::new(edges.len(), |i: int| element_edge(nodes.len(), props, derivs, edges[i]))
}

/// `rank` strictly increases along every step.
pub open spec fn is_ranking(steps: Seq<(nat, nat)>, rank: spec_fn(nat) -> int) -> bool {
    forall|i: int| 0 <= i < steps.len() ==> rank(#[trigger] steps[i].0) < rank(steps[i].1)
}

/// Some step leads from `a` to `b`.
pub open spec fn steps_to(steps: Seq<(nat, nat)>, a: nat, b: nat) -> bool {
    exists|i: int| 0 <= i < steps.len() && steps[i] == (a, b)
}

/// `w` follows the steps: each element of `w` steps to the next one.
pub open spec fn is_walk(steps: Seq<(nat, nat)>, w: Seq<nat>) -> bool {
    forall|k: int| 0 <= k < w.len() - 1 ==> #[trigger] steps_to(steps, w[k], w[k + 1])
}

/// A walk of at least one step that comes back to where it started.
pub open spec fn is_cycle(steps: Seq<(nat, nat)>, w: Seq<nat>) -> bool {
    &&& w.len() >= 2
    &&& is_walk(steps, w)
    &&& w[0] == w[w.len() - 1]
}

pub open spec fn has_cycle(steps: Seq<(nat, nat)>) -> bool {
    exists|w: Seq<nat>| is_cycle(steps, w)
}

/// The first rule that the graph breaks, in the order in which they are
/// checked.
pub open spec fn validation_error(
    nodes: Seq<NodeView>,
    props: Seq<PropertyView>,
    derivs: Seq<DerivationView>,
    edges: Seq<EdgeView>,
) -> Option<GraphError> {
    match first_always_constraint(props, edges, edges.len()) {
        Some(p) => Some(GraphError::ConstraintOnAlwaysProperty { prop: p }),
        None => match first_rooted_child(nodes, edges, nodes.len()) {
            Some(n) => Some(GraphError::RootWithParent { node: n }),
            None => match first_nullary(derivs, derivs.len()) {
                Some(d) => Some(GraphError::NullaryDerivation { deriv: d }),
                None => if nodes.len() + derivs.len() > usize::MAX {
                    Some(GraphError::CapacityExceeded)
                } else if has_cycle(element_edges(nodes, props, derivs, edges)) {
                    Some(GraphError::Cycle)
                } else {
                    None
                },
            },
        },
    }
}

pub open spec fn graph_validation_error(g: Graph) -> Option<GraphError> {
    validation_error(
        node_views(g.nodes@),
        prop_views(g.properties@),
        deriv_views(g.derivations@),
        edge_views(g.edges@),
    )
}

// ---------------------------------------------------------------------------
// Counting and minimum lemmas for the cycle check
// ---------------------------------------------------------------------------

/// The number of entries among the first `n` that are `false`.
pub open spec fn count_false(s: Seq<bool>, n: nat) -> nat
    decreases n,
{
    if n == 0 || n > s.len() {
        0
    } else {
        count_false(s, (n - 1) as nat) + if !s[n - 1] {
            1nat
        } else {
            0nat
        }
    }
}

proof fn lemma_count_set(s: Seq<bool>, i: int, n: nat)
    requires
        0 <= i < s.len(),
        n <= s.len(),
    ensures
        count_false(s.update(i, true), n) + (if i < n && !s[i] {
            1nat
        } else {
            0nat
        }) == count_false(s, n),
    decreases n,
{
    if n > 0 {
        lemma_count_set(s, i, (n - 1) as nat);
    }
}

proof fn lemma_count_zero(s: Seq<bool>, n: nat)
    requires
        n <= s.len(),
        count_false(s, n) == 0,
    ensures
        forall|i: int| 0 <= i < n ==> s[i],
    decreases n,
{
    if n > 0 {
        lemma_count_zero(s, (n - 1) as nat);
    }
}

proof fn lemma_count_pos(s: Seq<bool>, n: nat) -> (w: int)
    requires
        n <= s.len(),
        count_false(s, n) > 0,
    ensures
        0 <= w < n,
        !s[w],
    decreases n,
{
    if !s[n - 1] {
        (n - 1) as int
    } else {
        lemma_count_pos(s, (n - 1) as nat)
    }
}

/// A ranking that grows along every step rules out cycles.
proof fn lemma_ranking_no_cycle(steps: Seq<(nat, nat)>, rank: spec_fn(nat) -> int)
    requires
        is_ranking(steps, rank),
    ensures
        !has_cycle(steps),
{
    assert forall|w: Seq<nat>| !is_cycle(steps, w) by {
        if is_cycle(steps, w) {
            lemma_walk_rank_grows(steps, rank, w, w.len() - 1);
        }
    }
}

proof fn lemma_walk_rank_grows(steps: Seq<(nat, nat)>, rank: spec_fn(nat) -> int, w: Seq<nat>, k: int)
    requires
        is_ranking(steps, rank),
        is_walk(steps, w),
        1 <= k < w.len(),
    ensures
        rank(w[0]) < rank(w[k]),
    decreases k,
{
    assert(steps_to(steps, w[k - 1], w[(k - 1) + 1]));
    assert((k - 1) + 1 == k);
    let i = choose|i: int| 0 <= i < steps.len() && steps[i] == (w[k - 1], w[k]);
    assert(rank(steps[i].0) < rank(steps[i].1));
    if k > 1 {
        lemma_walk_rank_grows(steps, rank, w, k - 1);
    }
}

/// A step into `m` from a stuck element.
pub open spec fn stuck_step(steps: Seq<(nat, nat)>, stuck: spec_fn(nat) -> bool, m: nat) -> int {
    choose|i: int| 0 <= i < steps.len() && steps[i].1 == m && stuck(steps[i].0)
}

pub open spec fn stuck_pred(steps: Seq<(nat, nat)>, stuck: spec_fn(nat) -> bool, m: nat) -> nat {
    steps[stuck_step(steps, stuck, m)].0
}

/// Walking `k` steps backwards from `w` through stuck elements.
pub open spec fn back_walk(steps: Seq<(nat, nat)>, stuck: spec_fn(nat) -> bool, w: nat, k: nat) -> nat
    decreases k,
{
    if k == 0 {
        w
    } else {
        stuck_pred(steps, stuck, back_walk(steps, stuck, w, (k - 1) as nat))
    }
}

proof fn lemma_back_walk(steps: Seq<(nat, nat)>, v: nat, stuck: spec_fn(nat) -> bool, w: nat, k: nat)
    requires
        w < v,
        stuck(w),
        forall|i: int| 0 <= i < steps.len() ==> (#[trigger] steps[i]).0 < v && steps[i].1 < v,
        forall|m: nat|
            m < v && #[trigger] stuck(m) ==> exists|i: int|
                0 <= i < steps.len() && steps[i].1 == m && stuck(steps[i].0),
    ensures
        back_walk(steps, stuck, w, k) < v,
        stuck(back_walk(steps, stuck, w, k)),
        exists|i: int|
            0 <= i < steps.len() && steps[i] == (
                back_walk(steps, stuck, w, k + 1),
                back_walk(steps, stuck, w, k),
            ),
    decreases k,
{
    if k > 0 {
        lemma_back_walk(steps, v, stuck, w, (k - 1) as nat);
    }
    let m = back_walk(steps, stuck, w, k);
    assert(stuck(m));
    let i = stuck_step(steps, stuck, m);
    assert(back_walk(steps, stuck, w, k + 1) == steps[i].0);
    assert(steps[i] == (steps[i].0, steps[i].1));
}

/// `n + 1` numbers below `n` repeat one.
proof fn lemma_pigeonhole(s: Seq<int>, n: nat) -> (r: (int, int))
    requires
        s.len() == n + 1,
        forall|k: int| 0 <= k < s.len() ==> 0 <= #[trigger] s[k] < n,
    ensures
        0 <= r.0 < r.1 < s.len(),
        s[r.0] == s[r.1],
{
    vstd::set_lib::lemma_int_range(0, n as int);
    assert(s.to_set().subset_of(vstd::set_lib::set_int_range(0, n as int))) by {
        assert forall|x: int| s.to_set().contains(x) implies vstd::set_lib::set_int_range(0, n as int).contains(x) by {
            let k = choose|k: int| 0 <= k < s.len() && s[k] == x;
        }
    }
    vstd::set_lib::lemma_len_subset(s.to_set(), vstd::set_lib::set_int_range(0, n as int));
    if s.no_duplicates() {
        s.unique_seq_to_set();
        assert(false);
    }
    let (i, j) = choose|i: int, j: int| 0 <= i < s.len() && 0 <= j < s.len() && i != j && s[i] == s[j];
    if i < j {
        (i, j)
    } else {
        (j, i)
    }
}

/// When every stuck element has a stuck predecessor, the steps have a cycle.
proof fn lemma_stuck_has_cycle(steps: Seq<(nat, nat)>, v: nat, stuck: spec_fn(nat) -> bool, w: nat)
    requires
        w < v,
        stuck(w),
        forall|i: int| 0 <= i < steps.len() ==> (#[trigger] steps[i]).0 < v && steps[i].1 < v,
        forall|m: nat|
            m < v && #[trigger] stuck(m) ==> exists|i: int|
                0 <= i < steps.len() && steps[i].1 == m && stuck(steps[i].0),
    ensures
        has_cycle(steps),
{
    let b = Seq::new(v + 1, |k: int| back_walk(steps, stuck, w, k as nat) as int);
    assert forall|k: int| 0 <= k < b.len() implies 0 <= #[trigger] b[k] < v by {
        lemma_back_walk(steps, v, stuck, w, k as nat);
    }
    let (i, j) = lemma_pigeonhole(b, v);
    let c = Seq::new((j - i + 1) as nat, |t: int| back_walk(steps, stuck, w, (j - t) as nat));
    assert forall|t: int| 0 <= t < c.len() - 1 implies #[trigger] steps_to(steps, c[t], c[t + 1]) by {
        lemma_back_walk(steps, v, stuck, w, (j - t - 1) as nat);
        assert(((j - t - 1) as nat + 1) as nat == (j - t) as nat);
    }
    assert(is_cycle(steps, c));
}

pub open spec fn pair_views(s: Seq<(usize, usize)>) -> Seq<(nat, nat)> {
    s.map_values(|p: (usize, usize)| (p.0 as nat, p.1 as nat))
}

fn false_vec(n: usize) -> (v: Vec<bool>)
    ensures
        v@.len() == n,
        forall|i: int| 0 <= i < n ==> !#[trigger] v@[i],
        count_false(v@, n as nat) == n,
{
    let mut v: Vec<bool> = Vec::new();
    let mut i: usize = 0;
    while i < n
        invariant
            i <= n,
            v@.len() == i,
            forall|j: int| 0 <= j < i ==> !#[trigger] v@[j],
            count_false(v@, i as nat) == i,
        decreases n - i,
    {
        let ghost old_v = v@;
        v.push(false);
        proof {
            assert forall|k: nat| k <= i implies count_false(v@, k) == count_false(old_v, k) by {
                lemma_count_prefix(old_v, v@, k);
            }
        }
        i = i + 1;
    }
    v
}

proof fn lemma_count_prefix(a: Seq<bool>, b: Seq<bool>, k: nat)
    requires
        k <= a.len(),
        k <= b.len(),
        forall|j: int| 0 <= j < k ==> a[j] == b[j],
    ensures
        count_false(a, k) == count_false(b, k),
    decreases k,
{
    if k > 0 {
        lemma_count_prefix(a, b, (k - 1) as nat);
    }
}

/// Marks the elements that some element not yet removed steps into.
fn blocked_elements(v: usize, pairs: &Vec<(usize, usize)>, removed: &Vec<bool>) -> (blocked: Vec<bool>)
    requires
        removed@.len() == v,
        forall|i: int| 0 <= i < pairs@.len() ==> #[trigger] pairs@[i].0 < v && pairs@[i].1 < v,
    ensures
        blocked@.len() == v,
        forall|x: int|
            0 <= x < v ==> (#[trigger] blocked@[x] <==> exists|i: int|
                0 <= i < pairs@.len() && pairs@[i].1 == x && !removed@[pairs@[i].0 as int]),
{
    let ne = pairs.len();
    let mut blocked = false_vec(v);
    let mut j: usize = 0;
    while j < ne
        invariant
            ne == pairs@.len(),
            j <= ne,
            forall|i: int| 0 <= i < pairs@.len() ==> #[trigger] pairs@[i].0 < v && pairs@[i].1 < v,
            removed@.len() == v,
            blocked@.len() == v,
            forall|x: int|
                0 <= x < v ==> (#[trigger] blocked@[x] <==> exists|i: int|
                    0 <= i < j && pairs@[i].1 == x && !removed@[pairs@[i].0 as int]),
        decreases ne - j,
    {
        let (a, b) = pairs[j];
        if !removed[a] {
            blocked.set(b, true);
        }
        proof {
            assert forall|x: int| 0 <= x < v implies (#[trigger] blocked@[x] <==> exists|i: int|
                0 <= i < j + 1 && pairs@[i].1 == x && !removed@[pairs@[i].0 as int]) by {
                if blocked@[x] && !(exists|i: int|
                    0 <= i < j && pairs@[i].1 == x && !removed@[pairs@[i].0 as int]) {
                    assert(pairs@[j as int].1 == x && !removed@[pairs@[j as int].0 as int]);
                }
                if exists|i: int| 0 <= i < j + 1 && pairs@[i].1 == x && !removed@[pairs@[i].0 as int] {
                    let i = choose|i: int|
                        0 <= i < j + 1 && pairs@[i].1 == x && !removed@[pairs@[i].0 as int];
                    if i < j {
                        assert(exists|i: int|
                            0 <= i < j && pairs@[i].1 == x && !removed@[pairs@[i].0 as int]);
                    }
                }
            }
        }
        j = j + 1;
    }
    blocked
}

/// Removes every element that is neither removed nor blocked, giving it rank
/// `round`; says whether any was removed.
fn remove_unblocked(
    removed: &mut Vec<bool>,
    blocked: &Vec<bool>,
    remaining: &mut usize,
    Ghost(rank0): Ghost<Seq<int>>,
    Ghost(round): Ghost<int>,
) -> (r: (bool, Ghost<Seq<int>>))
    requires
        old(removed)@.len() == blocked@.len(),
        rank0.len() == blocked@.len(),
        *old(remaining) == count_false(old(removed)@, blocked@.len()),
    ensures
        final(removed)@.len() == blocked@.len(),
        r.1@.len() == blocked@.len(),
        *final(remaining) == count_false(final(removed)@, blocked@.len()),
        r.0 ==> *final(remaining) < *old(remaining),
        !r.0 ==> final(removed)@ == old(removed)@,
        forall|y: int|
            0 <= y < blocked@.len() ==> (#[trigger] final(removed)@[y] <==> (old(removed)@[y]
                || !blocked@[y])),
        forall|y: int|
            0 <= y < blocked@.len() && #[trigger] old(removed)@[y] ==> r.1@[y] == rank0[y],
        forall|y: int|
            0 <= y < blocked@.len() && !old(removed)@[y] && !blocked@[y] ==> #[trigger] r.1@[y]
                == round,
{
    let v = blocked.len();
    let ghost removed0 = removed@;
    let ghost remaining0 = *remaining;
    let ghost mut rank = rank0;
    let mut progress = false;
    let mut x: usize = 0;
    while x < v
        invariant
            v == blocked@.len(),
            x <= v,
            removed@.len() == v,
            rank.len() == v,
            removed0.len() == v,
            remaining0 == count_false(removed0, v as nat),
            *remaining == count_false(removed@, v as nat),
            forall|y: int|
                0 <= y < x ==> (#[trigger] removed@[y] <==> (removed0[y] || !blocked@[y])),
            forall|y: int| x <= y < v ==> #[trigger] removed@[y] == removed0[y],
            forall|y: int| 0 <= y < v && #[trigger] removed0[y] ==> rank[y] == rank0[y],
            forall|y: int| 0 <= y < x && !removed0[y] && !blocked@[y] ==> #[trigger] rank[y] == round,
            !progress ==> removed@ == removed0,
            progress ==> *remaining < remaining0,
        decreases v - x,
    {
        if !removed[x] && !blocked[x] {
            proof {
                lemma_count_set(removed@, x as int, v as nat);
            }
            removed.set(x, true);
            proof {
                rank = rank.update(x as int, round);
            }
            *remaining = *remaining - 1;
            progress = true;
        }
        x = x + 1;
    }
    (progress, Ghost(rank))
}

/// Whether the steps between elements `0 .. v` admit a topological order.
///
/// Repeatedly removes, all at once, the elements that no remaining element
/// steps into, giving them the number of the round as rank; fails when a
/// round removes nothing while elements remain.
fn check_acyclic(v: usize, pairs: &Vec<(usize, usize)>) -> (r: bool)
    requires
        forall|i: int| 0 <= i < pairs@.len() ==> #[trigger] pairs@[i].0 < v && pairs@[i].1 < v,
    ensures
        r == !has_cycle(pair_views(pairs@)),
{
    let ghost steps = pair_views(pairs@);
    let mut removed = false_vec(v);
    let ghost mut rank: Seq<int> = Seq::new(v as nat, |i: int| 0);
    let ghost mut round: int = 0;
    let mut remaining: usize = v;
    let ne = pairs.len();
    loop
        invariant
            ne == pairs@.len(),
            steps == pair_views(pairs@),
            forall|i: int| 0 <= i < pairs@.len() ==> #[trigger] pairs@[i].0 < v && pairs@[i].1 < v,
            removed@.len() == v,
            rank.len() == v,
            remaining == count_false(removed@, v as nat),
            forall|x: int| 0 <= x < v && #[trigger] removed@[x] ==> rank[x] < round,
            forall|i: int|
                0 <= i < ne && removed@[(#[trigger] pairs@[i]).1 as int] ==> removed@[pairs@[i].0 as int]
                    && rank[pairs@[i].0 as int] < rank[pairs@[i].1 as int],
        decreases remaining,
    {
        if remaining == 0 {
            proof {
                lemma_count_zero(removed@, v as nat);
                assert(steps.len() == pairs@.len());
                let rf = |x: nat| if x < v { rank[x as int] } else { 0 };
                assert forall|i: int| 0 <= i < steps.len() implies rf(#[trigger] steps[i].0) < rf(
                    steps[i].1,
                ) by {
                    assert(steps[i] == (pairs@[i].0 as nat, pairs@[i].1 as nat));
                    assert(pairs@[i].1 < v);
                    assert(removed@[pairs@[i].1 as int]);
                }
                assert(is_ranking(steps, rf));
                lemma_ranking_no_cycle(steps, rf);
            }
            return true;
        }
        let blocked = blocked_elements(v, pairs, &removed);
        let ghost removed0 = removed@;
        let ghost rank0 = rank;
        let (progress, Ghost(new_rank)) = remove_unblocked(
            &mut removed,
            &blocked,
            &mut remaining,
            Ghost(rank),
            Ghost(round),
        );
        if !progress {
            proof {
                let w = lemma_count_pos(removed@, v as nat);
                let stuck = |x: nat| x < v && !removed@[x as int];
                assert(steps.len() == ne);
                assert forall|i: int| 0 <= i < steps.len() implies (#[trigger] steps[i]).0 < v
                    && steps[i].1 < v by {
                    assert(steps[i] == (pairs@[i].0 as nat, pairs@[i].1 as nat));
                }
                assert forall|m: nat| m < v && #[trigger] stuck(m) implies exists|i: int|
                    0 <= i < steps.len() && steps[i].1 == m && stuck(steps[i].0) by {
                    assert(blocked@[m as int]);
                    let i = choose|i: int|
                        0 <= i < ne && pairs@[i].1 == m && !removed0[pairs@[i].0 as int];
                    assert(steps[i] == (pairs@[i].0 as nat, pairs@[i].1 as nat));
                }
                lemma_stuck_has_cycle(steps, v as nat, stuck, w as nat);
            }
            return false;
        }
        proof {
            rank = new_rank;
            assert forall|i: int|
                0 <= i < ne && removed@[(#[trigger] pairs@[i]).1 as int] implies removed@[pairs@[i].0 as int]
                    && rank[pairs@[i].0 as int] < rank[pairs@[i].1 as int] by {
                let a = pairs@[i].0 as int;
                let b = pairs@[i].1 as int;
                if !removed0[b] {
                    assert(!blocked@[b]);
                    if !removed0[a] {
                        assert(blocked@[b]);
                    }
                }
            }
            round = round + 1;
        }
    }
}

proof fn lemma_prop_element_bound(
    nn: nat,
    props: Seq<PropertyView>,
    derivs: Seq<DerivationView>,
    p: PropId,
    k: nat,
)
    requires
        k <= derivs.len(),
        p.0 < props.len(),
        props[p.0 as int].node.0 < nn,
    ensures
        prop_element(nn, props, derivs, p, k) < nn + derivs.len(),
    decreases k,
{
    if k > 0 {
        lemma_prop_element_bound(nn, props, derivs, p, (k - 1) as nat);
    }
}

proof fn lemma_first_always_stable(props: Seq<PropertyView>, edges: Seq<EdgeView>, m: nat, n: nat)
    requires
        m <= n <= edges.len(),
        first_always_constraint(props, edges, m) is Some,
    ensures
        first_always_constraint(props, edges, n) == first_always_constraint(props, edges, m),
    decreases n,
{
    if n > m {
        lemma_first_always_stable(props, edges, m, (n - 1) as nat);
    }
}

proof fn lemma_first_rooted_stable(nodes: Seq<NodeView>, edges: Seq<EdgeView>, m: nat, n: nat)
    requires
        m <= n <= nodes.len(),
        first_rooted_child(nodes, edges, m) is Some,
    ensures
        first_rooted_child(nodes, edges, n) == first_rooted_child(nodes, edges, m),
    decreases n,
{
    if n > m {
        lemma_first_rooted_stable(nodes, edges, m, (n - 1) as nat);
    }
}

proof fn lemma_first_nullary_stable(derivs: Seq<DerivationView>, m: nat, n: nat)
    requires
        m <= n <= derivs.len(),
        first_nullary(derivs, m) is Some,
    ensures
        first_nullary(derivs, n) == first_nullary(derivs, m),
    decreases n,
{
    if n > m {
        lemma_first_nullary_stable(derivs, m, (n - 1) as nat);
    }
}

// ---------------------------------------------------------------------------
// What the cycle check looks along
// ---------------------------------------------------------------------------

/// Every edge is a step of the cycle check: an anchor from its parent node
/// to its child node, a derivation input from the element that carries the
/// input property to the derivation, and a constraint from the element that
/// carries its source to the element that carries its destination.
pub proof fn lemma_edges_are_steps(
    nodes: Seq<NodeView>,
    props: Seq<PropertyView>,
    derivs: Seq<DerivationView>,
    edges: Seq<EdgeView>,
    i: int,
)
    requires
        0 <= i < edges.len(),
    ensures
        ({
            let nn = nodes.len();
            let steps = element_edges(nodes, props, derivs, edges);
            &&& edges[i] matches EdgeView::Link { child, parent, .. } ==> steps_to(
                steps,
                parent.0 as nat,
                child.0 as nat,
            )
            &&& edges[i] matches EdgeView::DerivInput { source_prop, target_deriv } ==> steps_to(
                steps,
                element_of(nn, props, derivs, source_prop),
                nn + target_deriv.0 as nat,
            )
            &&& edges[i] matches EdgeView::Constraint { dest_prop, source_prop, .. } ==> steps_to(
                steps,
                element_of(nn, props, derivs, source_prop),
                element_of(nn, props, derivs, dest_prop),
            )
        }),
{
    let steps = element_edges(nodes, props, derivs, edges);
    assert(steps[i] == element_edge(nodes.len(), props, derivs, edges[i]));
}

/// A cycle among the steps of the edges is refused by validation, with the
/// cycle error unless an earlier rule is broken.
pub proof fn lemma_cycle_refused(
    nodes: Seq<NodeView>,
    props: Seq<PropertyView>,
    derivs: Seq<DerivationView>,
    edges: Seq<EdgeView>,
    w: Seq<nat>,
)
    requires
        is_cycle(element_edges(nodes, props, derivs, edges), w),
    ensures
        validation_error(nodes, props, derivs, edges) is Some,
{
}

/// Feeding a derivation's output back, through a constraint, into the
/// element that carries one of its inputs is a cycle, and validation refuses
/// the graph: any input of the derivation counts, not only the first.
pub proof fn lemma_feedback_refused(
    nodes: Seq<NodeView>,
    props: Seq<PropertyView>,
    derivs: Seq<DerivationView>,
    edges: Seq<EdgeView>,
    i: int,
    j: int,
)
    requires
        0 <= i < edges.len(),
        0 <= j < edges.len(),
        edges[i] is DerivInput,
        edges[j] is Constraint,
        element_of(nodes.len(), props, derivs, edges[j]->Constraint_source_prop) == nodes.len()
            + edges[i]->target_deriv.0,
        element_of(nodes.len(), props, derivs, edges[j]->dest_prop) == element_of(
            nodes.len(),
            props,
            derivs,
            edges[i]->DerivInput_source_prop,
        ),
    ensures
        validation_error(nodes, props, derivs, edges) is Some,
{
    let nn = nodes.len();
    let steps = element_edges(nodes, props, derivs, edges);
    lemma_edges_are_steps(nodes, props, derivs, edges, i);
    lemma_edges_are_steps(nodes, props, derivs, edges, j);
    let x = element_of(nn, props, derivs, edges[i]->DerivInput_source_prop);
    let d = nn + edges[i]->target_deriv.0 as nat;
    let w = seq![x, d, x];
    assert(steps_to(steps, w[0], w[1]));
    assert(steps_to(steps, w[1], w[2]));
    assert(is_walk(steps, w));
    assert(is_cycle(steps, w));
}

/// Checks the validation rules on a graph, in order: no constraint on an
/// always-trusted property, no anchor into a root node, no nullary
/// derivation, no cycle among nodes and derivations.
pub fn validate(g: &Graph) -> (r: Result<(), ObgraphError>)
    requires
        g.wf(),
    ensures
        match graph_validation_error(*g) {
            None => r is Ok,
            Some(e) => r matches Err(x) && error_text(x) == error_message(e),
        },
{
    match check_rules(g) {
        Ok(()) => Ok(()),
        Err(e) => Err(validation_error_of(&e)),
    }
}

/// The first rule that `g` breaks, as a reason.
pub(crate) fn check_rules(g: &Graph) -> (r: Result<(), GraphError>)
    requires
        g.wf(),
    ensures
        match graph_validation_error(*g) {
            None => r is Ok,
            Some(e) => r == Err::<(), GraphError>(e),
        },
{
    let ghost nodes = node_views(g.nodes@);
    let ghost props = prop_views(g.properties@);
    let ghost derivs = deriv_views(g.derivations@);
    let ghost edges = edge_views(g.edges@);
    // Constraints on always-trusted properties.
    let mut i: usize = 0;
    while i < g.edges.len()
        invariant
            g.wf(),
            props == prop_views(g.properties@),
            edges == edge_views(g.edges@),
            i <= g.edges@.len(),
            first_always_constraint(props, edges, i as nat) is None,
        decreases g.edges@.len() - i,
    {
        proof {
            assert(edges[i as int] == g.edges@[i as int]@);
        }
        if let Edge::Constraint { dest_prop, .. } = &g.edges[i] {
            let d = dest_prop.index();
            if d < g.properties.len() && g.properties[d].trust == TrustClass::Always {
                proof {
                    assert(props[d as int] == g.properties@[d as int]@);
                    lemma_first_always_stable(props, edges, (i + 1) as nat, edges.len());
                }
                return Err(GraphError::ConstraintOnAlwaysProperty { prop: *dest_prop });
            }
            proof {
                if d < g.properties@.len() {
                    assert(props[d as int] == g.properties@[d as int]@);
                }
            }
        }
        i = i + 1;
    }
    // Anchors into root nodes.
    let mut n: usize = 0;
    while n < g.nodes.len()
        invariant
            g.wf(),
            nodes == node_views(g.nodes@),
            edges == edge_views(g.edges@),
            n <= g.nodes@.len(),
            props == prop_views(g.properties@),
            first_always_constraint(props, edges, edges.len()) is None,
            first_rooted_child(nodes, edges, n as nat) is None,
        decreases g.nodes@.len() - n,
    {
        proof {
            assert(nodes[n as int] == g.nodes@[n as int]@);
            assert(g.node_parent@[n as int] == parent_link(edges, NodeId(n as u32), edges.len()));
        }
        if g.nodes[n].is_root && g.node_parent[n].is_some() {
            proof {
                lemma_first_rooted_stable(nodes, edges, (n + 1) as nat, nodes.len());
            }
            return Err(GraphError::RootWithParent { node: NodeId(n as u32) });
        }
        n = n + 1;
    }
    // Derivations without inputs.
    let mut d: usize = 0;
    while d < g.derivations.len()
        invariant
            g.wf(),
            derivs == deriv_views(g.derivations@),
            d <= g.derivations@.len(),
            nodes == node_views(g.nodes@),
            props == prop_views(g.properties@),
            edges == edge_views(g.edges@),
            first_always_constraint(props, edges, edges.len()) is None,
            first_rooted_child(nodes, edges, nodes.len()) is None,
            first_nullary(derivs, d as nat) is None,
        decreases g.derivations@.len() - d,
    {
        proof {
            assert(derivs[d as int] == g.derivations@[d as int]@);
        }
        if g.derivations[d].inputs.len() == 0 {
            proof {
                lemma_first_nullary_stable(derivs, (d + 1) as nat, derivs.len());
            }
            return Err(
                GraphError::NullaryDerivation { deriv: crate::model::types::DerivId(d as u32) },
            );
        }
        d = d + 1;
    }
    // Cycles.
    let nn = g.nodes.len();
    let nd = g.derivations.len();
    if nn > usize::MAX - nd {
        return Err(GraphError::CapacityExceeded);
    }
    let np = g.properties.len();
    let mut elem: Vec<usize> = Vec::new();
    let mut p: usize = 0;
    while p < np
        invariant
            g.wf(),
            np == g.properties@.len(),
            nn == g.nodes@.len(),
            props == prop_views(g.properties@),
            derivs == deriv_views(g.derivations@),
            p <= np,
            elem@.len() == p,
            forall|q: int|
                0 <= q < p ==> #[trigger] elem@[q] == prop_element(
                    nn as nat,
                    props,
                    derivs,
                    PropId(q as u32),
                    0,
                ),
        decreases np - p,
    {
        proof {
            assert(props[p as int] == g.properties@[p as int]@);
        }
        elem.push(g.properties[p].node.index());
        p = p + 1;
    }
    let mut k: usize = 0;
    while k < nd
        invariant
            g.wf(),
            np == g.properties@.len(),
            nn == g.nodes@.len(),
            nd == g.derivations@.len(),
            nn + nd <= usize::MAX,
            props == prop_views(g.properties@),
            derivs == deriv_views(g.derivations@),
            k <= nd,
            elem@.len() == np,
            forall|q: int|
                0 <= q < np ==> #[trigger] elem@[q] == prop_element(
                    nn as nat,
                    props,
                    derivs,
                    PropId(q as u32),
                    k as nat,
                ),
        decreases nd - k,
    {
        proof {
            assert(derivs[k as int] == g.derivations@[k as int]@);
        }
        let out = g.derivations[k].output_prop.index();
        proof {
            assert(out < np);
        }
        elem.set(out, nn + k);
        proof {
            assert forall|q: int| 0 <= q < np implies #[trigger] elem@[q] == prop_element(
                nn as nat,
                props,
                derivs,
                PropId(q as u32),
                (k + 1) as nat,
            ) by {
                assert(PropId(q as u32).0 == q);
            }
        }
        k = k + 1;
    }
    let ghost steps = element_edges(nodes, props, derivs, edges);
    let mut pairs: Vec<(usize, usize)> = Vec::new();
    let ne = g.edges.len();
    let mut i: usize = 0;
    while i < ne
        invariant
            g.wf(),
            np == g.properties@.len(),
            nn == g.nodes@.len(),
            nd == g.derivations@.len(),
            ne == g.edges@.len(),
            nn + nd <= usize::MAX,
            nodes == node_views(g.nodes@),
            props == prop_views(g.properties@),
            derivs == deriv_views(g.derivations@),
            edges == edge_views(g.edges@),
            steps == element_edges(nodes, props, derivs, edges),
            elem@.len() == np,
            forall|q: int|
                0 <= q < np ==> #[trigger] elem@[q] == element_of(
                    nn as nat,
                    props,
                    derivs,
                    PropId(q as u32),
                ),
            i <= ne,
            pairs@.len() == i,
            forall|j: int|
                0 <= j < i ==> (#[trigger] pairs@[j]).0 < nn + nd && pairs@[j].1 < nn + nd
                    && (pairs@[j].0 as nat, pairs@[j].1 as nat) == steps[j],
        decreases ne - i,
    {
        proof {
            assert(edges[i as int] == g.edges@[i as int]@);
        }
        let pair = match &g.edges[i] {
            Edge::Link { child, parent, .. } => (parent.index(), child.index()),
            Edge::DerivInput { source_prop, target_deriv } => {
                proof {
                    assert(props[source_prop.0 as int] == g.properties@[source_prop.0 as int]@);
                    lemma_prop_element_bound(nn as nat, props, derivs, *source_prop, nd as nat);
                }
                (elem[source_prop.index()], nn + target_deriv.index())
            },
            Edge::Constraint { dest_prop, source_prop, .. } => {
                proof {
                    assert(props[source_prop.0 as int] == g.properties@[source_prop.0 as int]@);
                    assert(props[dest_prop.0 as int] == g.properties@[dest_prop.0 as int]@);
                    lemma_prop_element_bound(nn as nat, props, derivs, *source_prop, nd as nat);
                    lemma_prop_element_bound(nn as nat, props, derivs, *dest_prop, nd as nat);
                }
                (elem[source_prop.index()], elem[dest_prop.index()])
            },
        };
        pairs.push(pair);
        i = i + 1;
    }
    proof {
        assert(pair_views(pairs@) =~= steps);
    }
    if check_acyclic(nn + nd, &pairs) {
        Ok(())
    } else {
        Err(GraphError::Cycle)
    }
}

} // verus!
