//! Sharing of derivations: resolving an expression equal to one resolved
//! before gives the same property and allocates nothing.
use vstd::prelude::*;

use crate::ast::{
    AstDerivationExpr, AstSourceExpr, DerivView, SourceView, args_view, deriv_view,
    lemma_args_view, source_view,
};
use crate::model::graph::{
    BuildState, add_derivation, ensure_derivation, ensure_derivation_left, find_key, find_node,
    has_room, input_edges, lemma_find_key_bound, lemma_find_key_none, lemma_find_key_stable,
    lemma_lookup_node_bound, lookup_prop, resolve_args, resolve_args_left, resolve_source,
    resolve_source_left,
};
use crate::error::GraphError;
use crate::model::types::{DerivId, EdgeView, NodeId, PropId, PropertyView};

verus! {

/// The number of names and calls in an expression.
pub open spec fn source_size(v: SourceView) -> nat
    decreases v,
{
    match v {
        SourceView::PropRef { .. } => 1,
        SourceView::Derivation(d) => 1 + args_size(d.args, d.args.len()),
    }
}

/// The total size of the first `n` arguments.
pub open spec fn args_size(args: Seq<SourceView>, n: nat) -> nat
    decreases args, n,
{
    if n == 0 || n > args.len() {
        0
    } else {
        args_size(args, (n - 1) as nat) + source_size(args[n - 1])
    }
}

pub open spec fn deriv_size(d: DerivView) -> nat {
    source_size(SourceView::Derivation(d))
}

proof fn lemma_args_size_prefix(a: Seq<SourceView>, b: Seq<SourceView>, n: nat)
    requires
        n <= a.len(),
        n <= b.len(),
        forall|k: int| 0 <= k < n ==> a[k] == b[k],
    ensures
        args_size(a, n) == args_size(b, n),
    decreases n,
{
    if n > 0 {
        lemma_args_size_prefix(a, b, (n - 1) as nat);
    }
}

/// The size of the first `n` arguments of `args`, viewed.
pub open spec fn ast_args_size(args: Seq<AstSourceExpr>, n: nat) -> nat {
    args_size(args_view(args, n), n)
}

proof fn lemma_ast_args_size_step(args: Seq<AstSourceExpr>, n: nat)
    requires
        0 < n <= args.len(),
    ensures
        ast_args_size(args, n) == ast_args_size(args, (n - 1) as nat) + source_size(
            source_view(args[n - 1]),
        ),
{
    lemma_args_view(args, n);
    lemma_args_view(args, (n - 1) as nat);
    let a = args_view(args, n);
    let b = args_view(args, (n - 1) as nat);
    lemma_args_size_prefix(a, b, (n - 1) as nat);
}

/// Keys allocated between `st` and `s` are at most `bound` in size.
pub open spec fn new_keys_bounded(st: BuildState, s: BuildState, bound: nat) -> bool {
    forall|k: int| st.keys.len() <= k < s.keys.len() ==> deriv_size(#[trigger] s.keys[k]) <= bound
}

/// Every derivation has its key.
pub open spec fn keys_aligned(st: BuildState) -> bool {
    st.keys.len() == st.derivations.len()
}

proof fn lemma_resolve_source_keys(st: BuildState, src: AstSourceExpr, dest: NodeId)
    requires
        keys_aligned(st),
    ensures
        resolve_source(st, src, dest) matches Ok((s, p)) ==> keys_aligned(s) && keys_extend(
            st,
            s,
            source_size(source_view(src)),
        ),
    decreases src, 0nat,
{
    match src {
        AstSourceExpr::PropRef { .. } => {},
        AstSourceExpr::Derivation(d) => {
            lemma_ensure_derivation_keys(st, d, dest);
        },
    }
}

proof fn lemma_ensure_derivation_keys(st: BuildState, expr: AstDerivationExpr, dest: NodeId)
    requires
        keys_aligned(st),
    ensures
        ensure_derivation(st, expr, dest) matches Ok((s, p)) ==> keys_aligned(s) && keys_extend(
            st,
            s,
            deriv_size(deriv_view(expr)),
        ),
    decreases expr, 0nat,
{
    if find_key(st.keys, deriv_view(expr), st.keys.len()) is None {
        assert(decreases_to!(expr => expr.args));
        assert(decreases_to!(expr.args => expr.args@));
        let n = expr.args@.len();
        lemma_resolve_args_keys(st, expr.args@, dest, n);
        lemma_args_view(expr.args@, n);
        assert(deriv_size(deriv_view(expr)) == 1 + ast_args_size(expr.args@, n));
    }
}

proof fn lemma_resolve_args_keys(st: BuildState, args: Seq<AstSourceExpr>, dest: NodeId, n: nat)
    requires
        keys_aligned(st),
    ensures
        n <= args.len() ==> (resolve_args(st, args, dest, n) matches Ok((s, ins)) ==> keys_aligned(s)
            && keys_extend(st, s, ast_args_size(args, n))),
    decreases args, n,
{
    if n > 0 && n <= args.len() {
        lemma_resolve_args_keys(st, args, dest, (n - 1) as nat);
        lemma_ast_args_size_step(args, n);
        if let Ok((s, ins)) = resolve_args(st, args, dest, (n - 1) as nat) {
            lemma_resolve_source_keys(s, args[n - 1], dest);
            if let Ok((s2, _)) = resolve_source(s, args[n - 1], dest) {
                assert forall|k: int| st.keys.len() <= k < s2.keys.len() implies deriv_size(
                    #[trigger] s2.keys[k],
                ) <= ast_args_size(args, n) by {
                    if k < s.keys.len() {
                        assert(s2.keys[k] == s.keys[k]);
                    }
                }
            }
        }
    }
}

proof fn lemma_find_key_absent(keys: Seq<DerivView>, key: DerivView, n: nat)
    requires
        n <= keys.len(),
        forall|k: int| 0 <= k < n ==> keys[k] != key,
    ensures
        find_key(keys, key, n) is None,
    decreases n,
{
    if n > 0 {
        lemma_find_key_absent(keys, key, (n - 1) as nat);
    }
}

/// After an expression is resolved to a derivation, the first derivation
/// allocated for an equal expression is the one it resolved to.
proof fn lemma_ensure_derivation_found(st: BuildState, expr: AstDerivationExpr, dest: NodeId)
    requires
        keys_aligned(st),
    ensures
        ensure_derivation(st, expr, dest) matches Ok((s, p)) ==> (find_key(
            s.keys,
            deriv_view(expr),
            s.keys.len(),
        ) matches Some(k) && s.derivations[k as int].output_prop == p),
{
    match find_key(st.keys, deriv_view(expr), st.keys.len()) {
        Some(k) => {
            lemma_find_key_bound(st.keys, deriv_view(expr), st.keys.len());
        },
        None => {
            let n = expr.args@.len();
            lemma_resolve_args_keys(st, expr.args@, dest, n);
            lemma_args_view(expr.args@, n);
            lemma_find_key_none(st.keys, deriv_view(expr), st.keys.len());
            if let Ok((s, inputs)) = resolve_args(st, expr.args@, dest, n) {
                if has_room(s.derivations.len()) && has_room(s.properties.len()) && has_room(
                    s.edges.len() + inputs.len(),
                ) {
                    let (s2, p) = add_derivation(s, expr, dest, inputs);
                    let big = s.keys.len();
                    assert forall|k: int| 0 <= k < big implies s2.keys[k] != deriv_view(expr) by {
                        if k < st.keys.len() {
                            assert(s.keys[k] == st.keys[k]);
                        } else {
                            assert(deriv_size(s.keys[k]) <= ast_args_size(expr.args@, n));
                        }
                    }
                    lemma_find_key_absent(s2.keys, deriv_view(expr), big as nat);
                    assert(find_key(s2.keys, deriv_view(expr), (big + 1) as nat) == Some(big as nat));
                }
            }
        },
    }
}

/// Resolving a source expression equal to one already resolved gives the
/// same property and leaves the state as it is: equal derivation
/// expressions share one derivation, wherever they occur.
pub proof fn lemma_resolve_shared(
    st: BuildState,
    first: AstSourceExpr,
    second: AstSourceExpr,
    dest1: NodeId,
    dest2: NodeId,
)
    requires
        keys_aligned(st),
        resolve_source(st, first, dest1) is Ok,
        source_view(first) == source_view(second),
    ensures
        ({
            let (s, p) = resolve_source(st, first, dest1).unwrap();
            resolve_source(s, second, dest2) == Ok::<(BuildState, PropId), crate::error::GraphError>((s, p))
        }),
{
    match first {
        AstSourceExpr::PropRef { node_ident, prop_name } => {
            match second {
                AstSourceExpr::PropRef { .. } => {},
                AstSourceExpr::Derivation(_) => {},
            }
        },
        AstSourceExpr::Derivation(d1) => {
            match second {
                AstSourceExpr::PropRef { .. } => {},
                AstSourceExpr::Derivation(d2) => {
                    lemma_ensure_derivation_found(st, d1, dest1);
                },
            }
        },
    }
}

/// `s` keeps the keys of `st` and adds only keys of size at most `bound`.
pub open spec fn keys_extend(st: BuildState, s: BuildState, bound: nat) -> bool {
    &&& s.keys.len() >= st.keys.len()
    &&& forall|k: int| 0 <= k < st.keys.len() ==> #[trigger] s.keys[k] == st.keys[k]
    &&& new_keys_bounded(st, s, bound)
}

proof fn lemma_resolve_source_left_keys(st: BuildState, src: AstSourceExpr, dest: NodeId)
    requires
        keys_aligned(st),
    ensures
        keys_extend(st, resolve_source_left(st, src, dest), source_size(source_view(src))),
    decreases src, 0nat,
{
    match src {
        AstSourceExpr::PropRef { .. } => {},
        AstSourceExpr::Derivation(d) => {
            lemma_ensure_derivation_left_keys(st, d, dest);
        },
    }
}

proof fn lemma_ensure_derivation_left_keys(st: BuildState, expr: AstDerivationExpr, dest: NodeId)
    requires
        keys_aligned(st),
    ensures
        keys_extend(st, ensure_derivation_left(st, expr, dest), deriv_size(deriv_view(expr))),
    decreases expr, 0nat,
{
    if find_key(st.keys, deriv_view(expr), st.keys.len()) is None {
        assert(decreases_to!(expr => expr.args));
        assert(decreases_to!(expr.args => expr.args@));
        let n = expr.args@.len();
        lemma_args_view(expr.args@, n);
        assert(deriv_size(deriv_view(expr)) == 1 + ast_args_size(expr.args@, n));
        lemma_resolve_args_left_keys(st, expr.args@, dest, n);
        lemma_resolve_args_keys(st, expr.args@, dest, n);
    }
}

proof fn lemma_resolve_args_left_keys(st: BuildState, args: Seq<AstSourceExpr>, dest: NodeId, n: nat)
    requires
        keys_aligned(st),
    ensures
        n <= args.len() ==> keys_extend(st, resolve_args_left(st, args, dest, n), ast_args_size(args, n)),
    decreases args, n,
{
    if n > 0 && n <= args.len() {
        lemma_ast_args_size_step(args, n);
        match resolve_args(st, args, dest, (n - 1) as nat) {
            Err(_) => {
                lemma_resolve_args_left_keys(st, args, dest, (n - 1) as nat);
            },
            Ok((s, _)) => {
                lemma_resolve_args_keys(st, args, dest, (n - 1) as nat);
                lemma_resolve_source_left_keys(s, args[n - 1], dest);
                let l = resolve_source_left(s, args[n - 1], dest);
                assert forall|k: int| st.keys.len() <= k < l.keys.len() implies deriv_size(
                    #[trigger] l.keys[k],
                ) <= ast_args_size(args, n) by {
                    if k < s.keys.len() {
                        assert(l.keys[k] == s.keys[k]);
                    }
                }
            },
        }
    }
}

/// A derivation whose arguments fail to resolve leaves no derivation for its
/// expression behind: a later occurrence of the same expression is not
/// taken for one already allocated.
pub proof fn lemma_failed_derivation_unshared(st: BuildState, expr: AstDerivationExpr, dest: NodeId)
    requires
        keys_aligned(st),
        find_key(st.keys, deriv_view(expr), st.keys.len()) is None,
        ensure_derivation(st, expr, dest) is Err,
    ensures
        ({
            let l = ensure_derivation_left(st, expr, dest);
            find_key(l.keys, deriv_view(expr), l.keys.len()) is None
        }),
{
    let l = ensure_derivation_left(st, expr, dest);
    let n = expr.args@.len();
    assert(decreases_to!(expr => expr.args));
    lemma_args_view(expr.args@, n);
    assert(deriv_size(deriv_view(expr)) == 1 + ast_args_size(expr.args@, n));
    lemma_resolve_args_left_keys(st, expr.args@, dest, n);
    lemma_resolve_args_keys(st, expr.args@, dest, n);
    lemma_find_key_none(st.keys, deriv_view(expr), st.keys.len());
    assert(keys_extend(st, l, ast_args_size(expr.args@, n)));
    assert forall|k: int| 0 <= k < l.keys.len() implies l.keys[k] != deriv_view(expr) by {
        if k < st.keys.len() {
            assert(l.keys[k] == st.keys[k]);
        } else {
            assert(deriv_size(l.keys[k]) <= ast_args_size(expr.args@, n));
        }
    }
    lemma_find_key_absent(l.keys, deriv_view(expr), l.keys.len());
}

// ---------------------------------------------------------------------------
// A derivation's inputs follow its arguments
// ---------------------------------------------------------------------------

/// `s2` keeps everything `s` holds: the same nodes, and the properties,
/// keys and derivations of `s` at their positions.
pub open spec fn extends(s: BuildState, s2: BuildState) -> bool {
    &&& s2.nodes == s.nodes
    &&& s2.properties.len() >= s.properties.len()
    &&& forall|k: int| 0 <= k < s.properties.len() ==> #[trigger] s2.properties[k] == s.properties[k]
    &&& s2.keys.len() >= s.keys.len()
    &&& forall|k: int| 0 <= k < s.keys.len() ==> #[trigger] s2.keys[k] == s.keys[k]
    &&& s2.derivations.len() >= s.derivations.len()
    &&& forall|k: int| 0 <= k < s.derivations.len() ==> #[trigger] s2.derivations[k] == s.derivations[k]
}

/// Every property that a node lists exists.
pub open spec fn props_closed(s: BuildState) -> bool {
    &&& s.nodes.len() <= u32::MAX
    &&& forall|i: int, j: int|
        0 <= i < s.nodes.len() && 0 <= j < s.nodes[i].properties.len() ==> (#[trigger] s.nodes[i].properties[j]).0
            < s.properties.len()
}

proof fn lemma_extends_trans(a: BuildState, b: BuildState, c: BuildState)
    requires
        extends(a, b),
        extends(b, c),
    ensures
        extends(a, c),
{
    assert forall|k: int| 0 <= k < a.properties.len() implies #[trigger] c.properties[k] == a.properties[k] by {
        assert(c.properties[k] == b.properties[k]);
    }
    assert forall|k: int| 0 <= k < a.keys.len() implies #[trigger] c.keys[k] == a.keys[k] by {
        assert(c.keys[k] == b.keys[k]);
    }
    assert forall|k: int| 0 <= k < a.derivations.len() implies #[trigger] c.derivations[k] == a.derivations[k] by {
        assert(c.derivations[k] == b.derivations[k]);
    }
}

proof fn lemma_resolve_source_extends(st: BuildState, src: AstSourceExpr, dest: NodeId)
    ensures
        resolve_source(st, src, dest) matches Ok((s, _)) ==> extends(st, s),
    decreases src, 0nat,
{
    if let AstSourceExpr::Derivation(d) = src {
        lemma_ensure_derivation_extends(st, d, dest);
    }
}

proof fn lemma_ensure_derivation_extends(st: BuildState, expr: AstDerivationExpr, dest: NodeId)
    ensures
        ensure_derivation(st, expr, dest) matches Ok((s, _)) ==> extends(st, s),
    decreases expr, 0nat,
{
    if find_key(st.keys, deriv_view(expr), st.keys.len()) is None {
        assert(decreases_to!(expr => expr.args));
        assert(decreases_to!(expr.args => expr.args@));
        let n = expr.args@.len();
        lemma_resolve_args_extends(st, expr.args@, dest, n);
        if let Ok((s, inputs)) = resolve_args(st, expr.args@, dest, n) {
            let s2 = add_derivation(s, expr, dest, inputs).0;
            assert(extends(s, s2));
            lemma_extends_trans(st, s, s2);
        }
    }
}

proof fn lemma_resolve_args_extends(st: BuildState, args: Seq<AstSourceExpr>, dest: NodeId, n: nat)
    ensures
        resolve_args(st, args, dest, n) matches Ok((s, _)) ==> extends(st, s),
    decreases args, n,
{
    if n > 0 && n <= args.len() {
        lemma_resolve_args_extends(st, args, dest, (n - 1) as nat);
        if let Ok((s, _)) = resolve_args(st, args, dest, (n - 1) as nat) {
            lemma_resolve_source_extends(s, args[n - 1], dest);
            if let Ok((s2, _)) = resolve_source(s, args[n - 1], dest) {
                lemma_extends_trans(st, s, s2);
            }
        }
    }
}

proof fn lemma_lookup_prop_extends(a: Seq<PropertyView>, b: Seq<PropertyView>, ids: Seq<PropId>, name: Seq<char>, n: nat)
    requires
        n <= ids.len(),
        forall|j: int| 0 <= j < ids.len() ==> (#[trigger] ids[j]).0 < a.len(),
        b.len() >= a.len(),
        forall|k: int| 0 <= k < a.len() ==> #[trigger] b[k] == a[k],
    ensures
        lookup_prop(b, ids, name, n) == lookup_prop(a, ids, name, n),
    decreases n,
{
    if n > 0 {
        lemma_lookup_prop_extends(a, b, ids, name, (n - 1) as nat);
        assert(ids[n - 1].0 < a.len());
        assert(b[ids[n - 1].0 as int] == a[ids[n - 1].0 as int]);
    }
}

proof fn lemma_find_key_extends(a: Seq<DerivView>, b: Seq<DerivView>, key: DerivView, n: nat)
    requires
        n <= a.len(),
        n <= b.len(),
        forall|k: int| 0 <= k < n ==> #[trigger] b[k] == a[k],
    ensures
        find_key(b, key, n) == find_key(a, key, n),
    decreases n,
{
    if n > 0 {
        lemma_find_key_extends(a, b, key, (n - 1) as nat);
        assert(b[n - 1] == a[n - 1]);
    }
}

/// What a source resolved to in a state that it leaves as it is, it
/// resolves to again in any state that keeps that one, whatever node a new
/// derivation output would go to.
proof fn lemma_resolve_stable(s: BuildState, s2: BuildState, src: AstSourceExpr, dest: NodeId, dest2: NodeId, p: PropId)
    requires
        keys_aligned(s),
        props_closed(s),
        extends(s, s2),
        resolve_source(s, src, dest) == Ok::<(BuildState, PropId), GraphError>((s, p)),
    ensures
        resolve_source(s2, src, dest2) == Ok::<(BuildState, PropId), GraphError>((s2, p)),
{
    match src {
        AstSourceExpr::PropRef { node_ident, prop_name } => {
            lemma_lookup_node_bound(s.nodes, node_ident@, s.nodes.len());
            if let Some(nid) = find_node(s, node_ident@) {
                let ids = s.nodes[nid.0 as int].properties;
                assert forall|j: int| 0 <= j < ids.len() implies (#[trigger] ids[j]).0 < s.properties.len() by {
                    assert(s.nodes[nid.0 as int].properties[j] == ids[j]);
                }
                lemma_lookup_prop_extends(s.properties, s2.properties, ids, prop_name@, ids.len());
            }
        },
        AstSourceExpr::Derivation(d) => {
            let dv = deriv_view(d);
            match find_key(s.keys, dv, s.keys.len()) {
                Some(k) => {
                    lemma_find_key_bound(s.keys, dv, s.keys.len());
                    lemma_find_key_extends(s.keys, s2.keys, dv, s.keys.len());
                    lemma_find_key_stable(s2.keys, dv, s.keys.len(), s2.keys.len());
                },
                None => {
                    let n = d.args@.len();
                    lemma_resolve_args_extends(s, d.args@, dest, n);
                    assert(false);
                },
            }
        },
    }
}

/// Resolving arguments in turn: afterwards, each argument resolves again
/// to the input recorded for it, in argument order.
proof fn lemma_args_resolve_to_inputs(st: BuildState, args: Seq<AstSourceExpr>, dest: NodeId, dest2: NodeId, n: nat)
    requires
        keys_aligned(st),
        props_closed(st),
        n <= args.len(),
        resolve_args(st, args, dest, n) is Ok,
    ensures
        ({
            let (s, ins) = resolve_args(st, args, dest, n).unwrap();
            &&& keys_aligned(s)
            &&& props_closed(s)
            &&& extends(st, s)
            &&& ins.len() == n
            &&& forall|k: int| 0 <= k < n ==> resolve_source(s, #[trigger] args[k], dest2)
                == Ok::<(BuildState, PropId), GraphError>((s, ins[k]))
        }),
    decreases n,
{
    let (s, ins) = resolve_args(st, args, dest, n).unwrap();
    if n == 0 {
        assert(extends(st, s));
    } else {
        let m = (n - 1) as nat;
        lemma_args_resolve_to_inputs(st, args, dest, dest2, m);
        let (s1, ins1) = resolve_args(st, args, dest, m).unwrap();
        let (s2, p) = resolve_source(s1, args[m as int], dest).unwrap();
        assert(s == s2 && ins == ins1.push(p));
        lemma_resolve_source_keys(s1, args[m as int], dest);
        lemma_resolve_source_extends(s1, args[m as int], dest);
        lemma_extends_trans(st, s1, s2);
        lemma_resolve_shared(s1, args[m as int], args[m as int], dest, dest2);
        assert forall|i: int, j: int|
            0 <= i < s2.nodes.len() && 0 <= j < s2.nodes[i].properties.len() implies (
            #[trigger] s2.nodes[i].properties[j]).0 < s2.properties.len() by {
            assert(s2.nodes[i] == s1.nodes[i]);
        }
        assert forall|k: int| 0 <= k < n implies resolve_source(s2, #[trigger] args[k], dest2)
            == Ok::<(BuildState, PropId), GraphError>((s2, ins[k])) by {
            if k < m {
                assert(ins[k] == ins1[k]);
                lemma_resolve_stable(s1, s2, args[k], dest2, dest2, ins1[k]);
            }
        }
    }
}

/// The inputs of a derivation follow the order of its arguments: when an
/// expression gets a new derivation, the derivation's output is the result,
/// it has one input per argument, and resolving the `k`-th argument
/// afterwards gives the `k`-th input, for every `k`. Its input edges, last
/// in the edge list, run from each input in the same order.
pub proof fn lemma_derivation_inputs_in_argument_order(
    st: BuildState,
    expr: AstDerivationExpr,
    dest: NodeId,
    dest2: NodeId,
)
    requires
        keys_aligned(st),
        props_closed(st),
        find_key(st.keys, deriv_view(expr), st.keys.len()) is None,
        ensure_derivation(st, expr, dest) is Ok,
    ensures
        ({
            let (s, p) = ensure_derivation(st, expr, dest).unwrap();
            let di = s.derivations.len() - 1;
            let d = s.derivations[di];
            let n = expr.args@.len();
            &&& s.derivations.len() >= 1
            &&& d.output_prop == p
            &&& d.inputs.len() == n
            &&& forall|k: int| 0 <= k < n ==> resolve_source(s, #[trigger] expr.args@[k], dest2)
                == Ok::<(BuildState, PropId), GraphError>((s, d.inputs[k]))
            &&& s.edges.len() >= n
            &&& forall|k: int| 0 <= k < n ==> #[trigger] s.edges[s.edges.len() - n + k] == EdgeView::DerivInput {
                source_prop: d.inputs[k],
                target_deriv: DerivId(di as u32),
            }
        }),
{
    let n = expr.args@.len();
    lemma_args_resolve_to_inputs(st, expr.args@, dest, dest2, n);
    let (s1, ins) = resolve_args(st, expr.args@, dest, n).unwrap();
    let (s, p) = ensure_derivation(st, expr, dest).unwrap();
    assert(s == add_derivation(s1, expr, dest, ins).0);
    assert(extends(s1, s));
    assert forall|i: int, j: int|
        0 <= i < s1.nodes.len() && 0 <= j < s1.nodes[i].properties.len() implies (
        #[trigger] s1.nodes[i].properties[j]).0 < s1.properties.len() by {}
    assert forall|k: int| 0 <= k < n implies resolve_source(s, #[trigger] expr.args@[k], dest2)
        == Ok::<(BuildState, PropId), GraphError>((s, s.derivations[s.derivations.len() - 1].inputs[k])) by {
        lemma_resolve_stable(s1, s, expr.args@[k], dest2, dest2, ins[k]);
    }
    assert forall|k: int| 0 <= k < n implies #[trigger] s.edges[s.edges.len() - n + k] == EdgeView::DerivInput {
        source_prop: s.derivations[s.derivations.len() - 1].inputs[k],
        target_deriv: DerivId((s.derivations.len() - 1) as u32),
    } by {
        assert(s.edges[s.edges.len() - n + k] == input_edges(ins, DerivId(s1.derivations.len() as u32))[k]);
    }
}

} // verus!
