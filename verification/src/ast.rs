//! Syntax tree of an obgraph block, as handed to graph construction.
use vstd::prelude::*;

verus! {

/// Trust annotation written on a property.
#[derive(Clone, Copy, Debug, PartialEq, Eq, Structural)]
pub enum AstTrustAnnotation {
    /// No annotation: the property gates the trust of its node.
    Default,
    /// The property is pre-satisfied by annotation.
    Constrained,
    /// The property is always trusted.
    Always,
}

/// A property declaration inside a node.
#[derive(Clone, Debug)]
pub struct AstProperty {
    pub name: String,
    pub trust: AstTrustAnnotation,
}

/// A node declaration.
#[derive(Clone, Debug)]
pub struct AstNode {
    pub ident: String,
    pub display_name: Option<String>,
    pub is_root: bool,
    pub is_selected: bool,
    pub properties: Vec<AstProperty>,
}

/// A domain: a visual group of node declarations.
#[derive(Clone, Debug)]
pub struct AstDomain {
    pub display_name: String,
    pub nodes: Vec<AstNode>,
}

/// An anchor `child <- parent [: operation]`.
#[derive(Clone, Debug)]
pub struct AstLink {
    pub child_ident: String,
    pub parent_ident: String,
    pub operation: Option<String>,
}

/// The right-hand side of a constraint: a property reference or a derivation.
#[derive(Debug)]
pub enum AstSourceExpr {
    PropRef { node_ident: String, prop_name: String },
    Derivation(AstDerivationExpr),
}

/// A derivation `function(arg, ...)`.
#[derive(Debug)]
pub struct AstDerivationExpr {
    pub function: String,
    pub args: Vec<AstSourceExpr>,
}

/// A constraint `dest_node::dest_prop <= source [: operation]`.
#[derive(Debug)]
pub struct AstConstraint {
    pub dest_node: String,
    pub dest_prop: String,
    pub source: AstSourceExpr,
    pub operation: Option<String>,
}

/// A whole obgraph block.
#[derive(Debug)]
pub struct AstGraph {
    pub domains: Vec<AstDomain>,
    pub nodes: Vec<AstNode>,
    pub links: Vec<AstLink>,
    pub constraints: Vec<AstConstraint>,
}

/// Mathematical value of a source expression: the text of its names and its
/// structure. Two expressions denote the same derivation exactly when their
/// values are equal.
pub enum SourceView {
    PropRef { node: Seq<char>, prop: Seq<char> },
    Derivation(DerivView),
}

/// Mathematical value of a derivation expression.
pub struct DerivView {
    pub function: Seq<char>,
    pub args: Seq<SourceView>,
}

pub open spec fn source_view(e: AstSourceExpr) -> SourceView
    decreases e, 0nat,
{
    match e {
        AstSourceExpr::PropRef { node_ident, prop_name } => SourceView::PropRef {
            node: node_ident@,
            prop: prop_name@,
        },
        AstSourceExpr::Derivation(d) => SourceView::Derivation(deriv_view(d)),
    }
}

pub open spec fn deriv_view(d: AstDerivationExpr) -> DerivView
    decreases d, 0nat,
{
    DerivView { function: d.function@, args: args_view(d.args@, d.args@.len()) }
}

/// The values of the first `n` arguments.
pub open spec fn args_view(args: Seq<AstSourceExpr>, n: nat) -> Seq<SourceView>
    decreases args, n,
{
    if n == 0 || n > args.len() {
        Seq::empty()
    } else {
        args_view(args, (n - 1) as nat).push(source_view(args[n - 1]))
    }
}

pub proof fn lemma_args_view(args: Seq<AstSourceExpr>, n: nat)
    requires
        n <= args.len(),
    ensures
        args_view(args, n).len() == n,
        forall|i: int| 0 <= i < n ==> #[trigger] args_view(args, n)[i] == source_view(args[i]),
    decreases n,
{
    if n > 0 {
        lemma_args_view(args, (n - 1) as nat);
    }
}

impl AstSourceExpr {
    /// A copy of the expression with the same structure and names.
    pub fn clone(&self) -> (r: AstSourceExpr)
        ensures
            source_view(r) == source_view(*self),
        decreases self,
    {
        match self {
            AstSourceExpr::PropRef { node_ident, prop_name } => AstSourceExpr::PropRef {
                node_ident: node_ident.clone(),
                prop_name: prop_name.clone(),
            },
            AstSourceExpr::Derivation(d) => AstSourceExpr::Derivation(d.clone()),
        }
    }
}

impl AstDerivationExpr {
    /// A copy of the expression with the same structure and names.
    pub fn clone(&self) -> (r: AstDerivationExpr)
        ensures
            deriv_view(r) == deriv_view(*self),
        decreases self,
    {
        let n = self.args.len();
        let mut args: Vec<AstSourceExpr> = Vec::new();
        let mut i: usize = 0;
        proof {
            lemma_args_view(self.args@, n as nat);
        }
        while i < n
            invariant
                n == self.args@.len(),
                i <= n,
                args@.len() == i,
                forall|j: int| 0 <= j < i ==> source_view(#[trigger] args@[j]) == source_view(self.args@[j]),
            decreases n - i,
        {
            proof {
                assert(decreases_to!(self => self.args));
                assert(decreases_to!(self.args => self.args@));
                assert(decreases_to!(self.args@ => self.args@[i as int]));
            }
            let a = self.args[i].clone();
            args.push(a);
            i = i + 1;
        }
        let r = AstDerivationExpr { function: self.function.clone(), args };
        proof {
            lemma_args_view(args@, n as nat);
            assert(args_view(args@, n as nat) =~= args_view(self.args@, n as nat));
        }
        r
    }
}

/// Structural equality of two source expressions.
pub fn source_eq(a: &AstSourceExpr, b: &AstSourceExpr) -> (r: bool)
    ensures
        r == (source_view(*a) == source_view(*b)),
    decreases a,
{
    match (a, b) {
        (
            AstSourceExpr::PropRef { node_ident: n1, prop_name: p1 },
            AstSourceExpr::PropRef { node_ident: n2, prop_name: p2 },
        ) => *n1 == *n2 && *p1 == *p2,
        (AstSourceExpr::Derivation(d1), AstSourceExpr::Derivation(d2)) => deriv_eq(d1, d2),
        _ => false,
    }
}

/// Structural equality of two derivation expressions.
pub fn deriv_eq(a: &AstDerivationExpr, b: &AstDerivationExpr) -> (r: bool)
    ensures
        r == (deriv_view(*a) == deriv_view(*b)),
    decreases a,
{
    proof {
        lemma_args_view(a.args@, a.args@.len());
        lemma_args_view(b.args@, b.args@.len());
    }
    if a.function != b.function {
        return false;
    }
    if a.args.len() != b.args.len() {
        assert(deriv_view(*a).args.len() != deriv_view(*b).args.len());
        return false;
    }
    let n = a.args.len();
    let mut i: usize = 0;
    while i < n
        invariant
            n == a.args@.len(),
            n == b.args@.len(),
            i <= n,
            forall|j: int| 0 <= j < i ==> source_view(a.args@[j]) == source_view(b.args@[j]),
            args_view(a.args@, n as nat).len() == n,
            args_view(b.args@, n as nat).len() == n,
            forall|j: int|
                0 <= j < n ==> #[trigger] args_view(a.args@, n as nat)[j] == source_view(
                    a.args@[j],
                ),
            forall|j: int|
                0 <= j < n ==> #[trigger] args_view(b.args@, n as nat)[j] == source_view(
                    b.args@[j],
                ),
        decreases n - i,
    {
        proof {
            assert(decreases_to!(a => a.args));
            assert(decreases_to!(a.args => a.args@));
            assert(decreases_to!(a.args@ => a.args@[i as int]));
        }
        if !source_eq(&a.args[i], &b.args[i]) {
            assert(args_view(a.args@, n as nat)[i as int] != args_view(b.args@, n as nat)[i as int]);
            return false;
        }
        i = i + 1;
    }
    assert(args_view(a.args@, n as nat) =~= args_view(b.args@, n as nat));
    true
}

} // verus!
