use vstd::prelude::*;

verus! {

/// A literal value of the language.
#[derive(Clone, Debug, PartialEq)]
pub enum AstValue {
    Int(i64),
    /// String literal bytes; the parser terminates them with a NUL byte.
    Text(Vec<u8>),
}

/// A node of the syntax tree. Every node owns its children.
#[derive(Debug, PartialEq)]
pub enum AstNode {
    Literal(AstValue),
    Identifier(String),
    /// A call: `print` or one of the infix operators `&&`, `==`, `%`.
    Call(String, Vec<AstNode>),
    Assign(String, Box<AstNode>),
    If { cond_expr: Box<AstNode>, true_expr: Vec<AstNode>, false_expr: Vec<AstNode> },
    For { ident: String, first: i64, last: i64, body: Vec<AstNode> },
}

/// `a` and `b` are the same tree: the same kinds of node, with equal
/// names, numbers, bytes and children.
pub open spec fn same_tree(a: AstNode, b: AstNode) -> bool
    decreases a,
{
    match (a, b) {
        (AstNode::Literal(AstValue::Int(i)), AstNode::Literal(AstValue::Int(j))) => i == j,
        (AstNode::Literal(AstValue::Text(x)), AstNode::Literal(AstValue::Text(y))) => x@ == y@,
        (AstNode::Identifier(x), AstNode::Identifier(y)) => x@ == y@,
        (AstNode::Call(x, xs), AstNode::Call(y, ys)) => x@ == y@ && same_trees(xs@, ys@),
        (AstNode::Assign(x, r), AstNode::Assign(y, q)) => x@ == y@ && same_tree(*r, *q),
        (AstNode::If { cond_expr: c, true_expr: t, false_expr: f },
            AstNode::If { cond_expr: d, true_expr: u, false_expr: g }) =>
            same_tree(*c, *d) && same_trees(t@, u@) && same_trees(f@, g@),
        (AstNode::For { ident: x, first: a1, last: a2, body: xs },
            AstNode::For { ident: y, first: b1, last: b2, body: ys }) =>
            x@ == y@ && a1 == b1 && a2 == b2 && same_trees(xs@, ys@),
        _ => false,
    }
}

/// `a` and `b` hold the same trees, in order.
pub open spec fn same_trees(a: Seq<AstNode>, b: Seq<AstNode>) -> bool
    decreases a,
{
    a.len() == b.len() && forall|i: int| 0 <= i < a.len() ==> same_tree(#[trigger] a[i], b[i])
}

fn clone_nodes(v: &Vec<AstNode>) -> (r: Vec<AstNode>)
    ensures
        same_trees(v@, r@),
    decreases v,
{
    let mut r: Vec<AstNode> = Vec::new();
    let mut i: usize = 0;
    while i < v.len()
        invariant
            i <= v@.len(),
            r@.len() == i,
            forall|k: int| 0 <= k < i ==> same_tree(#[trigger] v@[k], r@[k]),
        decreases v@.len() - i,
    {
        r.push(v[i].clone_node());
        i = i + 1;
    }
    r
}

impl AstNode {
    /// A copy of the tree.
    pub fn clone_node(&self) -> (r: AstNode)
        ensures
            same_tree(*self, r),
        decreases self,
    {
        match self {
            AstNode::Literal(AstValue::Int(i)) => AstNode::Literal(AstValue::Int(*i)),
            AstNode::Literal(AstValue::Text(b)) => {
                let c = b.clone();
                assert(c@ =~= b@);
                AstNode::Literal(AstValue::Text(c))
            },
            AstNode::Identifier(x) => AstNode::Identifier(x.clone()),
            AstNode::Call(name, args) => AstNode::Call(name.clone(), clone_nodes(args)),
            AstNode::Assign(name, rhs) => AstNode::Assign(name.clone(), Box::new(rhs.clone_node())),
            AstNode::If { cond_expr, true_expr, false_expr } => AstNode::If {
                cond_expr: Box::new(cond_expr.clone_node()),
                true_expr: clone_nodes(true_expr),
                false_expr: clone_nodes(false_expr),
            },
            AstNode::For { ident, first, last, body } => AstNode::For {
                ident: ident.clone(),
                first: *first,
                last: *last,
                body: clone_nodes(body),
            },
        }
    }
}

impl Clone for AstNode {
    fn clone(&self) -> Self {
        self.clone_node()
    }
}

} // verus!
