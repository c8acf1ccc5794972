//! The syntax tree, and the precedence table of the operators.
use vstd::prelude::*;

use crate::tokenized::Operators;

verus! {

/// A node of the syntax tree. Real and complex literals are held by their
/// decimal texts, as the tokens hold them.
#[derive(Debug, PartialEq)]
pub enum Node {
    Integer(i64),
    Number(String),
    Complex(String, String),
    Variable(String),
    Constant(String),
    Range { start: Box<Node>, end: Box<Node>, step: Option<Box<Node>> },
    Matrix { rows: Vec<Vec<Node>> },
    UnaryOp { op: Operators, child: Box<Node> },
    BinOp { op: Operators, left: Box<Node>, right: Box<Node> },
    FunctionCall { name: String, args: Box<Vec<Node>> },
    FunctionDef { name: String, params: Vec<String>, body: Box<Node> },
    Index { expr: Box<Node>, indices: Vec<Node> },
    EmptySlice,
    Summation { var: String, start: Box<Node>, end: Box<Node>, body: Box<Node> },
    Product { var: String, start: Box<Node>, end: Box<Node>, body: Box<Node> },
    DerivativeExpr { var: String, order: Box<Node>, body: Box<Node> },
    DefIntegral { var: String, start: Box<Node>, end: Box<Node>, body: Box<Node> },
    IndefIntegral { var: String, body: Box<Node> },
    Limit { var: String, target: Box<Node>, body: Box<Node> },
}

/// The mathematical value of a node: strings by their characters, vectors
/// by their sequences.
pub enum NodeView {
    Integer(i64),
    Number(Seq<char>),
    Complex(Seq<char>, Seq<char>),
    Variable(Seq<char>),
    Constant(Seq<char>),
    Range { start: Box<NodeView>, end: Box<NodeView>, step: Option<Box<NodeView>> },
    Matrix { rows: Seq<Seq<NodeView>> },
    UnaryOp { op: Operators, child: Box<NodeView> },
    BinOp { op: Operators, left: Box<NodeView>, right: Box<NodeView> },
    FunctionCall { name: Seq<char>, args: Seq<NodeView> },
    FunctionDef { name: Seq<char>, params: Seq<Seq<char>>, body: Box<NodeView> },
    Index { expr: Box<NodeView>, indices: Seq<NodeView> },
    EmptySlice,
    Summation { var: Seq<char>, start: Box<NodeView>, end: Box<NodeView>, body: Box<NodeView> },
    Product { var: Seq<char>, start: Box<NodeView>, end: Box<NodeView>, body: Box<NodeView> },
    DerivativeExpr { var: Seq<char>, order: Box<NodeView>, body: Box<NodeView> },
    DefIntegral { var: Seq<char>, start: Box<NodeView>, end: Box<NodeView>, body: Box<NodeView> },
    IndefIntegral { var: Seq<char>, body: Box<NodeView> },
    Limit { var: Seq<char>, target: Box<NodeView>, body: Box<NodeView> },
}

/// The characters of each string.
pub open spec fn strings_view(s: Seq<String>) -> Seq<Seq<char>> {
    s.map_values(|x: String| x@)
}

/// The view of each node of a sequence.
pub open spec fn nodes_view(s: Seq<Node>) -> Seq<NodeView>
    decreases s,
{
    Seq::new(
        s.len(),
        |i: int|
            if 0 <= i < s.len() {
                node_view(s[i])
            } else {
                NodeView::EmptySlice
            },
    )
}

/// The view of each row of a matrix.
pub open spec fn rows_view(s: Seq<Vec<Node>>) -> Seq<Seq<NodeView>>
    decreases s,
{
    Seq::new(
        s.len(),
        |i: int|
            if 0 <= i < s.len() {
                nodes_view(s[i]@)
            } else {
                Seq::empty()
            },
    )
}

/// The view of a node.
pub open spec fn node_view(n: Node) -> NodeView
    decreases n,
{
    match n {
        Node::Integer(v) => NodeView::Integer(v),
        Node::Number(s) => NodeView::Number(s@),
        Node::Complex(re, im) => NodeView::Complex(re@, im@),
        Node::Variable(s) => NodeView::Variable(s@),
        Node::Constant(s) => NodeView::Constant(s@),
        Node::Range { start, end, step } => NodeView::Range {
            start: Box::new(node_view(*start)),
            end: Box::new(node_view(*end)),
            step: match step {
                Some(s) => Some(Box::new(node_view(*s))),
                None => None,
            },
        },
        Node::Matrix { rows } => NodeView::Matrix { rows: rows_view(rows@) },
        Node::UnaryOp { op, child } => NodeView::UnaryOp { op, child: Box::new(node_view(*child)) },
        Node::BinOp { op, left, right } => NodeView::BinOp {
            op,
            left: Box::new(node_view(*left)),
            right: Box::new(node_view(*right)),
        },
        Node::FunctionCall { name, args } => NodeView::FunctionCall {
            name: name@,
            args: nodes_view((*args)@),
        },
        Node::FunctionDef { name, params, body } => NodeView::FunctionDef {
            name: name@,
            params: strings_view(params@),
            body: Box::new(node_view(*body)),
        },
        Node::Index { expr, indices } => NodeView::Index {
            expr: Box::new(node_view(*expr)),
            indices: nodes_view(indices@),
        },
        Node::EmptySlice => NodeView::EmptySlice,
        Node::Summation { var, start, end, body } => NodeView::Summation {
            var: var@,
            start: Box::new(node_view(*start)),
            end: Box::new(node_view(*end)),
            body: Box::new(node_view(*body)),
        },
        Node::Product { var, start, end, body } => NodeView::Product {
            var: var@,
            start: Box::new(node_view(*start)),
            end: Box::new(node_view(*end)),
            body: Box::new(node_view(*body)),
        },
        Node::DerivativeExpr { var, order, body } => NodeView::DerivativeExpr {
            var: var@,
            order: Box::new(node_view(*order)),
            body: Box::new(node_view(*body)),
        },
        Node::DefIntegral { var, start, end, body } => NodeView::DefIntegral {
            var: var@,
            start: Box::new(node_view(*start)),
            end: Box::new(node_view(*end)),
            body: Box::new(node_view(*body)),
        },
        Node::IndefIntegral { var, body } => NodeView::IndefIntegral {
            var: var@,
            body: Box::new(node_view(*body)),
        },
        Node::Limit { var, target, body } => NodeView::Limit {
            var: var@,
            target: Box::new(node_view(*target)),
            body: Box::new(node_view(*body)),
        },
    }
}

impl View for Node {
    type V = NodeView;

    open spec fn view(&self) -> NodeView {
        node_view(*self)
    }
}

/// The binding power of `op` as an infix operator, if it is one.
pub open spec fn infix_precedence(op: Operators) -> Option<u8> {
    match op {
        Operators::Pipe => Some(1u8),
        Operators::Ampersand => Some(2u8),
        Operators::Equal | Operators::DoubleEqual | Operators::NotEqual | Operators::LessThan
        | Operators::GreaterThan | Operators::LessEqual | Operators::GreaterEqual => Some(3u8),
        Operators::RangeDots => Some(4u8),
        Operators::Plus | Operators::Minus => Some(6u8),
        Operators::Star | Operators::Slash => Some(7u8),
        Operators::Caret => Some(9u8),
        Operators::LBracket => Some(10u8),
        _ => None,
    }
}

/// The binding power of `op` as a prefix operator, if it is one.
pub open spec fn prefix_precedence(op: Operators) -> Option<u8> {
    match op {
        Operators::Minus | Operators::Plus | Operators::Exclamation => Some(8u8),
        _ => None,
    }
}

/// Whether `op` groups to the right.
pub open spec fn right_associative(op: Operators) -> bool {
    op == Operators::Caret || op == Operators::Equal
}

impl Operators {
    /// The binding power of this operator as an infix operator, if it is one.
    pub fn bin_precedence(&self) -> (r: Option<u8>)
        ensures
            r == infix_precedence(*self),
    {
        match self {
            Operators::Pipe => Some(1),
            Operators::Ampersand => Some(2),
            Operators::Equal | Operators::DoubleEqual | Operators::NotEqual | Operators::LessThan
            | Operators::GreaterThan | Operators::LessEqual | Operators::GreaterEqual => Some(3),
            Operators::RangeDots => Some(4),
            Operators::Plus | Operators::Minus => Some(6),
            Operators::Star | Operators::Slash => Some(7),
            Operators::Caret => Some(9),
            Operators::LBracket => Some(10),
            _ => None,
        }
    }

    /// The binding power of this operator as a prefix operator, if it is one.
    pub fn unary_precedence(&self) -> (r: Option<u8>)
        ensures
            r == prefix_precedence(*self),
    {
        match self {
            Operators::Minus | Operators::Plus | Operators::Exclamation => Some(8),
            _ => None,
        }
    }

    /// Whether this operator groups to the right (`a^b^c` is `a^(b^c)`).
    pub fn is_right_associative(&self) -> (r: bool)
        ensures
            r == right_associative(*self),
    {
        matches!(self, Operators::Caret | Operators::Equal)
    }
}

/// A copy of each node of `v`.
fn copy_nodes(v: &Vec<Node>) -> (r: Vec<Node>)
    ensures
        nodes_view(r@) == nodes_view(v@),
    decreases v@, 0int,
{
    let mut r: Vec<Node> = Vec::new();
    let mut k: usize = 0;
    while k < v.len()
        invariant
            k <= v.len(),
            r@.len() == k,
            forall|i: int| 0 <= i < k ==> node_view(#[trigger] r@[i]) == node_view(v@[i]),
        decreases v.len() - k,
    {
        assert(decreases_to!(v@ => v@[k as int]));
        let c = v[k].copy();
        r.push(c);
        k = k + 1;
    }
    assert(nodes_view(r@) =~= nodes_view(v@));
    r
}

/// A copy of each row of `v`.
fn copy_rows(v: &Vec<Vec<Node>>) -> (r: Vec<Vec<Node>>)
    ensures
        rows_view(r@) == rows_view(v@),
    decreases v@, 0int,
{
    let mut r: Vec<Vec<Node>> = Vec::new();
    let mut k: usize = 0;
    while k < v.len()
        invariant
            k <= v.len(),
            r@.len() == k,
            forall|i: int| 0 <= i < k ==> nodes_view((#[trigger] r@[i])@) == nodes_view(v@[i]@),
        decreases v.len() - k,
    {
        assert(decreases_to!(v@ => v@[k as int]));
        assert(decreases_to!(v@[k as int] => v@[k as int]@));
        let c = copy_nodes(&v[k]);
        r.push(c);
        k = k + 1;
    }
    assert(rows_view(r@) =~= rows_view(v@));
    r
}

/// A copy of each string of `v`.
fn copy_strings(v: &Vec<String>) -> (r: Vec<String>)
    ensures
        strings_view(r@) == strings_view(v@),
{
    let mut r: Vec<String> = Vec::new();
    let mut k: usize = 0;
    while k < v.len()
        invariant
            k <= v.len(),
            r@.len() == k,
            forall|i: int| 0 <= i < k ==> (#[trigger] r@[i])@ == v@[i]@,
        decreases v.len() - k,
    {
        r.push(v[k].clone());
        k = k + 1;
    }
    assert(strings_view(r@) =~= strings_view(v@));
    r
}

impl Node {
    /// A copy of the node, equal to it.
    pub fn copy(&self) -> (r: Node)
        ensures
            r@ == self@,
        decreases *self, 0int,
    {
        match self {
            Node::Integer(v) => Node::Integer(*v),
            Node::Number(s) => Node::Number(s.clone()),
            Node::Complex(re, im) => Node::Complex(re.clone(), im.clone()),
            Node::Variable(s) => Node::Variable(s.clone()),
            Node::Constant(s) => Node::Constant(s.clone()),
            Node::Range { start, end, step } => {
                let step = match step {
                    Some(s) => Some(Box::new(s.copy())),
                    None => None,
                };
                Node::Range { start: Box::new(start.copy()), end: Box::new(end.copy()), step }
            },
            Node::Matrix { rows } => {
                assert(decreases_to!(*self => *rows));
                Node::Matrix { rows: copy_rows(rows) }
            },
            Node::UnaryOp { op, child } => Node::UnaryOp { op: *op, child: Box::new(child.copy()) },
            Node::BinOp { op, left, right } => Node::BinOp {
                op: *op,
                left: Box::new(left.copy()),
                right: Box::new(right.copy()),
            },
            Node::FunctionCall { name, args } => {
                let a = copy_nodes(&**args);
                Node::FunctionCall { name: name.clone(), args: Box::new(a) }
            },
            Node::FunctionDef { name, params, body } => Node::FunctionDef {
                name: name.clone(),
                params: copy_strings(params),
                body: Box::new(body.copy()),
            },
            Node::Index { expr, indices } => Node::Index {
                expr: Box::new(expr.copy()),
                indices: copy_nodes(indices),
            },
            Node::EmptySlice => Node::EmptySlice,
            Node::Summation { var, start, end, body } => Node::Summation {
                var: var.clone(),
                start: Box::new(start.copy()),
                end: Box::new(end.copy()),
                body: Box::new(body.copy()),
            },
            Node::Product { var, start, end, body } => Node::Product {
                var: var.clone(),
                start: Box::new(start.copy()),
                end: Box::new(end.copy()),
                body: Box::new(body.copy()),
            },
            Node::DerivativeExpr { var, order, body } => Node::DerivativeExpr {
                var: var.clone(),
                order: Box::new(order.copy()),
                body: Box::new(body.copy()),
            },
            Node::DefIntegral { var, start, end, body } => Node::DefIntegral {
                var: var.clone(),
                start: Box::new(start.copy()),
                end: Box::new(end.copy()),
                body: Box::new(body.copy()),
            },
            Node::IndefIntegral { var, body } => Node::IndefIntegral {
                var: var.clone(),
                body: Box::new(body.copy()),
            },
            Node::Limit { var, target, body } => Node::Limit {
                var: var.clone(),
                target: Box::new(target.copy()),
                body: Box::new(body.copy()),
            },
        }
    }
}

impl Clone for Node {
    /// A copy of the node, equal to it.
    fn clone(&self) -> (r: Self)
        ensures
            r@ == self@,
    {
        self.copy()
    }
}

} // verus!
