//! The abstract syntax tree the code generator consumes: a node is an
//! operator tag together with an ordered list of owned children.

use vstd::prelude::*;

verus! {

/// Operator tag of an AST node.
#[derive(Debug, Copy, Clone)]
pub enum Op {
    Add,
    Mul,
    Div,
    Sub,
    Mod,
    And,
    Or,
    XOr,
    Not,
    Lt,
    LtOE,
    Gt,
    GtOE,
    Eq,
    NotEq,
    If,
    When,
    Unless,
    Start,
    End,
    Num(u32),
}

/// An AST node: an operator together with its ordered children.
#[derive(Debug)]
pub struct Expression {
    pub op: Op,
    pub exprs: Vec<Expression>,
}

/// Mathematical counterpart of `Expression`: the same tree with the child
/// vector abstracted to a sequence. Contracts speak of this form.
pub struct ExprModel {
    pub op: Op,
    pub children: Seq<ExprModel>,
}

/// Abstraction of an AST node to its mathematical tree.
pub open spec fn expr_view(e: Expression) -> ExprModel
    decreases e,
{
    ExprModel { op: e.op, children: exprs_view(e.exprs@) }
}

/// Abstraction of a sequence of AST nodes, elementwise.
pub open spec fn exprs_view(es: Seq<Expression>) -> Seq<ExprModel>
    decreases es,
{
    if es.len() == 0 {
        Seq::empty()
    } else {
        seq![expr_view(es[0])] + exprs_view(es.drop_first())
    }
}

/// `exprs_view` maps the sequence elementwise.
pub proof fn lemma_exprs_view(es: Seq<Expression>)
    ensures
        exprs_view(es).len() == es.len(),
        forall|i: int| 0 <= i < es.len() ==> exprs_view(es)[i] == expr_view(es[i]),
    decreases es.len(),
{
    if es.len() > 0 {
        lemma_exprs_view(es.drop_first());
    }
}

/// Appending a node to a list appends its view.
pub proof fn lemma_exprs_view_push(es: Seq<Expression>, e: Expression)
    ensures
        exprs_view(es.push(e)) == exprs_view(es).push(expr_view(e)),
    decreases es.len(),
{
    if es.len() == 0 {
        assert(es.push(e)[0] == e);
        assert(es.push(e).drop_first() =~= Seq::<Expression>::empty());
        assert(exprs_view(Seq::<Expression>::empty()) =~= Seq::<ExprModel>::empty());
        assert(es =~= Seq::<Expression>::empty());
        assert(exprs_view(es.push(e)) == seq![expr_view(e)] + exprs_view(
            Seq::<Expression>::empty(),
        ));
        assert(exprs_view(es.push(e)) =~= exprs_view(es).push(expr_view(e)));
    } else {
        assert(es.push(e)[0] == es[0]);
        assert(es.push(e).drop_first() =~= es.drop_first().push(e));
        lemma_exprs_view_push(es.drop_first(), e);
        assert(exprs_view(es.push(e)) == seq![expr_view(es[0])] + exprs_view(
            es.drop_first().push(e),
        ));
        assert(exprs_view(es.push(e)) =~= exprs_view(es).push(expr_view(e)));
    }
}

impl Expression {
    /// A fresh empty program: a `Start` root with no children yet.
    pub fn new_program() -> (e: Expression)
        ensures
            e.op is Start,
            e.exprs@.len() == 0,
    {
        Expression { op: Op::Start, exprs: Vec::new() }
    }

    /// The empty terminal expression, which compiles to no bytes.
    pub fn end_program() -> (e: Expression)
        ensures
            e.op is End,
            e.exprs@.len() == 0,
    {
        Expression { op: Op::End, exprs: Vec::new() }
    }
}

} // verus!
