//! Expression trees and the two error families: structural (parse) errors,
//! which are accumulated, and semantic (evaluation) errors, which are
//! reported one per top-level expression.

use vstd::prelude::*;

verus! {

/// A tagged expression value: an interned symbol handle, a signed 64-bit
/// integer, a boolean, or an ordered list of sub-expressions.
#[derive(Debug, PartialEq, Eq)]
pub enum Expr {
    Symbol(usize),
    Number(i64),
    Bool(bool),
    List(Vec<Expr>),
}

/// Mathematical counterpart of `Expr`: list nodes carry a `Seq` of children.
#[verifier::ext_equal]
pub enum ExprModel {
    Symbol(int),
    Number(int),
    Bool(bool),
    List(Seq<ExprModel>),
}

/// The models of a sequence of expressions, in order.
pub open spec fn model_seq(l: Seq<Expr>) -> Seq<ExprModel>
    decreases l,
{
    if l.len() == 0 {
        Seq::empty()
    } else {
        seq![l[0]@] + model_seq(l.drop_first())
    }
}

impl View for Expr {
    type V = ExprModel;

    open spec fn view(&self) -> ExprModel
        decreases self,
    {
        match self {
            Expr::Symbol(h) => ExprModel::Symbol(*h as int),
            Expr::Number(n) => ExprModel::Number(*n as int),
            Expr::Bool(b) => ExprModel::Bool(*b),
            Expr::List(l) => ExprModel::List(model_seq(l@)),
        }
    }
}

pub proof fn lemma_model_seq(l: Seq<Expr>)
    ensures
        model_seq(l).len() == l.len(),
        forall|i: int| 0 <= i < l.len() ==> model_seq(l)[i] == l[i]@,
    decreases l,
{
    if l.len() > 0 {
        lemma_model_seq(l.drop_first());
        let rest = model_seq(l.drop_first());
        assert(model_seq(l) == seq![l[0]@] + rest);
        assert(model_seq(l).len() == l.len());
        assert forall|i: int| 0 <= i < l.len() implies model_seq(l)[i] == l[i]@ by {
            if i > 0 {
                assert(l.drop_first()[i - 1] == l[i]);
                assert(model_seq(l)[i] == rest[i - 1]);
            }
        }
    }
}

/// A number literal's model always fits the machine integer it came from;
/// `number_fits` is the bound the renderer and evaluator rely on.
pub open spec fn number_fits(n: int) -> bool {
    i64::MIN <= n <= i64::MAX
}

/// Every symbol handle in the tree points into a table of `n` strings, and
/// every number fits 64 signed bits.
pub open spec fn expr_wf(e: ExprModel, n: int) -> bool
    decreases e,
{
    match e {
        ExprModel::Symbol(h) => 0 <= h < n,
        ExprModel::Number(v) => number_fits(v),
        ExprModel::Bool(_) => true,
        ExprModel::List(l) => exprs_wf(l, n),
    }
}

pub open spec fn exprs_wf(l: Seq<ExprModel>, n: int) -> bool
    decreases l,
{
    if l.len() == 0 {
        true
    } else {
        expr_wf(l[0], n) && exprs_wf(l.drop_first(), n)
    }
}

pub proof fn lemma_exprs_wf(l: Seq<ExprModel>, n: int)
    ensures
        exprs_wf(l, n) <==> (forall|i: int| 0 <= i < l.len() ==> expr_wf(#[trigger] l[i], n)),
    decreases l,
{
    if l.len() > 0 {
        lemma_exprs_wf(l.drop_first(), n);
        if forall|i: int| 0 <= i < l.len() ==> expr_wf(#[trigger] l[i], n) {
            assert forall|i: int| 0 <= i < l.drop_first().len()
                implies expr_wf(#[trigger] l.drop_first()[i], n) by {
                assert(l.drop_first()[i] == l[i + 1]);
            }
        } else {
            if exprs_wf(l, n) {
                assert forall|i: int| 0 <= i < l.len() && !expr_wf(#[trigger] l[i], n)
                    implies false by {
                    if i > 0 {
                        assert(l.drop_first()[i - 1] == l[i]);
                    }
                }
            }
        }
    }
}

impl Clone for Expr {
    /// A deep copy: evaluation reads sub-expressions without consuming the
    /// parent tree.
    #[verifier::loop_isolation(false)]
    fn clone(&self) -> (r: Self)
        ensures
            r@ == self@,
        decreases *self,
    {
        match self {
            Expr::Symbol(h) => Expr::Symbol(*h),
            Expr::Number(n) => Expr::Number(*n),
            Expr::Bool(b) => Expr::Bool(*b),
            Expr::List(l) => {
                let mut v: Vec<Expr> = Vec::new();
                let mut i: usize = 0;
                while i < l.len()
                    invariant
                        i <= l.len(),
                        v@.len() == i,
                        forall|j: int| 0 <= j < i ==> (#[trigger] v@[j])@ == l@[j]@,
                    decreases l.len() - i,
                {
                    proof {
                        assert(decreases_to!(*self => self->List_0));
                        assert(decreases_to!(self->List_0 => self->List_0[i as int]));
                    }
                    v.push(l[i].clone());
                    i = i + 1;
                }
                proof {
                    lemma_model_seq(v@);
                    lemma_model_seq(l@);
                    assert(model_seq(v@) =~= model_seq(l@));
                }
                Expr::List(v)
            },
        }
    }
}

/// A structural error found while parsing one line.  All such errors for the
/// line are collected; none stops the parse.
#[derive(Clone, Copy, Debug, PartialEq, Eq, Structural)]
pub enum ParseError {
    /// A closing delimiter with no corresponding open.
    UnmatchedCloser,
    /// One or more open delimiters never closed; `depth` counts the scopes
    /// still open at end of input.
    UnmatchedOpeners { depth: usize },
}

/// A semantic failure during evaluation; the first one ends the evaluation
/// of its top-level expression.
#[derive(Clone, Copy, Debug, PartialEq, Eq, Structural)]
pub enum EvalError {
    /// An empty list was called.
    EmptyCall,
    /// The head of a non-empty list did not reduce to a symbol.
    NonSymbolHead,
    /// An arithmetic operator was handed a non-number argument.
    TypeMismatch,
    /// The head symbol names no operator of the language.
    UnknownOperator,
    /// An operator received the wrong number of arguments.
    ArityError,
    /// A division with a zero divisor.
    DivideByZero,
    /// The condition of an `if` did not reduce to a boolean.
    NonBooleanCondition,
}

} // verus!
