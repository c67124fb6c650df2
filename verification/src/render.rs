//! Rendering: the canonical text of an expression tree, the line printed
//! for an evaluation result, and the diagnostic line of each error.

use crate::expr::{expr_wf, exprs_wf, Expr, ExprModel, EvalError, ParseError};
use crate::number::{dec_text, int_text, render_i64, render_u64};
use crate::table::{InternTable, TableModel};
use vstd::prelude::*;

verus! {

/// The canonical text of an expression: numbers in decimal, the boolean
/// literals, a symbol's own text, and lists in parentheses with one space
/// between the items.  Re-parsing this text reproduces the tree.
pub open spec fn render_text(e: ExprModel, tm: TableModel) -> Seq<char>
    decreases e, 0int,
{
    match e {
        ExprModel::Symbol(h) => tm.strings[h],
        ExprModel::Number(n) => int_text(n),
        ExprModel::Bool(b) => if b {
            crate::table::true_text()
        } else {
            crate::table::false_text()
        },
        ExprModel::List(l) => seq!['('] + render_items(l, tm) + seq![')'],
    }
}

/// The items of a list: the first bare, each further one after one space.
pub open spec fn render_items(l: Seq<ExprModel>, tm: TableModel) -> Seq<char>
    decreases l, 0int,
{
    if l.len() == 0 {
        Seq::empty()
    } else {
        render_text(l[0], tm) + render_rest(l.drop_first(), tm)
    }
}

pub open spec fn render_rest(l: Seq<ExprModel>, tm: TableModel) -> Seq<char>
    decreases l, 1int,
{
    if l.len() == 0 {
        Seq::empty()
    } else {
        seq![' '] + render_text(l[0], tm) + render_rest(l.drop_first(), tm)
    }
}

/// Rendering one more item appends a separator (after the first) and its
/// text.
pub proof fn lemma_render_items_snoc(l: Seq<ExprModel>, k: int, tm: TableModel)
    requires
        0 <= k < l.len(),
    ensures
        k == 0 ==> render_items(l.take(1), tm) == render_text(l[0], tm),
        k > 0 ==> render_items(l.take(k + 1), tm) == render_items(l.take(k), tm) + seq![' ']
            + render_text(l[k], tm),
    decreases k,
{
    if k == 0 {
        assert(l.take(1) =~= seq![l[0]]);
        assert(l.take(1).drop_first() =~= Seq::<ExprModel>::empty());
        assert(render_rest(l.take(1).drop_first(), tm) == Seq::<char>::empty());
        assert(render_text(l[0], tm) + Seq::<char>::empty() =~= render_text(l[0], tm));
    } else {
        lemma_render_rest_snoc(l.drop_first(), k - 1, tm);
        assert(l.take(k + 1)[0] == l[0]);
        assert(l.take(k)[0] == l[0]);
        assert(l.take(k + 1).drop_first() =~= l.drop_first().take(k));
        assert(l.take(k).drop_first() =~= l.drop_first().take(k - 1));
        assert(l.drop_first()[k - 1] == l[k]);
        assert(render_items(l.take(k + 1), tm) == render_text(l[0], tm) + render_rest(
            l.drop_first().take(k),
            tm,
        ));
        assert(render_items(l.take(k), tm) == render_text(l[0], tm) + render_rest(
            l.drop_first().take(k - 1),
            tm,
        ));
        assert(render_text(l[0], tm) + (render_rest(l.drop_first().take(k - 1), tm) + seq![' ']
            + render_text(l[k], tm)) =~= render_text(l[0], tm) + render_rest(
            l.drop_first().take(k - 1),
            tm,
        ) + seq![' '] + render_text(l[k], tm));
    }
}

pub proof fn lemma_render_rest_snoc(l: Seq<ExprModel>, k: int, tm: TableModel)
    requires
        0 <= k < l.len(),
    ensures
        render_rest(l.take(k + 1), tm) == render_rest(l.take(k), tm) + seq![' '] + render_text(
            l[k],
            tm,
        ),
    decreases k,
{
    if k == 0 {
        assert(l.take(1) =~= seq![l[0]]);
        assert(l.take(1).drop_first() =~= Seq::<ExprModel>::empty());
        assert(l.take(0) =~= Seq::<ExprModel>::empty());
        assert(render_rest(l.take(0), tm) == Seq::<char>::empty());
        assert(render_rest(l.take(1), tm) == seq![' '] + render_text(l[0], tm) + Seq::<
            char,
        >::empty());
        assert(render_rest(l.take(0), tm) + seq![' '] + render_text(l[0], tm) =~= render_rest(
            l.take(1),
            tm,
        ));
    } else {
        lemma_render_rest_snoc(l.drop_first(), k - 1, tm);
        assert(l.take(k + 1)[0] == l[0]);
        assert(l.take(k)[0] == l[0]);
        assert(l.take(k + 1).drop_first() =~= l.drop_first().take(k));
        assert(l.take(k).drop_first() =~= l.drop_first().take(k - 1));
        assert(l.drop_first()[k - 1] == l[k]);
        assert(render_rest(l.take(k + 1), tm) == seq![' '] + render_text(l[0], tm) + render_rest(
            l.drop_first().take(k),
            tm,
        ));
        assert(render_rest(l.take(k), tm) == seq![' '] + render_text(l[0], tm) + render_rest(
            l.drop_first().take(k - 1),
            tm,
        ));
        assert(seq![' '] + render_text(l[0], tm) + (render_rest(l.drop_first().take(k - 1), tm)
            + seq![' '] + render_text(l[k], tm)) =~= seq![' '] + render_text(l[0], tm)
            + render_rest(l.drop_first().take(k - 1), tm) + seq![' '] + render_text(l[k], tm));
    }
}

/// Render an expression in its canonical textual form.
#[verifier::loop_isolation(false)]
pub fn render(expr: &Expr, table: &InternTable) -> (r: String)
    requires
        table@.wf(),
        expr_wf(expr@, table@.strings.len() as int),
    ensures
        r@ == render_text(expr@, table@),
    decreases *expr,
{
    let ghost tm = table@;
    match expr {
        Expr::Symbol(h) => table.resolve(*h),
        Expr::Number(n) => render_i64(*n),
        Expr::Bool(b) => {
            if *b {
                proof {
                    reveal_strlit("#t");
                    assert("#t"@ =~= crate::table::true_text());
                }
                let mut s = String::new();
                s.append("#t");
                proof {
                    assert(s@ =~= crate::table::true_text());
                }
                s
            } else {
                proof {
                    reveal_strlit("#f");
                    assert("#f"@ =~= crate::table::false_text());
                }
                let mut s = String::new();
                s.append("#f");
                proof {
                    assert(s@ =~= crate::table::false_text());
                }
                s
            }
        },
        Expr::List(l) => {
            let ghost lm = crate::expr::model_seq(l@);
            proof {
                crate::expr::lemma_model_seq(l@);
                crate::expr::lemma_exprs_wf(lm, tm.strings.len() as int);
                reveal_strlit("(");
                reveal_strlit(")");
                reveal_strlit(" ");
            }
            let mut s = String::new();
            s.append("(");
            proof {
                assert("("@ =~= seq!['(']);
                assert(lm.take(0) =~= Seq::<ExprModel>::empty());
                assert(render_items(lm.take(0), tm) == Seq::<char>::empty());
                assert(s@ =~= seq!['('] + render_items(lm.take(0), tm));
            }
            let mut i: usize = 0;
            while i < l.len()
                invariant
                    i <= l@.len(),
                    s@ == seq!['('] + render_items(lm.take(i as int), tm),
                decreases l@.len() - i,
            {
                let ghost s_pre = s@;
                if i > 0 {
                    s.append(" ");
                    proof {
                        assert(" "@ =~= seq![' ']);
                    }
                }
                proof {
                    assert(decreases_to!(*expr => expr->List_0));
                    assert(decreases_to!(expr->List_0 => l@[i as int]));
                    assert(lm[i as int] == l@[i as int]@);
                    assert(expr_wf(lm[i as int], tm.strings.len() as int));
                }
                let part = render(&l[i], table);
                s.append(part.as_str());
                proof {
                    lemma_render_items_snoc(lm, i as int, tm);
                    if i == 0 {
                        assert(s@ =~= seq!['('] + render_items(lm.take(1), tm));
                    } else {
                        assert(s@ =~= s_pre + seq![' '] + render_text(lm[i as int], tm));
                        assert(s@ =~= seq!['('] + render_items(lm.take(i as int + 1), tm));
                    }
                }
                i = i + 1;
            }
            s.append(")");
            proof {
                assert(")"@ =~= seq![')']);
                assert(lm.take(l@.len() as int) =~= lm);
                assert(s@ =~= seq!['('] + render_items(lm, tm) + seq![')']);
            }
            s
        },
    }
}

/// The text of the four-letter boolean words used when a result is shown.
pub open spec fn true_word() -> Seq<char> {
    seq!['t', 'r', 'u', 'e']
}

pub open spec fn false_word() -> Seq<char> {
    seq!['f', 'a', 'l', 's', 'e']
}

/// The line shown for a successfully evaluated expression: numbers in
/// decimal, `true`/`false` for booleans, `#:` before a symbol's text, and a
/// list in its canonical form.
pub open spec fn output_text(e: ExprModel, tm: TableModel) -> Seq<char> {
    match e {
        ExprModel::Number(n) => int_text(n),
        ExprModel::Bool(b) => if b {
            true_word()
        } else {
            false_word()
        },
        ExprModel::Symbol(h) => seq!['#', ':'] + tm.strings[h],
        ExprModel::List(_) => render_text(e, tm),
    }
}

/// Format an evaluation result for the caller.
pub fn format_value(expr: &Expr, table: &InternTable) -> (r: String)
    requires
        table@.wf(),
        expr_wf(expr@, table@.strings.len() as int),
    ensures
        r@ == output_text(expr@, table@),
{
    match expr {
        Expr::Number(n) => render_i64(*n),
        Expr::Bool(b) => {
            let mut s = String::new();
            if *b {
                proof {
                    reveal_strlit("true");
                    assert("true"@ =~= true_word());
                }
                s.append("true");
            } else {
                proof {
                    reveal_strlit("false");
                    assert("false"@ =~= false_word());
                }
                s.append("false");
            }
            proof {
                assert(s@ =~= output_text(expr@, table@));
            }
            s
        },
        Expr::Symbol(h) => {
            proof {
                reveal_strlit("#:");
            }
            let mut s = String::new();
            s.append("#:");
            let name = table.resolve(*h);
            s.append(name.as_str());
            proof {
                assert("#:"@ =~= seq!['#', ':']);
                assert(s@ =~= output_text(expr@, table@));
            }
            s
        },
        Expr::List(_) => render(expr, table),
    }
}

/// The message of each evaluation error.
pub open spec fn eval_error_text(e: EvalError) -> Seq<char> {
    match e {
        EvalError::EmptyCall => "called empty list"@,
        EvalError::NonSymbolHead => "Nonsymbol in head position: Cannot call"@,
        EvalError::TypeMismatch => "Non number in math function"@,
        EvalError::UnknownOperator => "Unknown op"@,
        EvalError::ArityError => "Wrong number of args"@,
        EvalError::DivideByZero => "Divide by zero!"@,
        EvalError::NonBooleanCondition => "Non boolean condition to if statement"@,
    }
}

impl EvalError {
    /// The user-facing message of this error.
    pub fn message(&self) -> (r: String)
        ensures
            r@ == eval_error_text(*self),
    {
        match self {
            EvalError::EmptyCall => "called empty list".to_owned(),
            EvalError::NonSymbolHead => "Nonsymbol in head position: Cannot call".to_owned(),
            EvalError::TypeMismatch => "Non number in math function".to_owned(),
            EvalError::UnknownOperator => "Unknown op".to_owned(),
            EvalError::ArityError => "Wrong number of args".to_owned(),
            EvalError::DivideByZero => "Divide by zero!".to_owned(),
            EvalError::NonBooleanCondition => "Non boolean condition to if statement".to_owned(),
        }
    }
}

/// The diagnostic line of each structural error.
pub open spec fn parse_error_text(e: ParseError) -> Seq<char> {
    match e {
        ParseError::UnmatchedCloser => "Unmatched closing delimiter"@,
        ParseError::UnmatchedOpeners { depth } => dec_text(depth as nat)
            + " unmatched opening delimiter"@,
    }
}

impl ParseError {
    /// The user-facing diagnostic of this error.
    pub fn message(&self) -> (r: String)
        ensures
            r@ == parse_error_text(*self),
    {
        match self {
            ParseError::UnmatchedCloser => "Unmatched closing delimiter".to_owned(),
            ParseError::UnmatchedOpeners { depth } => {
                let mut s = render_u64(*depth as u64);
                s.append(" unmatched opening delimiter");
                proof {
                    assert(s@ == parse_error_text(*self));
                }
                s
            },
        }
    }
}

} // verus!
