//! The parser: folds a token stream into top-level expression trees,
//! collecting structural errors instead of stopping at the first one.

use crate::expr::{exprs_wf, model_seq, Expr, ExprModel, ParseError};
use crate::number::{parse_i64, parse_int};
use crate::table::{InternTable, TableModel};
use vstd::prelude::*;

verus! {

/// The parser's state between tokens: the frames of unfinished outer lists,
/// the list being built, and the errors found so far.
#[verifier::ext_equal]
pub struct ParseState {
    pub stack: Seq<Seq<ExprModel>>,
    pub curr: Seq<ExprModel>,
    pub errs: Seq<ParseError>,
}

pub open spec fn parse_init() -> ParseState {
    ParseState { stack: Seq::empty(), curr: Seq::empty(), errs: Seq::empty() }
}

/// What one token does to the state.  An open parenthesis descends one
/// level; a close parenthesis finishes the current list, or is recorded and
/// then treated as absent when nothing is open; boolean literals and numeric
/// texts become their values; everything else stays a symbol.
pub open spec fn parse_step(st: ParseState, sym: int, tm: TableModel) -> ParseState {
    if sym == tm.open_paren {
        ParseState { stack: st.stack.push(st.curr), curr: Seq::empty(), errs: st.errs }
    } else if sym == tm.close_paren {
        if st.stack.len() > 0 {
            ParseState {
                stack: st.stack.drop_last(),
                curr: st.stack.last().push(ExprModel::List(st.curr)),
                errs: st.errs,
            }
        } else {
            ParseState {
                stack: st.stack,
                curr: st.curr,
                errs: st.errs.push(ParseError::UnmatchedCloser),
            }
        }
    } else if sym == tm.true_symbol {
        ParseState { stack: st.stack, curr: st.curr.push(ExprModel::Bool(true)), errs: st.errs }
    } else if sym == tm.false_symbol {
        ParseState { stack: st.stack, curr: st.curr.push(ExprModel::Bool(false)), errs: st.errs }
    } else {
        match parse_int(tm.strings[sym]) {
            Some(v) => ParseState {
                stack: st.stack,
                curr: st.curr.push(ExprModel::Number(v)),
                errs: st.errs,
            },
            None => ParseState {
                stack: st.stack,
                curr: st.curr.push(ExprModel::Symbol(sym)),
                errs: st.errs,
            },
        }
    }
}

pub open spec fn parse_run(st: ParseState, syms: Seq<int>, tm: TableModel) -> ParseState
    decreases syms.len(),
{
    if syms.len() == 0 {
        st
    } else {
        parse_run(parse_step(st, syms[0], tm), syms.drop_first(), tm)
    }
}

/// The parse of a whole token stream: run the fold, report every still-open
/// scope as one aggregate error, and hand back either the top-level
/// expressions or all the errors.
pub open spec fn parse_result(syms: Seq<int>, tm: TableModel) -> Result<
    Seq<ExprModel>,
    Seq<ParseError>,
> {
    let st = parse_run(parse_init(), syms, tm);
    let errs = if st.stack.len() > 0 {
        st.errs.push(ParseError::UnmatchedOpeners { depth: st.stack.len() as usize })
    } else {
        st.errs
    };
    if errs.len() != 0 {
        Err(errs)
    } else {
        Ok(st.curr)
    }
}

/// Running one more token steps the fold once.
pub proof fn lemma_parse_run_snoc(st: ParseState, syms: Seq<int>, i: int, tm: TableModel)
    requires
        0 <= i < syms.len(),
    ensures
        parse_run(st, syms.take(i + 1), tm) == parse_step(
            parse_run(st, syms.take(i), tm),
            syms[i],
            tm,
        ),
    decreases i,
{
    let st1 = parse_step(st, syms[0], tm);
    if i == 0 {
        assert(syms.take(1) =~= seq![syms[0]]);
        assert(syms.take(1).drop_first() =~= Seq::<int>::empty());
        assert(syms.take(0) =~= Seq::<int>::empty());
        assert(parse_run(st, syms.take(0), tm) == st);
        assert(parse_run(st1, syms.take(1).drop_first(), tm) == st1);
        assert(parse_run(st, syms.take(1), tm) == parse_run(st1, syms.take(1).drop_first(), tm));
    } else {
        assert(syms.take(i + 1)[0] == syms[0]);
        assert(syms.take(i)[0] == syms[0]);
        assert(syms.take(i + 1).drop_first() =~= syms.drop_first().take(i));
        assert(syms.take(i).drop_first() =~= syms.drop_first().take(i - 1));
        assert(parse_run(st, syms.take(i + 1), tm) == parse_run(
            st1,
            syms.take(i + 1).drop_first(),
            tm,
        ));
        assert(parse_run(st, syms.take(i), tm) == parse_run(st1, syms.take(i).drop_first(), tm));
        lemma_parse_run_snoc(st1, syms.drop_first(), i - 1, tm);
        assert(syms.drop_first()[i - 1] == syms[i]);
    }
}

/// The models of a stack of unfinished frames.
pub open spec fn stack_model(s: Seq<Vec<Expr>>) -> Seq<Seq<ExprModel>> {
    Seq::new(s.len(), |i: int| model_seq(s[i]@))
}

/// Whether every frame on a stack is well formed against `n` symbols.
pub open spec fn stack_wf(s: Seq<Seq<ExprModel>>, n: int) -> bool {
    forall|i: int| 0 <= i < s.len() ==> exprs_wf(#[trigger] s[i], n)
}

/// Parse a token stream against the table that interned it.  The result is
/// exactly `parse_result`: all structural errors in discovery order with an
/// aggregate count of unclosed scopes last, or the top-level trees.
#[verifier::loop_isolation(false)]
pub fn parse(token_stream: Vec<usize>, table: &InternTable) -> (r: Result<Vec<Expr>, Vec<
    ParseError,
>>)
    requires
        table@.wf(),
        forall|k: int| 0 <= k < token_stream@.len()
            ==> #[trigger] token_stream@[k] < table@.strings.len(),
    ensures
        ({
            let syms = Seq::new(token_stream@.len(), |k: int| token_stream@[k] as int);
            match r {
                Ok(es) => parse_result(syms, table@) == Ok::<_, Seq<ParseError>>(model_seq(es@))
                    && exprs_wf(model_seq(es@), table@.strings.len() as int),
                Err(es) => parse_result(syms, table@) == Err::<Seq<ExprModel>, _>(es@),
            }
        }),
{
    let ghost tm = table@;
    let ghost syms = Seq::new(token_stream@.len(), |k: int| token_stream@[k] as int);
    let mut stack: Vec<Vec<Expr>> = Vec::new();
    let mut curr: Vec<Expr> = Vec::new();
    let mut errs: Vec<ParseError> = Vec::new();
    let mut i: usize = 0;
    proof {
        assert(syms.take(0) =~= Seq::<int>::empty());
        assert(stack_model(stack@) =~~= parse_run(parse_init(), syms.take(0), tm).stack);
        assert(model_seq(curr@) =~~= parse_run(parse_init(), syms.take(0), tm).curr);
    }
    while i < token_stream.len()
        invariant
            i <= token_stream@.len(),
            ({
                let st = parse_run(parse_init(), syms.take(i as int), tm);
                &&& stack_model(stack@) == st.stack
                &&& model_seq(curr@) == st.curr
                &&& errs@ == st.errs
                &&& stack_wf(st.stack, tm.strings.len() as int)
                &&& exprs_wf(st.curr, tm.strings.len() as int)
            }),
        decreases token_stream@.len() - i,
    {
        let ghost st = parse_run(parse_init(), syms.take(i as int), tm);
        proof {
            lemma_parse_run_snoc(parse_init(), syms, i as int, tm);
            crate::expr::lemma_model_seq(curr@);
            crate::expr::lemma_exprs_wf(st.curr, tm.strings.len() as int);
        }
        let symbol = token_stream[i];
        proof {
            assert(syms[i as int] == symbol as int);
        }
        if symbol == table.open_paren {
            stack.push(curr);
            curr = Vec::new();
            proof {
                assert(stack_model(stack@) =~~= st.stack.push(st.curr));
                assert(model_seq(curr@) =~~= Seq::<ExprModel>::empty());
                let n = tm.strings.len() as int;
                assert forall|q: int| 0 <= q < st.stack.push(st.curr).len()
                    implies exprs_wf(#[trigger] st.stack.push(st.curr)[q], n) by {
                    if q < st.stack.len() {
                        assert(st.stack.push(st.curr)[q] == st.stack[q]);
                    } else {
                        assert(st.stack.push(st.curr)[q] == st.curr);
                    }
                }
            }
        } else if symbol == table.close_paren {
            let finished = curr;
            match stack.pop() {
                Some(mut outer) => {
                    let ghost outer0 = outer@;
                    proof {
                        assert(st.stack.len() > 0);
                        assert(model_seq(outer0) == st.stack.last());
                        crate::expr::lemma_model_seq(outer0);
                        crate::expr::lemma_exprs_wf(st.stack.last(), tm.strings.len() as int);
                    }
                    outer.push(Expr::List(finished));
                    curr = outer;
                    proof {
                        assert(stack_model(stack@) =~~= st.stack.drop_last());
                        crate::expr::lemma_model_seq(curr@);
                        assert(curr@ == outer0.push(Expr::List(finished)));
                        assert((Expr::List(finished))@ == ExprModel::List(model_seq(finished@)));
                        assert(model_seq(curr@) =~~= st.stack.last().push(
                            ExprModel::List(st.curr),
                        ));
                        crate::expr::lemma_exprs_wf(model_seq(curr@), tm.strings.len() as int);
                        assert forall|q: int| 0 <= q < model_seq(curr@).len()
                            implies crate::expr::expr_wf(
                            #[trigger] model_seq(curr@)[q],
                            tm.strings.len() as int,
                        ) by {
                            if q < st.stack.last().len() {
                                crate::expr::lemma_exprs_wf(
                                    st.stack.last(),
                                    tm.strings.len() as int,
                                );
                            }
                        }
                        let n = tm.strings.len() as int;
                        assert forall|q: int| 0 <= q < st.stack.drop_last().len()
                            implies exprs_wf(#[trigger] st.stack.drop_last()[q], n) by {
                            assert(st.stack.drop_last()[q] == st.stack[q]);
                        }
                    }
                },
                None => {
                    curr = finished;
                    errs.push(ParseError::UnmatchedCloser);
                    proof {
                        assert(st.stack.len() == 0);
                    }
                },
            }
        } else if symbol == table.true_symbol {
            curr.push(Expr::Bool(true));
            proof {
                crate::expr::lemma_model_seq(curr@);
                assert(model_seq(curr@) =~~= st.curr.push(ExprModel::Bool(true)));
                let n = tm.strings.len() as int;
                crate::expr::lemma_exprs_wf(model_seq(curr@), n);
                assert forall|q: int| 0 <= q < model_seq(curr@).len()
                    implies crate::expr::expr_wf(#[trigger] model_seq(curr@)[q], n) by {
                    if q < st.curr.len() {
                        assert(model_seq(curr@)[q] == st.curr[q]);
                    }
                }
            }
        } else if symbol == table.false_symbol {
            curr.push(Expr::Bool(false));
            proof {
                crate::expr::lemma_model_seq(curr@);
                assert(model_seq(curr@) =~~= st.curr.push(ExprModel::Bool(false)));
                let n = tm.strings.len() as int;
                crate::expr::lemma_exprs_wf(model_seq(curr@), n);
                assert forall|q: int| 0 <= q < model_seq(curr@).len()
                    implies crate::expr::expr_wf(#[trigger] model_seq(curr@)[q], n) by {
                    if q < st.curr.len() {
                        assert(model_seq(curr@)[q] == st.curr[q]);
                    }
                }
            }
        } else {
            let text = table.resolve(symbol);
            match parse_i64(text.as_str()) {
                Some(num) => {
                    curr.push(Expr::Number(num));
                    proof {
                        crate::expr::lemma_model_seq(curr@);
                        assert(model_seq(curr@) =~~= st.curr.push(ExprModel::Number(num as int)));
                        let n = tm.strings.len() as int;
                        crate::expr::lemma_exprs_wf(model_seq(curr@), n);
                        assert forall|q: int| 0 <= q < model_seq(curr@).len()
                            implies crate::expr::expr_wf(
                            #[trigger] model_seq(curr@)[q],
                            n,
                        ) by {
                            if q < st.curr.len() {
                                assert(model_seq(curr@)[q] == st.curr[q]);
                            }
                        }
                    }
                },
                None => {
                    curr.push(Expr::Symbol(symbol));
                    proof {
                        crate::expr::lemma_model_seq(curr@);
                        assert(model_seq(curr@) =~~= st.curr.push(
                            ExprModel::Symbol(symbol as int),
                        ));
                        let n = tm.strings.len() as int;
                        crate::expr::lemma_exprs_wf(model_seq(curr@), n);
                        assert forall|q: int| 0 <= q < model_seq(curr@).len()
                            implies crate::expr::expr_wf(
                            #[trigger] model_seq(curr@)[q],
                            n,
                        ) by {
                            if q < st.curr.len() {
                                assert(model_seq(curr@)[q] == st.curr[q]);
                            }
                        }
                    }
                },
            }
        }
        proof {
            let st2 = parse_step(st, symbol as int, tm);
            assert(parse_run(parse_init(), syms.take(i as int + 1), tm) == st2);
            assert(stack_model(stack@) == st2.stack);
            assert(model_seq(curr@) == st2.curr);
            assert(errs@ == st2.errs);
            assert(stack_wf(st2.stack, tm.strings.len() as int));
            assert(exprs_wf(st2.curr, tm.strings.len() as int));
        }
        i = i + 1;
    }
    proof {
        assert(syms.take(token_stream@.len() as int) =~= syms);
    }
    if stack.len() > 0 {
        errs.push(ParseError::UnmatchedOpeners { depth: stack.len() });
    }
    if errs.len() != 0 {
        Err(errs)
    } else {
        Ok(curr)
    }
}

} // verus!
