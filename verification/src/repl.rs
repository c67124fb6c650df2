//! One read–eval–print cycle: a raw line in, one output line per top-level
//! expression (or per structural error) out.

use crate::eval::{eval, eval_spec};
use crate::expr::ExprModel;
use crate::parser::{parse, parse_result};
use crate::render::{eval_error_text, format_value, output_text, parse_error_text};
use crate::table::{intern_all, intern_handles, InternTable, TableModel};
use crate::tokenizer::{tokenize, tokens_of};
use vstd::prelude::*;

verus! {

/// The output lines for a token stream: every structural error's
/// diagnostic, or else one line per top-level expression, each either its
/// evaluated value or an error line.
pub open spec fn line_outputs(syms: Seq<int>, tm: TableModel) -> Seq<Seq<char>> {
    match parse_result(syms, tm) {
        Err(es) => Seq::new(es.len(), |i: int| parse_error_text(es[i])),
        Ok(es) => Seq::new(
            es.len(),
            |i: int|
                match eval_spec(es[i], tm) {
                    Ok(v) => output_text(v, tm),
                    Err(e) => "ERROR: "@ + eval_error_text(e),
                },
        ),
    }
}

/// Process one line of input: tokenize, parse, evaluate each top-level
/// expression, and format the results or diagnostics in order.
#[verifier::loop_isolation(false)]
pub fn run_line(line: &str, table: &mut InternTable) -> (r: Vec<String>)
    requires
        old(table)@.wf(),
        old(table)@.strings.len() + line@.len() < usize::MAX,
    ensures
        final(table)@.wf(),
        final(table)@.open_paren == old(table)@.open_paren,
        final(table)@.close_paren == old(table)@.close_paren,
        final(table)@.add_symbol == old(table)@.add_symbol,
        final(table)@.sub_symbol == old(table)@.sub_symbol,
        final(table)@.mul_symbol == old(table)@.mul_symbol,
        final(table)@.div_symbol == old(table)@.div_symbol,
        final(table)@.true_symbol == old(table)@.true_symbol,
        final(table)@.false_symbol == old(table)@.false_symbol,
        final(table)@.if_symbol == old(table)@.if_symbol,
        old(table)@.strings.is_prefix_of(final(table)@.strings),
        final(table)@.strings == intern_all(old(table)@.strings, tokens_of(line@)),
        Seq::new(r@.len(), |i: int| r@[i]@) == line_outputs(
            intern_handles(old(table)@.strings, tokens_of(line@)),
            final(table)@,
        ),
{
    let tokens = tokenize(line, table);
    let ghost tm = table@;
    let ghost syms = Seq::new(tokens@.len(), |k: int| tokens@[k] as int);
    proof {
        assert(syms == intern_handles(old(table)@.strings, tokens_of(line@)));
    }
    let ghost expected = line_outputs(syms, tm);
    let mut out: Vec<String> = Vec::new();
    match parse(tokens, table) {
        Err(errs) => {
            proof {
                assert(parse_result(syms, tm) == Err::<Seq<ExprModel>, _>(errs@));
            }
            let mut i: usize = 0;
            while i < errs.len()
                invariant
                    i <= errs@.len(),
                    out@.len() == i,
                    forall|k: int| 0 <= k < i ==> (#[trigger] out@[k])@ == expected[k],
                decreases errs@.len() - i,
            {
                out.push(errs[i].message());
                i = i + 1;
            }
        },
        Ok(exprs) => {
            proof {
                assert(parse_result(syms, tm) == Ok::<_, Seq<crate::expr::ParseError>>(
                    crate::expr::model_seq(exprs@),
                ));
                crate::expr::lemma_model_seq(exprs@);
                crate::expr::lemma_exprs_wf(
                    crate::expr::model_seq(exprs@),
                    tm.strings.len() as int,
                );
            }
            let ghost es = crate::expr::model_seq(exprs@);
            let mut i: usize = 0;
            while i < exprs.len()
                invariant
                    i <= exprs@.len(),
                    out@.len() == i,
                    forall|k: int| 0 <= k < i ==> (#[trigger] out@[k])@ == expected[k],
                decreases exprs@.len() - i,
            {
                proof {
                    assert(es[i as int] == exprs@[i as int]@);
                    assert(crate::expr::expr_wf(es[i as int], tm.strings.len() as int));
                }
                match eval(&exprs[i], table) {
                    Ok(v) => {
                        out.push(format_value(&v, table));
                    },
                    Err(e) => {
                        let mut s = String::new();
                        s.append("ERROR: ");
                        let msg = e.message();
                        s.append(msg.as_str());
                        out.push(s);
                    },
                }
                i = i + 1;
            }
        },
    }
    proof {
        assert(Seq::new(out@.len(), |i: int| out@[i]@) =~~= expected);
    }
    out
}

} // verus!
