//! The text round trip: rendering a syntactically valid expression tree and
//! tokenizing and parsing the rendered text reproduces an equal tree.

use crate::expr::{number_fits, ExprModel};
use crate::number::{dec_text, int_text, is_digit, lemma_dec_text, lemma_parse_int_text,
    parse_int};
use crate::parser::{parse_init, parse_result, parse_run, parse_step, ParseState};
use crate::render::{render_items, render_rest, render_text};
use crate::table::{close_paren_text, false_text, lemma_same_text, open_paren_text, true_text,
    TableModel};
use crate::tokenizer::{is_atom_char, is_space, tokens_of};
use vstd::prelude::*;

verus! {

/// A text that the tokenizer reads back as one atomic token.
pub open spec fn atom_text(t: Seq<char>) -> bool {
    t.len() > 0 && (forall|i: int| 0 <= i < t.len() ==> is_atom_char(#[trigger] t[i]))
}

/// A syntactically valid tree: one that some parse could have produced.
/// Every symbol's text reads back as a single token and as nothing else —
/// not a number, not a boolean literal, not a parenthesis.
pub open spec fn renderable(e: ExprModel, tm: TableModel) -> bool
    decreases e,
{
    match e {
        ExprModel::Symbol(h) => {
            &&& 0 <= h < tm.strings.len()
            &&& atom_text(tm.strings[h])
            &&& parse_int(tm.strings[h]) is None
            &&& tm.strings[h] != true_text()
            &&& tm.strings[h] != false_text()
        },
        ExprModel::Number(n) => number_fits(n),
        ExprModel::Bool(_) => true,
        ExprModel::List(l) => renderables(l, tm),
    }
}

pub open spec fn renderables(l: Seq<ExprModel>, tm: TableModel) -> bool
    decreases l,
{
    if l.len() == 0 {
        true
    } else {
        renderable(l[0], tm) && renderables(l.drop_first(), tm)
    }
}

/// The token texts that a rendered tree produces, in reading order.
pub open spec fn token_list(e: ExprModel, tm: TableModel) -> Seq<Seq<char>>
    decreases e, 0int,
{
    match e {
        ExprModel::Symbol(h) => seq![tm.strings[h]],
        ExprModel::Number(n) => seq![int_text(n)],
        ExprModel::Bool(b) => if b {
            seq![true_text()]
        } else {
            seq![false_text()]
        },
        ExprModel::List(l) => seq![open_paren_text()] + token_list_seq(l, tm) + seq![
            close_paren_text(),
        ],
    }
}

pub open spec fn token_list_seq(l: Seq<ExprModel>, tm: TableModel) -> Seq<Seq<char>>
    decreases l, 1int,
{
    if l.len() == 0 {
        Seq::empty()
    } else {
        token_list(l[0], tm) + token_list_seq(l.drop_first(), tm)
    }
}

/// A number's canonical text is one atomic token, and its first character
/// is a sign or a digit.
proof fn lemma_int_text_atom(n: int)
    requires
        number_fits(n),
    ensures
        atom_text(int_text(n)),
        int_text(n)[0] == '-' || is_digit(int_text(n)[0]),
{
    let t = int_text(n);
    if n < 0 {
        let d = dec_text((-n) as nat);
        lemma_dec_text((-n) as nat);
        assert(t == seq!['-'] + d);
        assert(t[0] == '-');
        assert forall|i: int| 0 <= i < t.len() implies is_atom_char(#[trigger] t[i]) by {
            if i > 0 {
                assert(t[i] == d[i - 1]);
                assert(is_digit(d[i - 1]));
            }
        }
    } else {
        lemma_dec_text(n as nat);
        assert(t == dec_text(n as nat));
        assert(is_digit(t[0]));
        assert(forall|i: int| 0 <= i < t.len() ==> is_digit(#[trigger] t[i]));
    }
}

/// Every boolean literal is one atomic token.
proof fn lemma_bool_text_atom()
    ensures
        atom_text(true_text()),
        atom_text(false_text()),
{
    assert(true_text()[0] == '#' && true_text()[1] == 't');
    assert(false_text()[0] == '#' && false_text()[1] == 'f');
    assert forall|i: int| 0 <= i < true_text().len() implies is_atom_char(
        #[trigger] true_text()[i],
    ) by {
        assert(i == 0 || i == 1);
    }
    assert forall|i: int| 0 <= i < false_text().len() implies is_atom_char(
        #[trigger] false_text()[i],
    ) by {
        assert(i == 0 || i == 1);
    }
}

/// Tokenizing a rendered tree after any text that ends at a token boundary
/// appends exactly the tree's tokens.
proof fn lemma_tokens_render(a: Seq<char>, e: ExprModel, tm: TableModel)
    requires
        renderable(e, tm),
        a.len() == 0 || !is_atom_char(a.last()),
    ensures
        tokens_of(a + render_text(e, tm)) == tokens_of(a) + token_list(e, tm),
    decreases e, 0int,
{
    match e {
        ExprModel::Symbol(h) => {
            crate::tokenizer::lemma_tokens_of_append_atom(a, tm.strings[h]);
            assert(tokens_of(a).push(tm.strings[h]) =~~= tokens_of(a) + token_list(e, tm));
        },
        ExprModel::Number(n) => {
            lemma_int_text_atom(n);
            crate::tokenizer::lemma_tokens_of_append_atom(a, int_text(n));
            assert(tokens_of(a).push(int_text(n)) =~~= tokens_of(a) + token_list(e, tm));
        },
        ExprModel::Bool(b) => {
            lemma_bool_text_atom();
            let t = if b {
                true_text()
            } else {
                false_text()
            };
            crate::tokenizer::lemma_tokens_of_append_atom(a, t);
            assert(tokens_of(a).push(t) =~~= tokens_of(a) + token_list(e, tm));
        },
        ExprModel::List(l) => {
            let a1 = a + seq!['('];
            assert(a1 =~= a.push('('));
            crate::tokenizer::lemma_tokens_of_push_paren(a, '(');
            assert(tokens_of(a1) =~~= tokens_of(a).push(open_paren_text()));
            assert(a1.last() == '(');
            lemma_tokens_render_items(a1, l, tm);
            let a2 = a1 + render_items(l, tm);
            assert(tokens_of(a2) == tokens_of(a1) + token_list_seq(l, tm));
            crate::tokenizer::lemma_tokens_of_push_paren(a2, ')');
            assert(a + render_text(e, tm) =~= a2.push(')'));
            assert(tokens_of(a + render_text(e, tm)) =~~= tokens_of(a2).push(close_paren_text()));
            assert(tokens_of(a).push(open_paren_text()) + token_list_seq(l, tm) =~~= tokens_of(a)
                + (seq![open_paren_text()] + token_list_seq(l, tm)));
            assert((tokens_of(a) + (seq![open_paren_text()] + token_list_seq(l, tm))).push(
                close_paren_text(),
            ) =~~= tokens_of(a) + token_list(e, tm));
        },
    }
}

proof fn lemma_tokens_render_items(a: Seq<char>, l: Seq<ExprModel>, tm: TableModel)
    requires
        renderables(l, tm),
        a.len() == 0 || !is_atom_char(a.last()),
    ensures
        tokens_of(a + render_items(l, tm)) == tokens_of(a) + token_list_seq(l, tm),
    decreases l, 0int,
{
    if l.len() == 0 {
        assert(a + render_items(l, tm) =~= a);
        assert(tokens_of(a) + token_list_seq(l, tm) =~~= tokens_of(a));
    } else {
        lemma_tokens_render(a, l[0], tm);
        let a1 = a + render_text(l[0], tm);
        lemma_tokens_render_rest(a1, l.drop_first(), tm);
        assert(a + render_items(l, tm) =~= a1 + render_rest(l.drop_first(), tm));
        assert(tokens_of(a) + token_list(l[0], tm) + token_list_seq(l.drop_first(), tm)
            =~~= tokens_of(a) + token_list_seq(l, tm));
    }
}

proof fn lemma_tokens_render_rest(a: Seq<char>, l: Seq<ExprModel>, tm: TableModel)
    requires
        renderables(l, tm),
    ensures
        tokens_of(a + render_rest(l, tm)) == tokens_of(a) + token_list_seq(l, tm),
    decreases l, 1int,
{
    if l.len() == 0 {
        assert(a + render_rest(l, tm) =~= a);
        assert(tokens_of(a) + token_list_seq(l, tm) =~~= tokens_of(a));
    } else {
        let a1 = a + seq![' '];
        assert(a1 =~= a.push(' '));
        crate::tokenizer::lemma_tokens_of_push_space(a, ' ');
        assert(tokens_of(a1) == tokens_of(a));
        assert(a1.last() == ' ');
        lemma_tokens_render(a1, l[0], tm);
        let a2 = a1 + render_text(l[0], tm);
        lemma_tokens_render_rest(a2, l.drop_first(), tm);
        assert(a + render_rest(l, tm) =~= a2 + render_rest(l.drop_first(), tm));
        assert(tokens_of(a) + token_list(l[0], tm) + token_list_seq(l.drop_first(), tm)
            =~~= tokens_of(a) + token_list_seq(l, tm));
    }
}

/// The handles of a token sequence: each resolves to its token's text.
pub open spec fn handles_match(hs: Seq<int>, ts: Seq<Seq<char>>, tm: TableModel) -> bool {
    &&& hs.len() == ts.len()
    &&& forall|k: int| 0 <= k < hs.len()
        ==> 0 <= #[trigger] hs[k] < tm.strings.len() && tm.strings[hs[k]] == ts[k]
}

/// Feeding the tokens of one rendered tree to the parser appends exactly
/// that tree to the list being built, whatever follows.
proof fn lemma_parse_render(
    st: ParseState,
    e: ExprModel,
    hs: Seq<int>,
    rest: Seq<int>,
    tm: TableModel,
)
    requires
        tm.wf(),
        renderable(e, tm),
        handles_match(hs, token_list(e, tm), tm),
    ensures
        parse_run(st, hs + rest, tm) == parse_run(
            ParseState { stack: st.stack, curr: st.curr.push(e), errs: st.errs },
            rest,
            tm,
        ),
    decreases e, 0int,
{
    match e {
        ExprModel::Symbol(h) => {
            let t = tm.strings[h];
            lemma_atom_step(st, e, hs, rest, tm, t);
            assert(hs[0] != tm.true_symbol);
            assert(hs[0] != tm.false_symbol);
            lemma_same_text(tm, hs[0], h);
            assert(parse_step(st, hs[0], tm) == ParseState {
                stack: st.stack,
                curr: st.curr.push(e),
                errs: st.errs,
            });
        },
        ExprModel::Number(n) => {
            let t = int_text(n);
            lemma_int_text_atom(n);
            lemma_atom_step(st, e, hs, rest, tm, t);
            assert(true_text()[0] == '#' && false_text()[0] == '#');
            if hs[0] == tm.true_symbol {
                assert(t[0] == '#');
            }
            if hs[0] == tm.false_symbol {
                assert(t[0] == '#');
            }
            lemma_parse_int_text(n);
            assert(parse_step(st, hs[0], tm) == ParseState {
                stack: st.stack,
                curr: st.curr.push(e),
                errs: st.errs,
            });
        },
        ExprModel::Bool(b) => {
            let t = if b {
                true_text()
            } else {
                false_text()
            };
            lemma_bool_text_atom();
            lemma_atom_step(st, e, hs, rest, tm, t);
            assert(true_text()[1] == 't' && false_text()[1] == 'f');
            if b {
                lemma_same_text(tm, hs[0], tm.true_symbol);
            } else {
                assert(hs[0] != tm.true_symbol);
                lemma_same_text(tm, hs[0], tm.false_symbol);
            }
            assert(parse_step(st, hs[0], tm) == ParseState {
                stack: st.stack,
                curr: st.curr.push(e),
                errs: st.errs,
            });
        },
        ExprModel::List(l) => {
            let ts = token_list(e, tm);
            let tls = token_list_seq(l, tm);
            assert(ts == seq![open_paren_text()] + tls + seq![close_paren_text()]);
            assert(ts[0] == open_paren_text());
            assert(ts.len() == tls.len() + 2);
            assert(tm.strings[hs[0]] == open_paren_text());
            lemma_same_text(tm, hs[0], tm.open_paren);
            let st1 = ParseState { stack: st.stack.push(st.curr), curr: Seq::empty(), errs:
                st.errs };
            assert(parse_step(st, hs[0], tm) == st1);
            let full = hs + rest;
            assert(full[0] == hs[0]);
            let hs_mid = hs.subrange(1, 1 + tls.len() as int);
            let h_close = hs[hs.len() - 1];
            assert(full.drop_first() =~= hs_mid + (seq![h_close] + rest));
            assert(parse_run(st, full, tm) == parse_run(st1, full.drop_first(), tm));
            assert(handles_match(hs_mid, tls, tm)) by {
                assert(forall|k: int| 0 <= k < hs_mid.len()
                    ==> #[trigger] hs_mid[k] == hs[k + 1] && ts[k + 1] == tls[k]);
            }
            lemma_parse_render_seq(st1, l, hs_mid, seq![h_close] + rest, tm);
            let st2 = ParseState {
                stack: st.stack.push(st.curr),
                curr: Seq::empty() + l,
                errs: st.errs,
            };
            assert(parse_run(st1, hs_mid + (seq![h_close] + rest), tm) == parse_run(
                st2,
                seq![h_close] + rest,
                tm,
            ));
            assert(ts[ts.len() - 1] == close_paren_text());
            assert(tm.strings[h_close] == close_paren_text());
            lemma_same_text(tm, h_close, tm.close_paren);
            assert((seq![h_close] + rest)[0] == h_close);
            assert((seq![h_close] + rest).drop_first() =~= rest);
            assert(st2.stack.len() > 0);
            assert(st2.stack.last() == st.curr);
            assert(st2.stack.drop_last() =~= st.stack);
            assert(Seq::empty() + l =~= l);
            let st3 = ParseState { stack: st.stack, curr: st.curr.push(e), errs: st.errs };
            assert(parse_step(st2, h_close, tm) =~~= st3);
            assert(parse_run(st2, seq![h_close] + rest, tm) == parse_run(
                parse_step(st2, h_close, tm),
                rest,
                tm,
            ));
        },
    }
}

/// The shared shape of the three atom cases: one token, whose handle is not
/// a parenthesis.
proof fn lemma_atom_step(
    st: ParseState,
    e: ExprModel,
    hs: Seq<int>,
    rest: Seq<int>,
    tm: TableModel,
    t: Seq<char>,
)
    requires
        tm.wf(),
        hs.len() == 1,
        0 <= hs[0] < tm.strings.len(),
        tm.strings[hs[0]] == t,
        atom_text(t),
    ensures
        hs[0] != tm.open_paren,
        hs[0] != tm.close_paren,
        (hs + rest)[0] == hs[0],
        (hs + rest).drop_first() =~= rest,
        parse_run(st, hs + rest, tm) == parse_run(parse_step(st, hs[0], tm), rest, tm),
{
    assert(open_paren_text()[0] == '(');
    assert(close_paren_text()[0] == ')');
    if hs[0] == tm.open_paren {
        assert(t[0] == '(');
        assert(is_atom_char(t[0]));
    }
    if hs[0] == tm.close_paren {
        assert(t[0] == ')');
        assert(is_atom_char(t[0]));
    }
    assert((hs + rest).drop_first() =~= rest);
    assert(parse_run(st, hs + rest, tm) == parse_run(
        parse_step(st, (hs + rest)[0], tm),
        (hs + rest).drop_first(),
        tm,
    ));
}

proof fn lemma_parse_render_seq(
    st: ParseState,
    l: Seq<ExprModel>,
    hs: Seq<int>,
    rest: Seq<int>,
    tm: TableModel,
)
    requires
        tm.wf(),
        renderables(l, tm),
        handles_match(hs, token_list_seq(l, tm), tm),
    ensures
        parse_run(st, hs + rest, tm) == parse_run(
            ParseState { stack: st.stack, curr: st.curr + l, errs: st.errs },
            rest,
            tm,
        ),
    decreases l, 1int,
{
    if l.len() == 0 {
        assert(hs.len() == 0);
        assert(hs + rest =~= rest);
        assert(st.curr + l =~= st.curr);
        assert(ParseState { stack: st.stack, curr: st.curr + l, errs: st.errs } =~~= st);
    } else {
        let t0 = token_list(l[0], tm);
        let h1 = hs.take(t0.len() as int);
        let h2 = hs.skip(t0.len() as int);
        assert(token_list_seq(l, tm) == t0 + token_list_seq(l.drop_first(), tm));
        assert(handles_match(h1, t0, tm)) by {
            assert(forall|k: int| 0 <= k < h1.len()
                ==> #[trigger] h1[k] == hs[k] && token_list_seq(l, tm)[k] == t0[k]);
        }
        assert(handles_match(h2, token_list_seq(l.drop_first(), tm), tm)) by {
            assert(forall|k: int| 0 <= k < h2.len()
                ==> #[trigger] h2[k] == hs[k + t0.len()] && token_list_seq(l, tm)[k + t0.len()]
                    == token_list_seq(l.drop_first(), tm)[k]);
        }
        assert(hs + rest =~= h1 + (h2 + rest));
        lemma_parse_render(st, l[0], h1, h2 + rest, tm);
        let st1 = ParseState { stack: st.stack, curr: st.curr.push(l[0]), errs: st.errs };
        lemma_parse_render_seq(st1, l.drop_first(), h2, rest, tm);
        assert(st.curr.push(l[0]) + l.drop_first() =~= st.curr + l);
        assert(ParseState { stack: st1.stack, curr: st1.curr + l.drop_first(), errs: st1.errs }
            =~~= ParseState { stack: st.stack, curr: st.curr + l, errs: st.errs });
    }
}

/// Every token a line produces is a parenthesis or one atomic text.
pub proof fn lemma_tokens_of_shape(s: Seq<char>)
    ensures
        forall|k: int| 0 <= k < tokens_of(s).len() ==> {
            ||| #[trigger] tokens_of(s)[k] == open_paren_text()
            ||| tokens_of(s)[k] == close_paren_text()
            ||| atom_text(tokens_of(s)[k])
        },
    decreases s.len(),
{
    if s.len() > 0 {
        if is_space(s[0]) {
            lemma_tokens_of_shape(s.drop_first());
        } else if crate::tokenizer::is_paren(s[0]) {
            lemma_tokens_of_shape(s.drop_first());
            assert(tokens_of(s) == seq![seq![s[0]]] + tokens_of(s.drop_first()));
            assert forall|k: int| 0 <= k < tokens_of(s).len() implies {
                ||| #[trigger] tokens_of(s)[k] == open_paren_text()
                ||| tokens_of(s)[k] == close_paren_text()
                ||| atom_text(tokens_of(s)[k])
            } by {
                if k == 0 {
                    if s[0] == '(' {
                        assert(seq![s[0]] =~= open_paren_text());
                    } else {
                        assert(seq![s[0]] =~= close_paren_text());
                    }
                } else {
                    assert(tokens_of(s)[k] == tokens_of(s.drop_first())[k - 1]);
                }
            }
        } else {
            crate::tokenizer::lemma_atom_len_bounds(s);
            lemma_tokens_of_shape(s.skip(crate::tokenizer::atom_len(s)));
            let t = s.take(crate::tokenizer::atom_len(s));
            assert(atom_text(t)) by {
                assert(crate::tokenizer::atom_len(s) >= 1);
                assert(forall|i: int| 0 <= i < t.len()
                    ==> #[trigger] t[i] == s[i] && is_atom_char(s[i]));
            }
            assert(tokens_of(s) == seq![t] + tokens_of(s.skip(crate::tokenizer::atom_len(s))));
            assert forall|k: int| 0 <= k < tokens_of(s).len() implies {
                ||| #[trigger] tokens_of(s)[k] == open_paren_text()
                ||| tokens_of(s)[k] == close_paren_text()
                ||| atom_text(tokens_of(s)[k])
            } by {
                if k > 0 {
                    assert(tokens_of(s)[k] == tokens_of(
                        s.skip(crate::tokenizer::atom_len(s)),
                    )[k - 1]);
                }
            }
        }
    }
}

/// A handle whose text is a parenthesis or one atomic token — the only
/// handles a tokenized line can hand to the parser.
pub open spec fn tokenish(sym: int, tm: TableModel) -> bool {
    &&& 0 <= sym < tm.strings.len()
    &&& {
        ||| tm.strings[sym] == open_paren_text()
        ||| tm.strings[sym] == close_paren_text()
        ||| atom_text(tm.strings[sym])
    }
}

pub proof fn lemma_renderables_index(l: Seq<ExprModel>, tm: TableModel)
    ensures
        renderables(l, tm) <==> (forall|i: int| 0 <= i < l.len()
            ==> renderable(#[trigger] l[i], tm)),
    decreases l,
{
    if l.len() > 0 {
        lemma_renderables_index(l.drop_first(), tm);
        if forall|i: int| 0 <= i < l.len() ==> renderable(#[trigger] l[i], tm) {
            assert forall|i: int| 0 <= i < l.drop_first().len()
                implies renderable(#[trigger] l.drop_first()[i], tm) by {
                assert(l.drop_first()[i] == l[i + 1]);
            }
        } else {
            if renderables(l, tm) {
                assert forall|i: int| 0 <= i < l.len() && !renderable(#[trigger] l[i], tm)
                    implies false by {
                    if i > 0 {
                        assert(l.drop_first()[i - 1] == l[i]);
                    }
                }
            }
        }
    }
}

/// Whether every tree the parser holds mid-flight is valid.
pub open spec fn state_renderable(st: ParseState, tm: TableModel) -> bool {
    &&& renderables(st.curr, tm)
    &&& forall|i: int| 0 <= i < st.stack.len() ==> renderables(#[trigger] st.stack[i], tm)
}

/// One parse step keeps every tree in the state valid.
proof fn lemma_parse_step_renderable(st: ParseState, sym: int, tm: TableModel)
    requires
        tm.wf(),
        tokenish(sym, tm),
        state_renderable(st, tm),
    ensures
        state_renderable(parse_step(st, sym, tm), tm),
{
    let st2 = parse_step(st, sym, tm);
    lemma_renderables_index(st.curr, tm);
    if sym == tm.open_paren {
        assert forall|i: int| 0 <= i < st2.stack.len()
            implies renderables(#[trigger] st2.stack[i], tm) by {
            if i < st.stack.len() {
                assert(st2.stack[i] == st.stack[i]);
            } else {
                assert(st2.stack[i] == st.curr);
            }
        }
        assert(renderables(st2.curr, tm));
    } else if sym == tm.close_paren {
        if st.stack.len() > 0 {
            assert(renderable(ExprModel::List(st.curr), tm));
            lemma_renderables_index(st.stack.last(), tm);
            lemma_renderables_index(st.stack.last().push(ExprModel::List(st.curr)), tm);
            assert forall|i: int| 0 <= i < st2.curr.len()
                implies renderable(#[trigger] st2.curr[i], tm) by {
                if i < st.stack.last().len() {
                    assert(st2.curr[i] == st.stack.last()[i]);
                } else {
                    assert(st2.curr[i] == ExprModel::List(st.curr));
                }
            }
            assert forall|i: int| 0 <= i < st2.stack.len()
                implies renderables(#[trigger] st2.stack[i], tm) by {
                assert(st2.stack[i] == st.stack[i]);
            }
        }
    } else {
        let pushed = st2.curr;
        assert(st2.stack == st.stack);
        if sym == tm.true_symbol || sym == tm.false_symbol {
            lemma_renderables_index(pushed, tm);
            assert forall|i: int| 0 <= i < pushed.len()
                implies renderable(#[trigger] pushed[i], tm) by {
                if i < st.curr.len() {
                    assert(pushed[i] == st.curr[i]);
                }
            }
        } else {
            let t = tm.strings[sym];
            match parse_int(t) {
                Some(v) => {
                    assert(renderable(ExprModel::Number(v), tm)) by {
                        if t[0] == '-' {
                            crate::number::lemma_digits_val_bounds(t.drop_first());
                        } else if t[0] == '+' {
                            crate::number::lemma_digits_val_bounds(t.drop_first());
                        } else {
                            crate::number::lemma_digits_val_bounds(t);
                        }
                    }
                },
                None => {
                    assert(renderable(ExprModel::Symbol(sym), tm)) by {
                        assert(open_paren_text()[0] == '(');
                        assert(close_paren_text()[0] == ')');
                        if t == open_paren_text() {
                            lemma_same_text(tm, sym, tm.open_paren);
                        }
                        if t == close_paren_text() {
                            lemma_same_text(tm, sym, tm.close_paren);
                        }
                        if t == true_text() {
                            lemma_same_text(tm, sym, tm.true_symbol);
                        }
                        if t == false_text() {
                            lemma_same_text(tm, sym, tm.false_symbol);
                        }
                    }
                },
            }
            lemma_renderables_index(pushed, tm);
            assert forall|i: int| 0 <= i < pushed.len()
                implies renderable(#[trigger] pushed[i], tm) by {
                if i < st.curr.len() {
                    assert(pushed[i] == st.curr[i]);
                }
            }
        }
    }
}

proof fn lemma_parse_run_renderable(st: ParseState, syms: Seq<int>, tm: TableModel)
    requires
        tm.wf(),
        forall|k: int| 0 <= k < syms.len() ==> tokenish(#[trigger] syms[k], tm),
        state_renderable(st, tm),
    ensures
        state_renderable(parse_run(st, syms, tm), tm),
    decreases syms.len(),
{
    if syms.len() > 0 {
        lemma_parse_step_renderable(st, syms[0], tm);
        assert(forall|k: int| 0 <= k < syms.drop_first().len()
            ==> tokenish(#[trigger] syms.drop_first()[k], tm));
        lemma_parse_run_renderable(parse_step(st, syms[0], tm), syms.drop_first(), tm);
    }
}

/// The parser only builds valid trees: whatever a tokenized line parses to
/// can be rendered and read back.
pub proof fn lemma_parse_result_renderable(syms: Seq<int>, tm: TableModel)
    requires
        tm.wf(),
        forall|k: int| 0 <= k < syms.len() ==> tokenish(#[trigger] syms[k], tm),
    ensures
        parse_result(syms, tm) matches Ok(es) ==> renderables(es, tm),
{
    assert(state_renderable(parse_init(), tm));
    lemma_parse_run_renderable(parse_init(), syms, tm);
}

/// A valid tree stays valid when the table only grows.
proof fn lemma_renderable_grow(e: ExprModel, tm0: TableModel, tm2: TableModel)
    requires
        renderable(e, tm0),
        tm0.strings.is_prefix_of(tm2.strings),
    ensures
        renderable(e, tm2),
    decreases e,
{
    match e {
        ExprModel::Symbol(h) => {
            assert(tm2.strings[h] == tm2.strings.take(tm0.strings.len() as int)[h]);
        },
        ExprModel::List(l) => {
            lemma_renderables_grow(l, tm0, tm2);
        },
        _ => {},
    }
}

proof fn lemma_renderables_grow(l: Seq<ExprModel>, tm0: TableModel, tm2: TableModel)
    requires
        renderables(l, tm0),
        tm0.strings.is_prefix_of(tm2.strings),
    ensures
        renderables(l, tm2),
    decreases l,
{
    if l.len() > 0 {
        lemma_renderable_grow(l[0], tm0, tm2);
        lemma_renderables_grow(l.drop_first(), tm0, tm2);
    }
}

/// A valid tree renders to the same text when the table only grows.
proof fn lemma_render_grow(e: ExprModel, tm0: TableModel, tm2: TableModel)
    requires
        renderable(e, tm0),
        tm0.strings.is_prefix_of(tm2.strings),
    ensures
        render_text(e, tm2) == render_text(e, tm0),
    decreases e, 0int,
{
    match e {
        ExprModel::Symbol(h) => {
            assert(tm2.strings[h] == tm2.strings.take(tm0.strings.len() as int)[h]);
        },
        ExprModel::List(l) => {
            lemma_render_items_grow(l, tm0, tm2);
        },
        _ => {},
    }
}

proof fn lemma_render_items_grow(l: Seq<ExprModel>, tm0: TableModel, tm2: TableModel)
    requires
        renderables(l, tm0),
        tm0.strings.is_prefix_of(tm2.strings),
    ensures
        render_items(l, tm2) == render_items(l, tm0),
    decreases l, 0int,
{
    if l.len() > 0 {
        lemma_render_grow(l[0], tm0, tm2);
        lemma_render_rest_grow(l.drop_first(), tm0, tm2);
    }
}

proof fn lemma_render_rest_grow(l: Seq<ExprModel>, tm0: TableModel, tm2: TableModel)
    requires
        renderables(l, tm0),
        tm0.strings.is_prefix_of(tm2.strings),
    ensures
        render_rest(l, tm2) == render_rest(l, tm0),
    decreases l, 1int,
{
    if l.len() > 0 {
        lemma_render_grow(l[0], tm0, tm2);
        lemma_render_rest_grow(l.drop_first(), tm0, tm2);
    }
}

/// Law: for any syntactically valid expression tree, rendering it and then
/// tokenizing and parsing its canonical text yields exactly that one tree
/// back.  `hs` are the handles the tokenizer assigned: each resolves to its
/// token's text in the (possibly grown) well-formed table.
pub proof fn lemma_round_trip(e: ExprModel, tm: TableModel, hs: Seq<int>)
    requires
        tm.wf(),
        renderable(e, tm),
        handles_match(hs, tokens_of(render_text(e, tm)), tm),
    ensures
        parse_result(hs, tm) == Ok::<_, Seq<crate::expr::ParseError>>(seq![e]),
{
    lemma_tokens_render(Seq::empty(), e, tm);
    assert(Seq::<char>::empty() + render_text(e, tm) =~= render_text(e, tm));
    assert(tokens_of(Seq::<char>::empty()) =~~= Seq::<Seq<char>>::empty());
    assert(Seq::<Seq<char>>::empty() + token_list(e, tm) =~= token_list(e, tm));
    assert(tokens_of(render_text(e, tm)) == token_list(e, tm));
    lemma_parse_render(parse_init(), e, hs, Seq::empty(), tm);
    assert(hs + Seq::<int>::empty() =~= hs);
    let st_end = ParseState {
        stack: Seq::empty(),
        curr: Seq::<ExprModel>::empty().push(e),
        errs: Seq::empty(),
    };
    assert(parse_run(st_end, Seq::<int>::empty(), tm) == st_end);
    assert(parse_run(parse_init(), hs, tm) == st_end);
    assert(st_end.curr =~= seq![e]);
}


/// Law, stated against the real pipeline: render a valid tree, tokenize its
/// text (which interns every token), and parse the handles the interner
/// assigned — the one resulting tree equals the tree that was rendered.
/// The table may have grown; its well-known handles have not moved.
pub proof fn lemma_round_trip_pipeline(e: ExprModel, tm0: TableModel)
    requires
        tm0.wf(),
        renderable(e, tm0),
        crate::table::intern_all(
            tm0.strings,
            tokens_of(render_text(e, tm0)),
        ).len() <= usize::MAX,
    ensures
        ({
            let ts = tokens_of(render_text(e, tm0));
            let tm2 = TableModel {
                strings: crate::table::intern_all(tm0.strings, ts),
                open_paren: tm0.open_paren,
                close_paren: tm0.close_paren,
                add_symbol: tm0.add_symbol,
                sub_symbol: tm0.sub_symbol,
                mul_symbol: tm0.mul_symbol,
                div_symbol: tm0.div_symbol,
                true_symbol: tm0.true_symbol,
                false_symbol: tm0.false_symbol,
                if_symbol: tm0.if_symbol,
            };
            parse_result(crate::table::intern_handles(tm0.strings, ts), tm2)
                == Ok::<_, Seq<crate::expr::ParseError>>(seq![e])
        }),
{
    let ts = tokens_of(render_text(e, tm0));
    let m2 = crate::table::intern_all(tm0.strings, ts);
    let hs = crate::table::intern_handles(tm0.strings, ts);
    let tm2 = TableModel {
        strings: m2,
        open_paren: tm0.open_paren,
        close_paren: tm0.close_paren,
        add_symbol: tm0.add_symbol,
        sub_symbol: tm0.sub_symbol,
        mul_symbol: tm0.mul_symbol,
        div_symbol: tm0.div_symbol,
        true_symbol: tm0.true_symbol,
        false_symbol: tm0.false_symbol,
        if_symbol: tm0.if_symbol,
    };
    crate::table::lemma_intern_all_props(tm0.strings, ts);
    assert(tm2.wf()) by {
        assert(m2.take(tm0.strings.len() as int) == tm0.strings);
        assert(m2[tm0.open_paren] == m2.take(tm0.strings.len() as int)[tm0.open_paren]);
        assert(m2[tm0.close_paren] == m2.take(tm0.strings.len() as int)[tm0.close_paren]);
        assert(m2[tm0.add_symbol] == m2.take(tm0.strings.len() as int)[tm0.add_symbol]);
        assert(m2[tm0.sub_symbol] == m2.take(tm0.strings.len() as int)[tm0.sub_symbol]);
        assert(m2[tm0.mul_symbol] == m2.take(tm0.strings.len() as int)[tm0.mul_symbol]);
        assert(m2[tm0.div_symbol] == m2.take(tm0.strings.len() as int)[tm0.div_symbol]);
        assert(m2[tm0.true_symbol] == m2.take(tm0.strings.len() as int)[tm0.true_symbol]);
        assert(m2[tm0.false_symbol] == m2.take(tm0.strings.len() as int)[tm0.false_symbol]);
        assert(m2[tm0.if_symbol] == m2.take(tm0.strings.len() as int)[tm0.if_symbol]);
    }
    lemma_renderable_grow(e, tm0, tm2);
    lemma_render_grow(e, tm0, tm2);
    assert(handles_match(hs, tokens_of(render_text(e, tm2)), tm2));
    lemma_round_trip(e, tm2, hs);
}

} // verus!
