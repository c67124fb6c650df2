//! The tokenizer: splits a raw line into interned tokens.  A parenthesis is
//! a token of its own wherever it stands; any other maximal run of
//! non-whitespace characters is one atomic token.

use crate::table::{intern_all, intern_handles, lemma_intern_all_snoc, InternTable};
use vstd::prelude::*;

verus! {

/// The whitespace the tokenizer splits on.
pub open spec fn is_space(c: char) -> bool {
    c == ' ' || c == '\t' || c == '\n' || c == '\r'
}

/// Parentheses delimit themselves: no space around them is needed.
pub open spec fn is_paren(c: char) -> bool {
    c == '(' || c == ')'
}

/// A character that continues an atomic token.
pub open spec fn is_atom_char(c: char) -> bool {
    !is_space(c) && !is_paren(c)
}

/// The length of the longest atom prefix of `s`.
pub open spec fn atom_len(s: Seq<char>) -> int
    decreases s.len(),
{
    if s.len() == 0 || !is_atom_char(s[0]) {
        0
    } else {
        1 + atom_len(s.drop_first())
    }
}

pub proof fn lemma_atom_len_bounds(s: Seq<char>)
    ensures
        0 <= atom_len(s) <= s.len(),
        forall|i: int| 0 <= i < atom_len(s) ==> is_atom_char(#[trigger] s[i]),
        atom_len(s) < s.len() ==> !is_atom_char(s[atom_len(s)]),
    decreases s.len(),
{
    if s.len() > 0 && is_atom_char(s[0]) {
        lemma_atom_len_bounds(s.drop_first());
        assert forall|i: int| 0 <= i < atom_len(s) implies is_atom_char(#[trigger] s[i]) by {
            if i > 0 {
                assert(s.drop_first()[i - 1] == s[i]);
            }
        }
        if atom_len(s) < s.len() {
            assert(s.drop_first()[atom_len(s) - 1] == s[atom_len(s)]);
        }
    }
}

/// The token texts of a line, in reading order.
pub open spec fn tokens_of(s: Seq<char>) -> Seq<Seq<char>>
    decreases s.len(),
    via tokens_of_decreases
{
    if s.len() == 0 {
        Seq::empty()
    } else if is_space(s[0]) {
        tokens_of(s.drop_first())
    } else if is_paren(s[0]) {
        seq![seq![s[0]]] + tokens_of(s.drop_first())
    } else {
        seq![s.take(atom_len(s))] + tokens_of(s.skip(atom_len(s)))
    }
}

#[via_fn]
proof fn tokens_of_decreases(s: Seq<char>) {
    lemma_atom_len_bounds(s);
}

/// A line has no more tokens than characters.
pub proof fn lemma_tokens_of_count(s: Seq<char>)
    ensures
        tokens_of(s).len() <= s.len(),
    decreases s.len(),
{
    if s.len() > 0 {
        if is_space(s[0]) || is_paren(s[0]) {
            lemma_tokens_of_count(s.drop_first());
        } else {
            lemma_atom_len_bounds(s);
            lemma_tokens_of_count(s.skip(atom_len(s)));
        }
    }
}

/// An all-atom text is one atom.
pub proof fn lemma_atom_len_all(t: Seq<char>)
    requires
        forall|i: int| 0 <= i < t.len() ==> is_atom_char(#[trigger] t[i]),
    ensures
        atom_len(t) == t.len(),
    decreases t.len(),
{
    if t.len() > 0 {
        assert(forall|i: int| 0 <= i < t.drop_first().len()
            ==> #[trigger] t.drop_first()[i] == t[i + 1]);
        lemma_atom_len_all(t.drop_first());
    }
}

/// Appending a non-atom character does not lengthen the leading atom.
proof fn lemma_atom_len_push(a: Seq<char>, c: char)
    requires
        !is_atom_char(c),
    ensures
        atom_len(a.push(c)) == atom_len(a),
    decreases a.len(),
{
    let p = a.push(c);
    if a.len() == 0 {
        assert(p[0] == c);
    } else {
        assert(p[0] == a[0]);
        if is_atom_char(a[0]) {
            assert(p.drop_first() =~= a.drop_first().push(c));
            lemma_atom_len_push(a.drop_first(), c);
        }
    }
}

/// A space at the end of a line adds no token.
pub proof fn lemma_tokens_of_push_space(a: Seq<char>, c: char)
    requires
        is_space(c),
    ensures
        tokens_of(a.push(c)) == tokens_of(a),
    decreases a.len(),
{
    let p = a.push(c);
    if a.len() == 0 {
        assert(p[0] == c);
        assert(p.len() == 1);
        assert(is_space(p[0]));
        assert(tokens_of(p) == tokens_of(p.drop_first()));
        assert(p.drop_first() =~= a);
        assert(tokens_of(a) == Seq::<Seq<char>>::empty());
        assert(tokens_of(p) == tokens_of(a));
    } else if is_space(a[0]) || is_paren(a[0]) {
        assert(p[0] == a[0]);
        assert(p.drop_first() =~= a.drop_first().push(c));
        lemma_tokens_of_push_space(a.drop_first(), c);
        assert(tokens_of(p) == tokens_of(a));
    } else {
        assert(p[0] == a[0]);
        lemma_atom_len_bounds(a);
        lemma_atom_len_push(a, c);
        let k = atom_len(a);
        assert(p.take(k) =~= a.take(k));
        assert(p.skip(k) =~= a.skip(k).push(c));
        lemma_tokens_of_push_space(a.skip(k), c);
        assert(tokens_of(p) == seq![p.take(atom_len(p))] + tokens_of(p.skip(atom_len(p))));
        assert(tokens_of(a) == seq![a.take(k)] + tokens_of(a.skip(k)));
        assert(p.take(atom_len(p)) == a.take(k));
        assert(tokens_of(p.skip(atom_len(p))) == tokens_of(a.skip(k)));
    }
}

/// A parenthesis at the end of a line is exactly one more token.
pub proof fn lemma_tokens_of_push_paren(a: Seq<char>, c: char)
    requires
        is_paren(c),
    ensures
        tokens_of(a.push(c)) =~~= tokens_of(a).push(seq![c]),
    decreases a.len(),
{
    let p = a.push(c);
    if a.len() == 0 {
        assert(p[0] == c);
        assert(p.drop_first() =~= Seq::<char>::empty());
        assert(tokens_of(Seq::<char>::empty()) =~~= Seq::<Seq<char>>::empty());
    } else if is_space(a[0]) || is_paren(a[0]) {
        assert(p[0] == a[0]);
        assert(p.drop_first() =~= a.drop_first().push(c));
        lemma_tokens_of_push_paren(a.drop_first(), c);
    } else {
        assert(p[0] == a[0]);
        lemma_atom_len_bounds(a);
        lemma_atom_len_push(a, c);
        let k = atom_len(a);
        assert(p.take(k) =~= a.take(k));
        assert(p.skip(k) =~= a.skip(k).push(c));
        lemma_tokens_of_push_paren(a.skip(k), c);
    }
}

/// A whole atom appended after a token boundary is exactly one more token.
/// The boundary matters: right after another atom the two would merge.
pub proof fn lemma_tokens_of_append_atom(a: Seq<char>, t: Seq<char>)
    requires
        t.len() > 0,
        forall|i: int| 0 <= i < t.len() ==> is_atom_char(#[trigger] t[i]),
        a.len() == 0 || !is_atom_char(a.last()),
    ensures
        tokens_of(a + t) =~~= tokens_of(a).push(t),
    decreases a.len(),
{
    let p = a + t;
    if a.len() == 0 {
        assert(p =~= t);
        assert(is_atom_char(t[0]));
        lemma_atom_len_all(t);
        assert(t.take(atom_len(t)) =~= t);
        assert(t.skip(atom_len(t)) =~= Seq::<char>::empty());
        assert(tokens_of(Seq::<char>::empty()) =~~= Seq::<Seq<char>>::empty());
        assert(tokens_of(a) =~~= Seq::<Seq<char>>::empty());
    } else if is_space(a[0]) || is_paren(a[0]) {
        assert(p[0] == a[0]);
        assert(p.drop_first() =~= a.drop_first() + t);
        if a.len() == 1 {
            assert(a.last() == a[0]);
        } else {
            assert(a.drop_first().last() == a.last());
        }
        lemma_tokens_of_append_atom(a.drop_first(), t);
    } else {
        assert(p[0] == a[0]);
        lemma_atom_len_bounds(a);
        let k = atom_len(a);
        // The leading atom of `a` stops before the end of `a`, because the
        // last character of `a` is not an atom character.
        assert(is_atom_char(a[0]));
        assert(k < a.len()) by {
            if k == a.len() {
                assert(is_atom_char(a[k - 1]));
                assert(a[k - 1] == a.last());
            }
        }
        assert(atom_len(p) == k) by {
            lemma_atom_len_concat(a, t);
        }
        assert(p.take(k) =~= a.take(k));
        assert(p.skip(k) =~= a.skip(k) + t);
        assert(a.skip(k).last() == a.last());
        lemma_tokens_of_append_atom(a.skip(k), t);
    }
}

/// When the leading atom of `a` stops inside `a`, appending more text does
/// not change it.
proof fn lemma_atom_len_concat(a: Seq<char>, t: Seq<char>)
    requires
        atom_len(a) < a.len(),
    ensures
        atom_len(a + t) == atom_len(a),
    decreases a.len(),
{
    let p = a + t;
    lemma_atom_len_bounds(a);
    if a.len() > 0 {
        assert(p[0] == a[0]);
        if is_atom_char(a[0]) {
            assert(p.drop_first() =~= a.drop_first() + t);
            lemma_atom_len_concat(a.drop_first(), t);
        }
    }
}

/// Scan the atom that starts at `start`; returns the position just past it.
fn scan_atom(expr: &str, start: usize, len: usize) -> (j: usize)
    requires
        len == expr@.len(),
        start < len,
        is_atom_char(expr@[start as int]),
    ensures
        start < j <= len,
        j - start == atom_len(expr@.skip(start as int)),
{
    let ghost tail = expr@.skip(start as int);
    proof {
        lemma_atom_len_bounds(tail);
    }
    let mut j: usize = start;
    while j < len
        invariant
            len == expr@.len(),
            start < len,
            tail == expr@.skip(start as int),
            start <= j <= len,
            j - start <= atom_len(tail),
            atom_len(tail) <= tail.len(),
            forall|i: int| 0 <= i < atom_len(tail) ==> is_atom_char(#[trigger] tail[i]),
            atom_len(tail) < tail.len() ==> !is_atom_char(tail[atom_len(tail)]),
        ensures
            start <= j <= len,
            j - start == atom_len(tail),
        decreases len - j,
    {
        proof {
            assert(tail[j - start] == expr@[j as int]);
        }
        let c = expr.get_char(j);
        if c == ' ' || c == '\t' || c == '\n' || c == '\r' || c == '(' || c == ')' {
            proof {
                assert(!is_atom_char(tail[j - start]));
                if j - start < atom_len(tail) {
                    assert(is_atom_char(tail[j - start]));
                }
            }
            break;
        }
        proof {
            assert(is_atom_char(expr@[j as int]));
        }
        j = j + 1;
        proof {
            if j - start > atom_len(tail) {
                assert(atom_len(tail) < tail.len());
                assert(!is_atom_char(tail[atom_len(tail)]));
                assert(tail[atom_len(tail)] == expr@[atom_len(tail) + start]);
                assert(is_atom_char(expr@[atom_len(tail) + start]));
            }
        }
    }
    proof {
        if j == len {
            assert(j - start == tail.len());
            assert(atom_len(tail) <= tail.len());
        }
    }
    j
}

/// Tokenize one line: split on whitespace, treat each parenthesis as its own
/// token, and intern every token in reading order.  Pure but for the growth
/// of the symbol table; never fails.
#[verifier::loop_isolation(false)]
pub fn tokenize(expr: &str, table: &mut InternTable) -> (r: Vec<usize>)
    requires
        old(table)@.wf(),
        old(table)@.strings.len() + expr@.len() < usize::MAX,
    ensures
        final(table)@.wf(),
        final(table)@.open_paren == old(table)@.open_paren,
        final(table)@.close_paren == old(table)@.close_paren,
        final(table)@.add_symbol == old(table)@.add_symbol,
        final(table)@.sub_symbol == old(table)@.sub_symbol,
        final(table)@.mul_symbol == old(table)@.mul_symbol,
        final(table)@.div_symbol == old(table)@.div_symbol,
        final(table)@.true_symbol == old(table)@.true_symbol,
        final(table)@.false_symbol == old(table)@.false_symbol,
        final(table)@.if_symbol == old(table)@.if_symbol,
        old(table)@.strings.is_prefix_of(final(table)@.strings),
        final(table)@.strings.len() <= old(table)@.strings.len() + tokens_of(expr@).len(),
        final(table)@.strings == intern_all(old(table)@.strings, tokens_of(expr@)),
        r@.len() == tokens_of(expr@).len(),
        Seq::new(r@.len(), |k: int| r@[k] as int) == intern_handles(
            old(table)@.strings,
            tokens_of(expr@),
        ),
        forall|k: int| 0 <= k < r@.len() ==> r@[k] < final(table)@.strings.len(),
        forall|k: int| 0 <= k < r@.len()
            ==> final(table)@.strings[#[trigger] r@[k] as int] == tokens_of(expr@)[k],
{
    let len = expr.unicode_len();
    let mut toks: Vec<usize> = Vec::new();
    let mut i: usize = 0;
    proof {
        lemma_tokens_of_count(expr@);
        assert(expr@.take(0) =~= Seq::<char>::empty());
        assert(expr@.skip(0) =~= expr@);
        assert(tokens_of(Seq::<char>::empty()) =~~= Seq::<Seq<char>>::empty());
        assert(tokens_of(expr@).take(0) =~= Seq::<Seq<char>>::empty());
        assert(intern_all(old(table)@.strings, tokens_of(expr@).take(0)) == old(table)@.strings);
        assert(Seq::new(0, |k: int| toks@[k] as int) =~= intern_handles(
            old(table)@.strings,
            tokens_of(expr@).take(0),
        ));
    }
    while i < len
        invariant
            i <= len,
            table@.wf(),
            table@.open_paren == old(table)@.open_paren,
            table@.close_paren == old(table)@.close_paren,
            table@.add_symbol == old(table)@.add_symbol,
            table@.sub_symbol == old(table)@.sub_symbol,
            table@.mul_symbol == old(table)@.mul_symbol,
            table@.div_symbol == old(table)@.div_symbol,
            table@.true_symbol == old(table)@.true_symbol,
            table@.false_symbol == old(table)@.false_symbol,
            table@.if_symbol == old(table)@.if_symbol,
            old(table)@.strings.is_prefix_of(table@.strings),
            table@.strings == intern_all(
                old(table)@.strings,
                tokens_of(expr@).take(toks@.len() as int),
            ),
            Seq::new(toks@.len(), |k: int| toks@[k] as int) == intern_handles(
                old(table)@.strings,
                tokens_of(expr@).take(toks@.len() as int),
            ),
            i < len && is_atom_char(expr@[i as int]) ==> i == 0 || !is_atom_char(
                expr@[i as int - 1],
            ),
            tokens_of(expr@) =~~= tokens_of(expr@.take(i as int)) + tokens_of(
                expr@.skip(i as int),
            ),
            toks@.len() == tokens_of(expr@.take(i as int)).len(),
            table@.strings.len() <= old(table)@.strings.len() + toks@.len(),
            forall|k: int| 0 <= k < toks@.len() ==> toks@[k] < table@.strings.len(),
            forall|k: int| 0 <= k < toks@.len()
                ==> table@.strings[#[trigger] toks@[k] as int]
                    == tokens_of(expr@.take(i as int))[k],
        decreases len - i,
    {
        let ghost pre = expr@.take(i as int);
        let ghost rest = expr@.skip(i as int);
        let ghost toks_pre = tokens_of(pre);
        proof {
            assert(rest[0] == expr@[i as int]);
            lemma_tokens_of_count(rest);
        }
        let c = expr.get_char(i);
        if c == ' ' || c == '\t' || c == '\n' || c == '\r' {
            i = i + 1;
            proof {
                assert(expr@.take(i as int) =~= pre.push(c));
                lemma_tokens_of_push_space(pre, c);
                assert(rest.drop_first() =~= expr@.skip(i as int));
                assert(tokens_of(rest) == tokens_of(expr@.skip(i as int)));
            }
        } else if c == '(' || c == ')' {
            let t = expr.substring_char(i, i + 1);
            proof {
                assert(t@ =~= seq![c]);
            }
            let h = table.intern(t);
            toks.push(h);
            i = i + 1;
            proof {
                assert(expr@.take(i as int) =~= pre.push(c));
                lemma_tokens_of_push_paren(pre, c);
                assert(rest.drop_first() =~= expr@.skip(i as int));
                assert(tokens_of(rest) == seq![seq![c]] + tokens_of(expr@.skip(i as int)));
                assert(tokens_of(pre.push(c)) + tokens_of(expr@.skip(i as int)) =~~= tokens_of(
                    pre,
                ) + tokens_of(rest));
                assert(toks@.last() == h);
                assert(tokens_of(pre.push(c)).last() == seq![c]);
                let ts = tokens_of(expr@);
                let cnt = toks@.len() - 1;
                assert(ts.take(cnt) =~~= tokens_of(pre));
                assert(ts[cnt] == seq![c]);
                assert(ts.take(cnt + 1) =~~= tokens_of(pre).push(seq![c]));
                lemma_intern_all_snoc(old(table)@.strings, ts, cnt);
                assert(Seq::new(toks@.len(), |k: int| toks@[k] as int) =~= intern_handles(
                    old(table)@.strings,
                    ts.take(cnt),
                ).push(h as int));
            }
        } else {
            let j = scan_atom(expr, i, len);
            let ghost t_text = rest.take(atom_len(rest));
            let t = expr.substring_char(i, j);
            proof {
                assert(t@ =~= t_text);
                lemma_atom_len_bounds(rest);
                assert(is_atom_char(rest[0]));
                assert(forall|q: int| 0 <= q < t_text.len()
                    ==> #[trigger] t_text[q] == rest[q] && is_atom_char(rest[q]));
            }
            let h = table.intern(t);
            toks.push(h);
            proof {
                if pre.len() > 0 {
                    assert(pre.last() == expr@[i as int - 1]);
                    assert(!is_atom_char(pre.last()));
                }
                lemma_tokens_of_append_atom(pre, t_text);
                assert(expr@.take(j as int) =~= pre + t_text);
                assert(rest.skip(atom_len(rest)) =~= expr@.skip(j as int));
                assert(tokens_of(rest) == seq![t_text] + tokens_of(expr@.skip(j as int)));
                assert(tokens_of(pre + t_text) + tokens_of(expr@.skip(j as int)) =~~= tokens_of(
                    pre,
                ) + tokens_of(rest));
                assert(toks@.last() == h);
                assert(tokens_of(pre + t_text).last() == t_text);
                let ts = tokens_of(expr@);
                let cnt = toks@.len() - 1;
                assert(ts.take(cnt) =~~= tokens_of(pre));
                assert(ts[cnt] == t_text);
                assert(ts.take(cnt + 1) =~~= tokens_of(pre).push(t_text));
                lemma_intern_all_snoc(old(table)@.strings, ts, cnt);
                assert(Seq::new(toks@.len(), |k: int| toks@[k] as int) =~= intern_handles(
                    old(table)@.strings,
                    ts.take(cnt),
                ).push(h as int));
                if (j as int) < expr@.len() {
                    assert(expr@[j as int] == rest[j - i]);
                    assert(!is_atom_char(expr@[j as int]));
                }
            }
            i = j;
        }
    }
    proof {
        assert(expr@.take(len as int) =~= expr@);
        assert(expr@.skip(len as int) =~= Seq::<char>::empty());
        assert(tokens_of(Seq::<char>::empty()) =~~= Seq::<Seq<char>>::empty());
        assert(tokens_of(expr@) =~~= tokens_of(expr@.take(len as int)));
        assert(tokens_of(expr@).take(toks@.len() as int) =~= tokens_of(expr@));
    }
    toks
}

} // verus!
