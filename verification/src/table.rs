//! The symbol table: an interner plus the nine well-known handles that the
//! tokenizer, parser and evaluator compare against.

use crate::interner::{interned_texts, interner_get_or_intern, interner_new, interner_resolve,
    StrInterner};
use vstd::prelude::*;

verus! {

/// The texts of the nine well-known symbols.
pub open spec fn open_paren_text() -> Seq<char> {
    seq!['(']
}

pub open spec fn close_paren_text() -> Seq<char> {
    seq![')']
}

pub open spec fn add_text() -> Seq<char> {
    seq!['+']
}

pub open spec fn sub_text() -> Seq<char> {
    seq!['-']
}

pub open spec fn mul_text() -> Seq<char> {
    seq!['*']
}

pub open spec fn div_text() -> Seq<char> {
    seq!['/']
}

pub open spec fn true_text() -> Seq<char> {
    seq!['#', 't']
}

pub open spec fn false_text() -> Seq<char> {
    seq!['#', 'f']
}

pub open spec fn if_text() -> Seq<char> {
    seq!['i', 'f']
}

/// No text occurs twice; handle equality therefore means text equality.
pub open spec fn distinct_texts(m: Seq<Seq<char>>) -> bool {
    forall|i: int, j: int| 0 <= i < j < m.len() ==> m[i] != m[j]
}

/// Whether some interned text equals `t`.
pub open spec fn contains_text(m: Seq<Seq<char>>, t: Seq<char>) -> bool {
    exists|i: int| 0 <= i < m.len() && m[i] == t
}

/// The first position of `t` in `m`, or `m.len()` if `t` does not occur.
pub open spec fn find_text(m: Seq<Seq<char>>, t: Seq<char>) -> int
    decreases m.len(),
{
    if m.len() == 0 {
        0
    } else if m[0] == t {
        0
    } else {
        1 + find_text(m.drop_first(), t)
    }
}

/// The interned texts after `intern` runs on a table holding `m`: unchanged
/// if `t` was interned before, else extended by `t`.
pub open spec fn intern_model(m: Seq<Seq<char>>, t: Seq<char>) -> Seq<Seq<char>> {
    if contains_text(m, t) {
        m
    } else {
        m.push(t)
    }
}

pub proof fn lemma_find_text(m: Seq<Seq<char>>, t: Seq<char>)
    ensures
        0 <= find_text(m, t) <= m.len(),
        contains_text(m, t) <==> find_text(m, t) < m.len(),
        contains_text(m, t) ==> m[find_text(m, t)] == t,
        forall|i: int| 0 <= i < find_text(m, t) ==> m[i] != t,
    decreases m.len(),
{
    if m.len() > 0 && m[0] != t {
        lemma_find_text(m.drop_first(), t);
        assert forall|i: int| 0 <= i < m.len() && m[i] == t implies find_text(m, t) < m.len() by {
            if i > 0 {
                assert(m.drop_first()[i - 1] == t);
            }
        }
        assert forall|i: int| 0 <= i < find_text(m, t) implies m[i] != t by {
            if i > 0 {
                assert(m.drop_first()[i - 1] == m[i]);
            }
        }
    }
}

/// The nine well-known texts, in the order `InternTable::new` interns them.
pub open spec fn well_known_texts() -> Seq<Seq<char>> {
    seq![
        open_paren_text(),
        close_paren_text(),
        add_text(),
        sub_text(),
        mul_text(),
        div_text(),
        true_text(),
        false_text(),
        if_text(),
    ]
}

pub proof fn lemma_well_known_distinct()
    ensures
        distinct_texts(well_known_texts()),
{
    let w = well_known_texts();
    assert forall|i: int, j: int| 0 <= i < j < w.len() implies w[i] != w[j] by {
        assert(w[0] == open_paren_text() && w[1] == close_paren_text() && w[2] == add_text()
            && w[3] == sub_text() && w[4] == mul_text() && w[5] == div_text()
            && w[6] == true_text() && w[7] == false_text() && w[8] == if_text());
        assert(w[0][0] == '(' && w[1][0] == ')' && w[2][0] == '+' && w[3][0] == '-'
            && w[4][0] == '*' && w[5][0] == '/' && w[6][0] == '#' && w[7][0] == '#'
            && w[8][0] == 'i');
        assert(w[6][1] == 't' && w[7][1] == 'f');
    }
}

pub proof fn lemma_find_text_push(m: Seq<Seq<char>>, t: Seq<char>)
    requires
        !contains_text(m, t),
    ensures
        find_text(m.push(t), t) == m.len(),
    decreases m.len(),
{
    lemma_find_text(m, t);
    if m.len() == 0 {
        assert(m.push(t)[0] == t);
    } else {
        assert(m.push(t)[0] == m[0]);
        lemma_find_text_push(m.drop_first(), t);
        assert(m.push(t).drop_first() =~= m.drop_first().push(t));
    }
}

/// The mathematical content of an `InternTable`: the interned texts and the
/// positions of the nine well-known symbols.
pub struct TableModel {
    pub strings: Seq<Seq<char>>,
    pub open_paren: int,
    pub close_paren: int,
    pub add_symbol: int,
    pub sub_symbol: int,
    pub mul_symbol: int,
    pub div_symbol: int,
    pub true_symbol: int,
    pub false_symbol: int,
    pub if_symbol: int,
}

impl TableModel {
    /// The invariant every `InternTable` keeps: texts are distinct, the table
    /// fits the machine, and each well-known handle resolves to its text.
    pub open spec fn wf(self) -> bool {
        &&& self.strings.len() <= usize::MAX
        &&& distinct_texts(self.strings)
        &&& 0 <= self.open_paren < self.strings.len()
        &&& self.strings[self.open_paren] == open_paren_text()
        &&& 0 <= self.close_paren < self.strings.len()
        &&& self.strings[self.close_paren] == close_paren_text()
        &&& 0 <= self.add_symbol < self.strings.len()
        &&& self.strings[self.add_symbol] == add_text()
        &&& 0 <= self.sub_symbol < self.strings.len()
        &&& self.strings[self.sub_symbol] == sub_text()
        &&& 0 <= self.mul_symbol < self.strings.len()
        &&& self.strings[self.mul_symbol] == mul_text()
        &&& 0 <= self.div_symbol < self.strings.len()
        &&& self.strings[self.div_symbol] == div_text()
        &&& 0 <= self.true_symbol < self.strings.len()
        &&& self.strings[self.true_symbol] == true_text()
        &&& 0 <= self.false_symbol < self.strings.len()
        &&& self.strings[self.false_symbol] == false_text()
        &&& 0 <= self.if_symbol < self.strings.len()
        &&& self.strings[self.if_symbol] == if_text()
    }
}

/// The symbol table: the interner together with the handles of the nine
/// well-known tokens, interned once at construction.
pub struct InternTable {
    pub interner: StrInterner,
    pub open_paren: usize,
    pub close_paren: usize,
    pub add_symbol: usize,
    pub sub_symbol: usize,
    pub mul_symbol: usize,
    pub div_symbol: usize,
    pub true_symbol: usize,
    pub false_symbol: usize,
    pub if_symbol: usize,
}

impl View for InternTable {
    type V = TableModel;

    open spec fn view(&self) -> TableModel {
        TableModel {
            strings: interned_texts(self.interner),
            open_paren: self.open_paren as int,
            close_paren: self.close_paren as int,
            add_symbol: self.add_symbol as int,
            sub_symbol: self.sub_symbol as int,
            mul_symbol: self.mul_symbol as int,
            div_symbol: self.div_symbol as int,
            true_symbol: self.true_symbol as int,
            false_symbol: self.false_symbol as int,
            if_symbol: self.if_symbol as int,
        }
    }
}

impl InternTable {
    /// Build a table with the nine well-known tokens eagerly interned, in a
    /// fixed order, so their handles are the first nine.
    pub fn new() -> (r: InternTable)
        ensures
            r@.wf(),
            r@.strings.len() == 9,
            r@.open_paren == 0,
            r@.close_paren == 1,
            r@.add_symbol == 2,
            r@.sub_symbol == 3,
            r@.mul_symbol == 4,
            r@.div_symbol == 5,
            r@.true_symbol == 6,
            r@.false_symbol == 7,
            r@.if_symbol == 8,
    {
        proof {
            reveal_strlit("(");
            reveal_strlit(")");
            reveal_strlit("+");
            reveal_strlit("-");
            reveal_strlit("*");
            reveal_strlit("/");
            reveal_strlit("#t");
            reveal_strlit("#f");
            reveal_strlit("if");
            assert("("@ =~= open_paren_text());
            assert(")"@ =~= close_paren_text());
            assert("+"@ =~= add_text());
            assert("-"@ =~= sub_text());
            assert("*"@ =~= mul_text());
            assert("/"@ =~= div_text());
            assert("#t"@ =~= true_text());
            assert("#f"@ =~= false_text());
            assert("if"@ =~= if_text());
        }
        proof {
            lemma_well_known_distinct();
        }
        let ghost w = well_known_texts();
        let mut interner = interner_new();
        proof {
            assert(interned_texts(interner) =~~= w.take(0));
        }
        let open_paren = interner_get_or_intern(&mut interner, "(");
        proof {
            assert(interned_texts(interner) =~~= w.take(1));
        }
        let close_paren = interner_get_or_intern(&mut interner, ")");
        proof {
            assert(interned_texts(interner) =~~= w.take(2));
        }
        let add_symbol = interner_get_or_intern(&mut interner, "+");
        proof {
            assert(interned_texts(interner) =~~= w.take(3));
        }
        let sub_symbol = interner_get_or_intern(&mut interner, "-");
        proof {
            assert(interned_texts(interner) =~~= w.take(4));
        }
        let mul_symbol = interner_get_or_intern(&mut interner, "*");
        proof {
            assert(interned_texts(interner) =~~= w.take(5));
        }
        let div_symbol = interner_get_or_intern(&mut interner, "/");
        proof {
            assert(interned_texts(interner) =~~= w.take(6));
        }
        let true_symbol = interner_get_or_intern(&mut interner, "#t");
        proof {
            assert(interned_texts(interner) =~~= w.take(7));
        }
        let false_symbol = interner_get_or_intern(&mut interner, "#f");
        proof {
            assert(interned_texts(interner) =~~= w.take(8));
        }
        let if_symbol = interner_get_or_intern(&mut interner, "if");
        proof {
            assert(interned_texts(interner) =~~= w.take(9));
            assert(w.take(9) =~~= w);
        }
        InternTable {
            interner,
            open_paren,
            close_paren,
            add_symbol,
            sub_symbol,
            mul_symbol,
            div_symbol,
            true_symbol,
            false_symbol,
            if_symbol,
        }
    }

    /// Intern `text`: the handle of an already interned text, or a fresh one.
    /// Total but for the machine limit on the table's size.
    pub fn intern(&mut self, text: &str) -> (r: usize)
        requires
            old(self)@.wf(),
            old(self)@.strings.len() < usize::MAX,
        ensures
            final(self)@.wf(),
            final(self)@.strings == intern_model(old(self)@.strings, text@),
            r == find_text(old(self)@.strings, text@),
            r < final(self)@.strings.len(),
            final(self)@.strings[r as int] == text@,
            final(self)@.strings.len() <= old(self)@.strings.len() + 1,
            final(self)@.open_paren == old(self)@.open_paren,
            final(self)@.close_paren == old(self)@.close_paren,
            final(self)@.add_symbol == old(self)@.add_symbol,
            final(self)@.sub_symbol == old(self)@.sub_symbol,
            final(self)@.mul_symbol == old(self)@.mul_symbol,
            final(self)@.div_symbol == old(self)@.div_symbol,
            final(self)@.true_symbol == old(self)@.true_symbol,
            final(self)@.false_symbol == old(self)@.false_symbol,
            final(self)@.if_symbol == old(self)@.if_symbol,
    {
        proof {
            lemma_find_text(old(self)@.strings, text@);
            if !contains_text(old(self)@.strings, text@) {
                lemma_find_text_push(old(self)@.strings, text@);
            }
        }
        interner_get_or_intern(&mut self.interner, text)
    }

    /// How many texts the table holds.
    pub fn len(&self) -> (r: usize)
        ensures
            r == self@.strings.len(),
    {
        crate::interner::interner_len(&self.interner)
    }

    /// The text a handle stands for.  Handles never produced by this table
    /// are excluded by the `requires`; they never arise in correct use.
    pub fn resolve(&self, symbol: usize) -> (r: String)
        requires
            self@.wf(),
            symbol < self@.strings.len(),
        ensures
            r@ == self@.strings[symbol as int],
    {
        interner_resolve(&self.interner, symbol)
    }
}

/// The interned texts after a whole sequence of texts is interned in order.
pub open spec fn intern_all(m: Seq<Seq<char>>, ts: Seq<Seq<char>>) -> Seq<Seq<char>>
    decreases ts.len(),
{
    if ts.len() == 0 {
        m
    } else {
        intern_all(intern_model(m, ts[0]), ts.drop_first())
    }
}

/// The handles that interning a whole sequence of texts in order returns.
pub open spec fn intern_handles(m: Seq<Seq<char>>, ts: Seq<Seq<char>>) -> Seq<int>
    decreases ts.len(),
{
    if ts.len() == 0 {
        Seq::empty()
    } else {
        seq![find_text(m, ts[0])] + intern_handles(intern_model(m, ts[0]), ts.drop_first())
    }
}

/// Interning one more text steps the fold once.
pub proof fn lemma_intern_all_snoc(m: Seq<Seq<char>>, ts: Seq<Seq<char>>, i: int)
    requires
        0 <= i < ts.len(),
    ensures
        intern_all(m, ts.take(i + 1)) == intern_model(intern_all(m, ts.take(i)), ts[i]),
        intern_handles(m, ts.take(i + 1)) == intern_handles(m, ts.take(i)).push(
            find_text(intern_all(m, ts.take(i)), ts[i]),
        ),
    decreases i,
{
    let m1 = intern_model(m, ts[0]);
    if i == 0 {
        assert(ts.take(1) =~= seq![ts[0]]);
        assert(ts.take(1).drop_first() =~= Seq::<Seq<char>>::empty());
        assert(ts.take(0) =~= Seq::<Seq<char>>::empty());
        assert(intern_all(m, ts.take(0)) == m);
        assert(intern_all(m1, ts.take(1).drop_first()) == m1);
        assert(intern_handles(m1, ts.take(1).drop_first()) == Seq::<int>::empty());
        assert(intern_handles(m, ts.take(1)) =~= Seq::<int>::empty().push(find_text(m, ts[0])));
    } else {
        assert(ts.take(i + 1)[0] == ts[0]);
        assert(ts.take(i)[0] == ts[0]);
        assert(ts.take(i + 1).drop_first() =~= ts.drop_first().take(i));
        assert(ts.take(i).drop_first() =~= ts.drop_first().take(i - 1));
        assert(intern_all(m, ts.take(i + 1)) == intern_all(m1, ts.take(i + 1).drop_first()));
        assert(intern_all(m, ts.take(i)) == intern_all(m1, ts.take(i).drop_first()));
        assert(intern_handles(m, ts.take(i + 1)) == seq![find_text(m, ts[0])] + intern_handles(
            m1,
            ts.take(i + 1).drop_first(),
        ));
        assert(intern_handles(m, ts.take(i)) == seq![find_text(m, ts[0])] + intern_handles(
            m1,
            ts.take(i).drop_first(),
        ));
        lemma_intern_all_snoc(m1, ts.drop_first(), i - 1);
        assert(ts.drop_first()[i - 1] == ts[i]);
        assert(seq![find_text(m, ts[0])] + intern_handles(m1, ts.drop_first().take(i - 1)).push(
            find_text(intern_all(m1, ts.drop_first().take(i - 1)), ts[i]),
        ) =~= (seq![find_text(m, ts[0])] + intern_handles(m1, ts.drop_first().take(i - 1))).push(
            find_text(intern_all(m1, ts.drop_first().take(i - 1)), ts[i]),
        ));
    }
}

/// Interning a sequence of texts only appends, keeps the texts distinct,
/// and hands back for each text a handle that resolves to it.
pub proof fn lemma_intern_all_props(m: Seq<Seq<char>>, ts: Seq<Seq<char>>)
    requires
        distinct_texts(m),
    ensures
        m.is_prefix_of(intern_all(m, ts)),
        distinct_texts(intern_all(m, ts)),
        intern_all(m, ts).len() <= m.len() + ts.len(),
        intern_handles(m, ts).len() == ts.len(),
        forall|k: int| 0 <= k < ts.len()
            ==> 0 <= #[trigger] intern_handles(m, ts)[k] < intern_all(m, ts).len()
                && intern_all(m, ts)[intern_handles(m, ts)[k]] == ts[k],
    decreases ts.len(),
{
    if ts.len() == 0 {
        assert(m.take(m.len() as int) =~= m);
    } else {
        let t = ts[0];
        let m1 = intern_model(m, t);
        lemma_find_text(m, t);
        let h0 = find_text(m, t);
        if !contains_text(m, t) {
            lemma_find_text_push(m, t);
            assert forall|i: int, j: int| 0 <= i < j < m1.len() implies m1[i] != m1[j] by {
                if j < m.len() {
                    assert(m1[i] == m[i] && m1[j] == m[j]);
                } else {
                    assert(m1[j] == t && m1[i] == m[i]);
                }
            }
        }
        assert(0 <= h0 < m1.len() && m1[h0] == t);
        assert(m.is_prefix_of(m1)) by {
            assert(m1.take(m.len() as int) =~= m);
        }
        lemma_intern_all_props(m1, ts.drop_first());
        let f = intern_all(m, ts);
        assert(f == intern_all(m1, ts.drop_first()));
        assert(m.is_prefix_of(f)) by {
            assert(m1 == f.take(m1.len() as int));
            assert(f.take(m1.len() as int).take(m.len() as int) =~= f.take(m.len() as int));
            assert(m1.take(m.len() as int) == m);
        }
        assert(m1 == f.take(m1.len() as int));
        assert(f[h0] == f.take(m1.len() as int)[h0]);
        assert(f[h0] == t);
        let hs = intern_handles(m, ts);
        assert(hs == seq![h0] + intern_handles(m1, ts.drop_first()));
        assert forall|k: int| 0 <= k < ts.len() implies 0 <= #[trigger] hs[k] < f.len() && f[hs[k]]
            == ts[k] by {
            if k == 0 {
                assert(hs[0] == h0);
            } else {
                assert(hs[k] == intern_handles(m1, ts.drop_first())[k - 1]);
                assert(ts.drop_first()[k - 1] == ts[k]);
            }
        }
    }
}

/// In a well-formed table the five operator handles are pairwise distinct,
/// since their texts are.
pub proof fn lemma_wf_distinct_handles(tm: TableModel)
    requires
        tm.wf(),
    ensures
        tm.add_symbol != tm.sub_symbol,
        tm.add_symbol != tm.mul_symbol,
        tm.add_symbol != tm.div_symbol,
        tm.add_symbol != tm.if_symbol,
        tm.sub_symbol != tm.mul_symbol,
        tm.sub_symbol != tm.div_symbol,
        tm.sub_symbol != tm.if_symbol,
        tm.mul_symbol != tm.div_symbol,
        tm.mul_symbol != tm.if_symbol,
        tm.div_symbol != tm.if_symbol,
{
    assert(add_text()[0] == '+');
    assert(sub_text()[0] == '-');
    assert(mul_text()[0] == '*');
    assert(div_text()[0] == '/');
    assert(if_text()[0] == 'i');
}

/// In a well-formed table, equal texts mean equal handles.
pub proof fn lemma_same_text(tm: TableModel, i: int, j: int)
    requires
        tm.wf(),
        0 <= i < tm.strings.len(),
        0 <= j < tm.strings.len(),
        tm.strings[i] == tm.strings[j],
    ensures
        i == j,
{
    if i < j {
        assert(tm.strings[i] != tm.strings[j]);
    }
    if j < i {
        assert(tm.strings[j] != tm.strings[i]);
    }
}

/// Law: interning a text twice yields the same handle and leaves the table
/// unchanged, and the handle resolves back to the interned text.
pub proof fn lemma_intern_idempotent(m: Seq<Seq<char>>, t: Seq<char>)
    ensures
        intern_model(intern_model(m, t), t) == intern_model(m, t),
        find_text(intern_model(m, t), t) == find_text(m, t),
        intern_model(m, t)[find_text(m, t)] == t,
{
    lemma_find_text(m, t);
    if !contains_text(m, t) {
        lemma_find_text_push(m, t);
        assert(m.push(t)[m.len() as int] == t);
        assert(contains_text(m.push(t), t));
    }
}

} // verus!
