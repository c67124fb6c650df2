//! Decimal text for 64-bit signed integers: the exact meaning of a numeric
//! token, a parser, a renderer, and the proof that they invert each other.

use vstd::prelude::*;

verus! {

pub open spec fn is_digit(c: char) -> bool {
    '0' <= c && c <= '9'
}

/// The numeric value of a digit character.
pub open spec fn digit_val(c: char) -> int {
    c as u32 - '0' as u32
}

pub open spec fn all_digits(s: Seq<char>) -> bool {
    forall|i: int| 0 <= i < s.len() ==> is_digit(#[trigger] s[i])
}

/// The value of a run of digit characters, most significant first.
pub open spec fn digits_val(s: Seq<char>) -> int
    decreases s.len(),
{
    if s.len() == 0 {
        0
    } else {
        digits_val(s.drop_last()) * 10 + digit_val(s.last())
    }
}

pub open spec fn pow10(k: nat) -> int
    decreases k,
{
    if k == 0 {
        1
    } else {
        10 * pow10((k - 1) as nat)
    }
}

/// What a numeric token means: an optional sign, then one or more digits,
/// with the value in 64-bit signed range; anything else is not a number.
/// This follows `i64::from_str` of the standard library.
pub open spec fn parse_int(t: Seq<char>) -> Option<int> {
    if t.len() == 0 {
        None
    } else if t[0] == '-' {
        let ds = t.drop_first();
        if ds.len() > 0 && all_digits(ds) && -digits_val(ds) >= i64::MIN {
            Some(-digits_val(ds))
        } else {
            None
        }
    } else if t[0] == '+' {
        let ds = t.drop_first();
        if ds.len() > 0 && all_digits(ds) && digits_val(ds) <= i64::MAX {
            Some(digits_val(ds))
        } else {
            None
        }
    } else {
        if all_digits(t) && digits_val(t) <= i64::MAX {
            Some(digits_val(t))
        } else {
            None
        }
    }
}

/// The decimal text of a non-negative value, no sign, no leading zero
/// (except for the value zero itself).
pub open spec fn dec_text(m: nat) -> Seq<char>
    decreases m,
{
    if m < 10 {
        seq![digit_char(m as int)]
    } else {
        dec_text(m / 10).push(digit_char((m % 10) as int))
    }
}

/// The canonical decimal text of a signed value.
pub open spec fn int_text(n: int) -> Seq<char> {
    if n < 0 {
        seq!['-'] + dec_text((-n) as nat)
    } else {
        dec_text(n as nat)
    }
}

/// The digit character of a value below ten.
pub open spec fn digit_char(d: int) -> char {
    if d == 0 {
        '0'
    } else if d == 1 {
        '1'
    } else if d == 2 {
        '2'
    } else if d == 3 {
        '3'
    } else if d == 4 {
        '4'
    } else if d == 5 {
        '5'
    } else if d == 6 {
        '6'
    } else if d == 7 {
        '7'
    } else if d == 8 {
        '8'
    } else {
        '9'
    }
}

pub proof fn lemma_digit_char(d: int)
    requires
        0 <= d < 10,
    ensures
        is_digit(digit_char(d)),
        digit_val(digit_char(d)) == d,
{
}

pub proof fn lemma_pow10_pos(k: nat)
    ensures
        pow10(k) >= 1,
    decreases k,
{
    if k > 0 {
        lemma_pow10_pos((k - 1) as nat);
    }
}

/// Splitting a digit run: the left part is scaled by ten to the length of
/// the right part.
pub proof fn lemma_digits_val_append(a: Seq<char>, b: Seq<char>)
    ensures
        digits_val(a + b) == digits_val(a) * pow10(b.len()) + digits_val(b),
    decreases b.len(),
{
    if b.len() == 0 {
        assert(a + b =~= a);
        assert(digits_val(a) * 1 == digits_val(a)) by (nonlinear_arith);
    } else {
        lemma_digits_val_append(a, b.drop_last());
        assert((a + b).drop_last() =~= a + b.drop_last());
        assert((a + b).last() == b.last());
        let x = digits_val(a);
        let p = pow10((b.len() - 1) as nat);
        let y = digits_val(b.drop_last());
        assert(digits_val(a + b) == (x * p + y) * 10 + digit_val(b.last()));
        assert((x * p + y) * 10 == x * (p * 10) + y * 10) by (nonlinear_arith);
        assert(pow10(b.len()) == 10 * p);
        assert(x * (p * 10) == x * (10 * p)) by (nonlinear_arith);
    }
}

pub proof fn lemma_digits_val_bounds(s: Seq<char>)
    requires
        all_digits(s),
    ensures
        0 <= digits_val(s) < pow10(s.len()),
    decreases s.len(),
{
    if s.len() == 0 {
    } else {
        assert(all_digits(s.drop_last())) by {
            assert(forall|i: int| 0 <= i < s.len() - 1 ==> s.drop_last()[i] == s[i]);
        }
        lemma_digits_val_bounds(s.drop_last());
        let v = digits_val(s.drop_last());
        let p = pow10((s.len() - 1) as nat);
        assert(is_digit(s.last()));
        assert(0 <= digit_val(s.last()) <= 9);
        assert(v <= p - 1);
        assert(v * 10 <= (p - 1) * 10) by (nonlinear_arith)
            requires v <= p - 1;
        assert(digits_val(s) <= (p - 1) * 10 + 9);
        assert((p - 1) * 10 + 9 < 10 * p) by (nonlinear_arith);
        assert(v * 10 >= 0) by (nonlinear_arith)
            requires v >= 0;
    }
}

/// The decimal text of a value means that value.
pub proof fn lemma_dec_text(m: nat)
    ensures
        dec_text(m).len() >= 1,
        all_digits(dec_text(m)),
        digits_val(dec_text(m)) == m,
    decreases m,
{
    if m < 10 {
        lemma_digit_char(m as int);
        assert(dec_text(m) =~= seq![digit_char(m as int)]);
        assert(dec_text(m)[0] == digit_char(m as int));
        assert(dec_text(m).drop_last() =~= Seq::<char>::empty());
        assert(digits_val(dec_text(m).drop_last()) == 0);
        assert(dec_text(m).last() == digit_char(m as int));
        assert(digits_val(dec_text(m)) == m);
    } else {
        lemma_dec_text(m / 10);
        lemma_digit_char((m % 10) as int);
        let t = dec_text(m / 10);
        assert(dec_text(m) == t.push(digit_char((m % 10) as int)));
        assert(dec_text(m).drop_last() =~= t);
        assert(dec_text(m).last() == digit_char((m % 10) as int));
        assert(digits_val(dec_text(m)) == (m / 10) * 10 + (m % 10));
        vstd::arithmetic::div_mod::lemma_fundamental_div_mod(m as int, 10);
        assert(digits_val(dec_text(m)) == m);
        assert(dec_text(m)[t.len() as int] == digit_char((m % 10) as int));
        assert(forall|i: int| 0 <= i < t.len() ==> dec_text(m)[i] == t[i]);
        assert(all_digits(dec_text(m)));
    }
}

/// Reading back a rendered value yields that value: the numeric half of the
/// text round trip.
pub proof fn lemma_parse_int_text(n: int)
    requires
        i64::MIN <= n <= i64::MAX,
    ensures
        parse_int(int_text(n)) == Some(n),
{
    if n < 0 {
        let m = (-n) as nat;
        lemma_dec_text(m);
        let t = int_text(n);
        assert(t == seq!['-'] + dec_text(m));
        assert(t[0] == '-');
        assert(t.drop_first() =~= dec_text(m));
    } else {
        let m = n as nat;
        lemma_dec_text(m);
        let t = int_text(n);
        assert(t == dec_text(m));
        assert(is_digit(t[0]));
        assert(t[0] != '-' && t[0] != '+');
    }
}

/// A digit-by-digit reading step: the next digit scales what came before.
pub proof fn lemma_digits_val_take_step(s: Seq<char>, j: int)
    requires
        0 <= j < s.len(),
    ensures
        digits_val(s.take(j + 1)) == digits_val(s.take(j)) * 10 + digit_val(s[j]),
{
    assert(s.take(j + 1).drop_last() =~= s.take(j));
    assert(s.take(j + 1).last() == s[j]);
}

/// The text of a pile of digits collected least-significant first, read
/// back most-significant first.
pub open spec fn digits_text(ds: Seq<u64>) -> Seq<char>
    decreases ds.len(),
{
    if ds.len() == 0 {
        Seq::empty()
    } else {
        seq![digit_char(ds.last() as int)] + digits_text(ds.drop_last())
    }
}

pub proof fn lemma_digits_text_first(ds: Seq<u64>)
    requires
        ds.len() > 0,
    ensures
        digits_text(ds) == digits_text(ds.drop_first()) + seq![digit_char(ds.first() as int)],
    decreases ds.len(),
{
    if ds.len() == 1 {
        assert(ds.drop_last() =~= Seq::<u64>::empty());
        assert(ds.drop_first() =~= Seq::<u64>::empty());
        assert(ds.last() == ds.first());
        assert(digits_text(ds) =~= digits_text(ds.drop_first()) + seq![
            digit_char(ds.first() as int),
        ]);
    } else {
        lemma_digits_text_first(ds.drop_last());
        assert(ds.drop_last().first() == ds.first());
        assert(ds.drop_last().drop_first() =~= ds.drop_first().drop_last());
        assert(ds.drop_first().last() == ds.last());
        assert(digits_text(ds.drop_first()) == seq![digit_char(ds.last() as int)] + digits_text(
            ds.drop_first().drop_last(),
        ));
        assert(digits_text(ds) =~= digits_text(ds.drop_first()) + seq![
            digit_char(ds.first() as int),
        ]);
    }
}

/// The one-character text of a digit below ten.
fn digit_str(d: u64) -> (r: &'static str)
    requires
        d < 10,
    ensures
        r@ == seq![digit_char(d as int)],
{
    if d == 0 {
        proof {
            reveal_strlit("0");
            assert("0"@ =~= seq![digit_char(0)]);
        }
        "0"
    } else if d == 1 {
        proof {
            reveal_strlit("1");
            assert("1"@ =~= seq![digit_char(1)]);
        }
        "1"
    } else if d == 2 {
        proof {
            reveal_strlit("2");
            assert("2"@ =~= seq![digit_char(2)]);
        }
        "2"
    } else if d == 3 {
        proof {
            reveal_strlit("3");
            assert("3"@ =~= seq![digit_char(3)]);
        }
        "3"
    } else if d == 4 {
        proof {
            reveal_strlit("4");
            assert("4"@ =~= seq![digit_char(4)]);
        }
        "4"
    } else if d == 5 {
        proof {
            reveal_strlit("5");
            assert("5"@ =~= seq![digit_char(5)]);
        }
        "5"
    } else if d == 6 {
        proof {
            reveal_strlit("6");
            assert("6"@ =~= seq![digit_char(6)]);
        }
        "6"
    } else if d == 7 {
        proof {
            reveal_strlit("7");
            assert("7"@ =~= seq![digit_char(7)]);
        }
        "7"
    } else if d == 8 {
        proof {
            reveal_strlit("8");
            assert("8"@ =~= seq![digit_char(8)]);
        }
        "8"
    } else {
        proof {
            reveal_strlit("9");
            assert("9"@ =~= seq![digit_char(9)]);
        }
        "9"
    }
}

/// Render a non-negative value as its decimal text.
#[verifier::loop_isolation(false)]
pub fn render_u64(m: u64) -> (r: String)
    ensures
        r@ == dec_text(m as nat),
{
    let mut ds: Vec<u64> = Vec::new();
    let mut cur: u64 = m;
    while cur >= 10
        invariant
            dec_text(m as nat) == dec_text(cur as nat) + digits_text(ds@),
            forall|j: int| 0 <= j < ds@.len() ==> #[trigger] ds@[j] < 10,
        decreases cur,
    {
        let ghost prev = cur;
        let ghost old_ds = ds@;
        let d = cur % 10;
        ds.push(d);
        cur = cur / 10;
        proof {
            assert(cur < prev);
            assert(dec_text(prev as nat) == dec_text(cur as nat).push(digit_char(d as int)));
            assert(ds@.last() == d && ds@.drop_last() =~= old_ds);
            assert(digits_text(ds@) == seq![digit_char(d as int)] + digits_text(old_ds));
            assert(dec_text(cur as nat).push(digit_char(d as int)) + digits_text(old_ds)
                =~= dec_text(cur as nat) + digits_text(ds@));
        }
    }
    let mut s = String::new();
    s.append(digit_str(cur));
    proof {
        assert(s@ =~= seq![digit_char(cur as int)] + digits_text(ds@.skip(ds@.len() as int)));
    }
    let mut k: usize = ds.len();
    while k > 0
        invariant
            k <= ds.len(),
            s@ == seq![digit_char(cur as int)] + digits_text(ds@.skip(k as int)),
        decreases k,
    {
        let ghost before = ds@.skip(k as int);
        k = k - 1;
        s.append(digit_str(ds[k]));
        proof {
            let now = ds@.skip(k as int);
            lemma_digits_text_first(now);
            assert(now.first() == ds@[k as int]);
            assert(now.drop_first() =~= before);
            assert(seq![digit_char(cur as int)] + digits_text(before) + seq![
                digit_char(ds@[k as int] as int),
            ] =~= seq![digit_char(cur as int)] + digits_text(now));
        }
    }
    proof {
        assert(ds@.skip(0) =~= ds@);
        assert(dec_text(cur as nat) =~= seq![digit_char(cur as int)]);
        assert(s@ =~= dec_text(m as nat));
    }
    s
}

/// Render a value as its canonical decimal text.
pub fn render_i64(n: i64) -> (r: String)
    ensures
        r@ == int_text(n as int),
{
    let neg: bool = n < 0;
    let mag: u64 = if n >= 0 {
        n as u64
    } else if n == i64::MIN {
        9223372036854775808
    } else {
        (-n) as u64
    };
    proof {
        if neg {
            assert(mag as int == -(n as int));
        } else {
            assert(mag as int == n as int);
        }
    }
    let mut s = String::new();
    if neg {
        proof {
            reveal_strlit("-");
        }
        s.append("-");
    }
    let digits = render_u64(mag);
    s.append(digits.as_str());
    proof {
        if neg {
            assert("-"@ =~= seq!['-']);
            assert(s@ =~= seq!['-'] + dec_text(mag as nat));
            assert(s@ =~= int_text(n as int));
        } else {
            assert(s@ =~= int_text(n as int));
        }
    }
    s
}

/// Parse a numeric token.  Returns the token's value exactly when
/// `parse_int` gives one, and nothing otherwise.
#[verifier::loop_isolation(false)]
pub fn parse_i64(t: &str) -> (r: Option<i64>)
    ensures
        parse_int(t@) is Some <==> r is Some,
        r is Some ==> r->Some_0 as int == parse_int(t@)->Some_0,
{
    let len = t.unicode_len();
    if len == 0 {
        return None;
    }
    let c0 = t.get_char(0);
    let neg: bool = c0 == '-';
    let start: usize = if c0 == '-' || c0 == '+' {
        1
    } else {
        0
    };
    if start == len {
        return None;
    }
    let limit: u64 = if neg {
        9223372036854775808
    } else {
        9223372036854775807
    };
    let ghost ds = t@.skip(start as int);
    proof {
        if start == 1 {
            assert(ds =~= t@.drop_first());
        } else {
            assert(ds =~= t@);
        }
    }
    let mut acc: u64 = 0;
    let mut i: usize = start;
    while i < len
        invariant
            start <= i <= len,
            all_digits(ds.take(i - start)),
            acc == digits_val(ds.take(i - start)),
        decreases len - i,
    {
        let c = t.get_char(i);
        if !(c >= '0' && c <= '9') {
            proof {
                assert(ds[i - start] == c);
                assert(!is_digit(c));
            }
            return None;
        }
        let d: u64 = (c as u32 - 48) as u64;
        proof {
            assert(digit_val(c) == d as int);
            lemma_digits_val_take_step(ds, i - start);
            assert(ds.take(i - start + 1).drop_last() =~= ds.take(i - start));
        }
        let next = match acc.checked_mul(10) {
            Some(a) => a.checked_add(d),
            None => None,
        };
        match next {
            Some(a) => {
                acc = a;
            },
            None => {
                // The value read so far already exceeds every 64-bit bound;
                // the remaining digits only scale it further up.
                proof {
                    let done = ds.take(i - start + 1);
                    assert(all_digits(done));
                    assert(digits_val(done) > u64::MAX);
                    if all_digits(ds) {
                        let rest = ds.skip(i - start + 1);
                        assert(all_digits(rest)) by {
                            assert(forall|k: int| 0 <= k < rest.len()
                                ==> #[trigger] rest[k] == ds[k + i - start + 1]);
                        }
                        assert(ds =~= done + rest);
                        lemma_digits_val_append(done, rest);
                        lemma_digits_val_bounds(rest);
                        lemma_pow10_pos(rest.len());
                        assert(digits_val(done) * pow10(rest.len()) >= digits_val(done))
                            by (nonlinear_arith)
                            requires
                                digits_val(done) > 0,
                                pow10(rest.len()) >= 1,
                        ;
                        assert(digits_val(ds) > u64::MAX);
                    }
                }
                return None;
            },
        }
        i = i + 1;
        proof {
            assert(ds.take(i - start).last() == ds[i - start - 1]);
        }
    }
    proof {
        assert(ds.take(len - start) =~= ds);
    }
    if acc > limit {
        return None;
    }
    if neg {
        if acc == 9223372036854775808 {
            Some(i64::MIN)
        } else {
            Some(-(acc as i64))
        }
    } else {
        Some(acc as i64)
    }
}

} // verus!
