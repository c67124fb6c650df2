//! The evaluator: reduces an expression tree to a value.  Atoms evaluate to
//! themselves; a list is an application of one of the well-known operators.
//! Arithmetic is 64-bit signed with wrapping semantics; division truncates.

use crate::expr::{expr_wf, exprs_wf, model_seq, Expr, ExprModel, EvalError};
use crate::table::{InternTable, TableModel};
use vstd::prelude::*;

verus! {

/// The modulus of 64-bit wrapping arithmetic.
pub open spec fn two_to_64() -> int {
    0x1_0000_0000_0000_0000
}

/// 64-bit wrapping addition over unbounded integers.
pub open spec fn wrap_add(x: int, y: int) -> int {
    if x + y > i64::MAX {
        x + y - two_to_64()
    } else if x + y < i64::MIN {
        x + y + two_to_64()
    } else {
        x + y
    }
}

/// 64-bit wrapping subtraction over unbounded integers.
pub open spec fn wrap_sub(x: int, y: int) -> int {
    if x - y > i64::MAX {
        x - y - two_to_64()
    } else if x - y < i64::MIN {
        x - y + two_to_64()
    } else {
        x - y
    }
}

/// Crop a product into the 64-bit signed range.
pub open spec fn crop64(z: int) -> int {
    if z % two_to_64() > i64::MAX {
        z % two_to_64() - two_to_64()
    } else {
        z % two_to_64()
    }
}

/// 64-bit wrapping multiplication over unbounded integers.
pub open spec fn wrap_mul(x: int, y: int) -> int {
    crop64(x * y)
}

/// 64-bit truncating division, wrapping on the one overflowing case.
pub open spec fn wrap_div(x: int, y: int) -> int
    recommends
        y != 0,
{
    let q = if x == 0 {
        0
    } else if x > 0 && y > 0 {
        x / y
    } else if x < 0 && y < 0 {
        (x * -1) / (y * -1)
    } else if x < 0 {
        ((x * -1) / y) * -1
    } else {
        (x / (y * -1)) * -1
    };
    if q > i64::MAX {
        q - two_to_64()
    } else {
        q
    }
}

/// Fold addition over the arguments from position `i`, each of which must
/// evaluate to a number.
pub open spec fn eval_add(l: Seq<ExprModel>, i: int, acc: int, tm: TableModel) -> Result<
    ExprModel,
    EvalError,
>
    decreases l, l.len() - i,
{
    if i < 0 || i >= l.len() {
        Ok(ExprModel::Number(acc))
    } else {
        match eval_spec(l[i], tm) {
            Err(e) => Err(e),
            Ok(ExprModel::Number(v)) => eval_add(l, i + 1, wrap_add(acc, v), tm),
            Ok(_) => Err(EvalError::TypeMismatch),
        }
    }
}

/// Left-fold subtraction over the arguments from position `i`.
pub open spec fn eval_sub(l: Seq<ExprModel>, i: int, acc: int, tm: TableModel) -> Result<
    ExprModel,
    EvalError,
>
    decreases l, l.len() - i,
{
    if i < 0 || i >= l.len() {
        Ok(ExprModel::Number(acc))
    } else {
        match eval_spec(l[i], tm) {
            Err(e) => Err(e),
            Ok(ExprModel::Number(v)) => eval_sub(l, i + 1, wrap_sub(acc, v), tm),
            Ok(_) => Err(EvalError::TypeMismatch),
        }
    }
}

/// Fold multiplication over the arguments from position `i`.
pub open spec fn eval_mul(l: Seq<ExprModel>, i: int, acc: int, tm: TableModel) -> Result<
    ExprModel,
    EvalError,
>
    decreases l, l.len() - i,
{
    if i < 0 || i >= l.len() {
        Ok(ExprModel::Number(acc))
    } else {
        match eval_spec(l[i], tm) {
            Err(e) => Err(e),
            Ok(ExprModel::Number(v)) => eval_mul(l, i + 1, wrap_mul(acc, v), tm),
            Ok(_) => Err(EvalError::TypeMismatch),
        }
    }
}

/// Left-fold truncating division over the arguments from position `i`; a
/// zero divisor fails the whole application.
pub open spec fn eval_div(l: Seq<ExprModel>, i: int, acc: int, tm: TableModel) -> Result<
    ExprModel,
    EvalError,
>
    decreases l, l.len() - i,
{
    if i < 0 || i >= l.len() {
        Ok(ExprModel::Number(acc))
    } else {
        match eval_spec(l[i], tm) {
            Err(e) => Err(e),
            Ok(ExprModel::Number(v)) => if v == 0 {
                Err(EvalError::DivideByZero)
            } else {
                eval_div(l, i + 1, wrap_div(acc, v), tm)
            },
            Ok(_) => Err(EvalError::TypeMismatch),
        }
    }
}

/// What evaluation returns: any non-list value is itself; a list is
/// dispatched on its evaluated head.  The `if` form checks its arity on the
/// unevaluated arguments and reduces only the selected branch.
pub open spec fn eval_spec(e: ExprModel, tm: TableModel) -> Result<ExprModel, EvalError>
    decreases e, 0int,
{
    match e {
        ExprModel::List(l) => {
            if l.len() == 0 {
                Err(EvalError::EmptyCall)
            } else {
                match eval_spec(l[0], tm) {
                    Err(er) => Err(er),
                    Ok(ExprModel::Symbol(s)) => {
                        if s == tm.add_symbol {
                            eval_add(l, 1, 0, tm)
                        } else if s == tm.sub_symbol {
                            if l.len() == 1 {
                                Err(EvalError::ArityError)
                            } else if l.len() == 2 {
                                match eval_spec(l[1], tm) {
                                    Err(er) => Err(er),
                                    Ok(ExprModel::Number(v)) => Ok(
                                        ExprModel::Number(wrap_sub(0, v)),
                                    ),
                                    Ok(_) => Err(EvalError::TypeMismatch),
                                }
                            } else {
                                match eval_spec(l[1], tm) {
                                    Err(er) => Err(er),
                                    Ok(ExprModel::Number(v)) => eval_sub(l, 2, v, tm),
                                    Ok(_) => Err(EvalError::TypeMismatch),
                                }
                            }
                        } else if s == tm.mul_symbol {
                            eval_mul(l, 1, 1, tm)
                        } else if s == tm.div_symbol {
                            if l.len() == 1 {
                                Err(EvalError::EmptyCall)
                            } else {
                                match eval_spec(l[1], tm) {
                                    Err(er) => Err(er),
                                    Ok(ExprModel::Number(v)) => eval_div(l, 2, v, tm),
                                    Ok(_) => Err(EvalError::TypeMismatch),
                                }
                            }
                        } else if s == tm.if_symbol {
                            if l.len() != 4 {
                                Err(EvalError::ArityError)
                            } else {
                                match eval_spec(l[1], tm) {
                                    Err(er) => Err(er),
                                    Ok(ExprModel::Bool(b)) => if b {
                                        eval_spec(l[2], tm)
                                    } else {
                                        eval_spec(l[3], tm)
                                    },
                                    Ok(_) => Err(EvalError::NonBooleanCondition),
                                }
                            }
                        } else {
                            Err(EvalError::UnknownOperator)
                        }
                    },
                    Ok(_) => Err(EvalError::NonSymbolHead),
                }
            }
        },
        _ => Ok(e),
    }
}

/// Evaluate one expression against the table's well-known operators.
pub fn eval(expr: &Expr, intern_table: &InternTable) -> (r: Result<Expr, EvalError>)
    requires
        intern_table@.wf(),
        expr_wf(expr@, intern_table@.strings.len() as int),
    ensures
        ({
            match r {
                Ok(v) => eval_spec(expr@, intern_table@) == Ok::<_, EvalError>(v@) && expr_wf(
                    v@,
                    intern_table@.strings.len() as int,
                ),
                Err(e) => eval_spec(expr@, intern_table@) == Err::<ExprModel, _>(e),
            }
        }),
    decreases *expr,
{
    match expr {
        Expr::List(list) => {
            proof {
                assert(decreases_to!(*expr => expr->List_0));
            }
            call_fn(list, intern_table)
        },
        _ => Ok(expr.clone()),
    }
}

/// Apply the operator named by the head of a non-empty list, or report why
/// it cannot be applied.
#[verifier::loop_isolation(false)]
pub fn call_fn(list: &Vec<Expr>, intern_table: &InternTable) -> (r: Result<Expr, EvalError>)
    requires
        intern_table@.wf(),
        exprs_wf(model_seq(list@), intern_table@.strings.len() as int),
    ensures
        ({
            let lm = model_seq(list@);
            match r {
                Ok(v) => eval_spec(ExprModel::List(lm), intern_table@) == Ok::<_, EvalError>(v@)
                    && expr_wf(v@, intern_table@.strings.len() as int),
                Err(e) => eval_spec(ExprModel::List(lm), intern_table@) == Err::<ExprModel, _>(e),
            }
        }),
    decreases *list,
{
    let ghost tm = intern_table@;
    let ghost n = intern_table@.strings.len() as int;
    let ghost lm = model_seq(list@);
    proof {
        crate::expr::lemma_model_seq(list@);
        crate::expr::lemma_exprs_wf(lm, n);
        crate::table::lemma_wf_distinct_handles(tm);
    }
    if list.len() == 0 {
        return Err(EvalError::EmptyCall);
    }
    proof {
        assert(decreases_to!(*list => list@));
        assert(decreases_to!(list@ => list@[0]));
    }
    let head = match eval(&list[0], intern_table) {
        Ok(h) => h,
        Err(e) => {
            return Err(e);
        },
    };
    let s = match head {
        Expr::Symbol(s) => s,
        _ => {
            return Err(EvalError::NonSymbolHead);
        },
    };
    if s == intern_table.add_symbol {
        let mut acc: i64 = 0;
        let mut i: usize = 1;
        while i < list.len()
            invariant
                1 <= i <= list@.len(),
                eval_add(lm, 1, 0, tm) == eval_add(lm, i as int, acc as int, tm),
            decreases list@.len() - i,
        {
            proof {
                assert(decreases_to!(*list => list@));
                assert(decreases_to!(list@ => list@[i as int]));
            }
            match eval(&list[i], intern_table) {
                Err(e) => {
                    return Err(e);
                },
                Ok(Expr::Number(v)) => {
                    let next = acc.wrapping_add(v);
                    proof {
                        assert(next as int == wrap_add(acc as int, v as int));
                    }
                    acc = next;
                },
                Ok(_) => {
                    return Err(EvalError::TypeMismatch);
                },
            }
            i = i + 1;
        }
        Ok(Expr::Number(acc))
    } else if s == intern_table.sub_symbol {
        if list.len() == 1 {
            return Err(EvalError::ArityError);
        }
        proof {
            assert(decreases_to!(*list => list@));
            assert(decreases_to!(list@ => list@[1]));
        }
        let first = match eval(&list[1], intern_table) {
            Err(e) => {
                return Err(e);
            },
            Ok(Expr::Number(v)) => v,
            Ok(_) => {
                return Err(EvalError::TypeMismatch);
            },
        };
        if list.len() == 2 {
            let r0: i64 = 0;
            let neg = r0.wrapping_sub(first);
            proof {
                assert(neg as int == wrap_sub(0, first as int));
            }
            return Ok(Expr::Number(neg));
        }
        let mut acc: i64 = first;
        let mut i: usize = 2;
        while i < list.len()
            invariant
                2 <= i <= list@.len(),
                eval_sub(lm, 2, first as int, tm) == eval_sub(lm, i as int, acc as int, tm),
            decreases list@.len() - i,
        {
            proof {
                assert(decreases_to!(*list => list@));
                assert(decreases_to!(list@ => list@[i as int]));
            }
            match eval(&list[i], intern_table) {
                Err(e) => {
                    return Err(e);
                },
                Ok(Expr::Number(v)) => {
                    let next = acc.wrapping_sub(v);
                    proof {
                        assert(next as int == wrap_sub(acc as int, v as int));
                    }
                    acc = next;
                },
                Ok(_) => {
                    return Err(EvalError::TypeMismatch);
                },
            }
            i = i + 1;
        }
        Ok(Expr::Number(acc))
    } else if s == intern_table.div_symbol {
        if list.len() == 1 {
            return Err(EvalError::EmptyCall);
        }
        proof {
            assert(decreases_to!(*list => list@));
            assert(decreases_to!(list@ => list@[1]));
        }
        let first = match eval(&list[1], intern_table) {
            Err(e) => {
                return Err(e);
            },
            Ok(Expr::Number(v)) => v,
            Ok(_) => {
                return Err(EvalError::TypeMismatch);
            },
        };
        let mut acc: i64 = first;
        let mut i: usize = 2;
        while i < list.len()
            invariant
                2 <= i <= list@.len(),
                eval_div(lm, 2, first as int, tm) == eval_div(lm, i as int, acc as int, tm),
            decreases list@.len() - i,
        {
            proof {
                assert(decreases_to!(*list => list@));
                assert(decreases_to!(list@ => list@[i as int]));
            }
            match eval(&list[i], intern_table) {
                Err(e) => {
                    return Err(e);
                },
                Ok(Expr::Number(v)) => {
                    if v == 0 {
                        return Err(EvalError::DivideByZero);
                    }
                    let next = match acc.checked_div(v) {
                        Some(q) => q,
                        None => i64::MIN,
                    };
                    proof {
                        assert(next as int == wrap_div(acc as int, v as int));
                    }
                    acc = next;
                },
                Ok(_) => {
                    return Err(EvalError::TypeMismatch);
                },
            }
            i = i + 1;
        }
        Ok(Expr::Number(acc))
    } else if s == intern_table.mul_symbol {
        let mut acc: i64 = 1;
        let mut i: usize = 1;
        while i < list.len()
            invariant
                1 <= i <= list@.len(),
                eval_mul(lm, 1, 1, tm) == eval_mul(lm, i as int, acc as int, tm),
            decreases list@.len() - i,
        {
            proof {
                assert(decreases_to!(*list => list@));
                assert(decreases_to!(list@ => list@[i as int]));
            }
            match eval(&list[i], intern_table) {
                Err(e) => {
                    return Err(e);
                },
                Ok(Expr::Number(v)) => {
                    let next = acc.wrapping_mul(v);
                    proof {
                        assert(next as int == wrap_mul(acc as int, v as int));
                    }
                    acc = next;
                },
                Ok(_) => {
                    return Err(EvalError::TypeMismatch);
                },
            }
            i = i + 1;
        }
        Ok(Expr::Number(acc))
    } else if s == intern_table.if_symbol {
        if list.len() != 4 {
            return Err(EvalError::ArityError);
        }
        proof {
            assert(decreases_to!(*list => list@));
            assert(decreases_to!(list@ => list@[1]));
            assert(decreases_to!(list@ => list@[2]));
            assert(decreases_to!(list@ => list@[3]));
        }
        let cond = match eval(&list[1], intern_table) {
            Err(e) => {
                return Err(e);
            },
            Ok(Expr::Bool(b)) => b,
            Ok(_) => {
                return Err(EvalError::NonBooleanCondition);
            },
        };
        if cond {
            eval(&list[2], intern_table)
        } else {
            eval(&list[3], intern_table)
        }
    } else {
        Err(EvalError::UnknownOperator)
    }
}

} // verus!
