//! Expression trees as handed over by the parser, their static typing
//! against a column set, and their per-row evaluation semantics. These
//! semantics are what plan compilation and execution are proved against.

use vstd::prelude::*;
use crate::codec::BasicType;
use crate::column::{Column, lookup, lookup_from};
use crate::vals::LogVal;

verus! {

/// Binary operators of the expression language.
#[derive(Clone, Copy, PartialEq, Eq, Structural, Debug)]
pub enum FuncType {
    Gt,
    Lt,
    Equals,
    And,
    Or,
}

/// A parsed expression: a column reference, an integer literal, or a
/// function application. Consumed, never mutated, by the plan compiler.
pub enum Expr {
    ColName(String),
    Const(i64),
    Func(FuncType, Box<Expr>, Box<Expr>),
}

/// Errors reported by plan compilation.
#[derive(Clone, Copy, PartialEq, Eq, Structural, Debug)]
pub enum QueryError {
    ColumnNotFound,
    TypeMismatch,
}

/// Every column name an expression mentions.
pub open spec fn expr_cols(e: Expr) -> Set<Seq<char>>
    decreases e,
{
    match e {
        Expr::ColName(s) => Set::empty().insert(s@),
        Expr::Const(_) => Set::empty(),
        Expr::Func(_, a, b) => expr_cols(*a).union(expr_cols(*b)),
    }
}

/// Static typing of an expression against a column set: comparisons take two
/// integers, the connectives take two booleans. The error, if any, is the
/// leftmost one, column lookups failing before type checks.
pub open spec fn kind_of(e: Expr, cols: Seq<Column>) -> Result<BasicType, crate::expr::QueryError>
    decreases e,
{
    match e {
        Expr::ColName(s) => match lookup(cols, s@) {
            Some(i) => Ok(cols[i].basic_type()),
            None => Err(QueryError::ColumnNotFound),
        },
        Expr::Const(_) => Ok(BasicType::Integer),
        Expr::Func(op, a, b) => match (kind_of(*a, cols), kind_of(*b, cols)) {
            (Ok(ta), Ok(tb)) => match op {
                FuncType::Gt | FuncType::Lt | FuncType::Equals => {
                    if ta == BasicType::Integer && tb == BasicType::Integer {
                        Ok(BasicType::Boolean)
                    } else {
                        Err(QueryError::TypeMismatch)
                    }
                },
                FuncType::And | FuncType::Or => {
                    if ta == BasicType::Boolean && tb == BasicType::Boolean {
                        Ok(BasicType::Boolean)
                    } else {
                        Err(QueryError::TypeMismatch)
                    }
                },
            },
            (Err(x), _) => Err(x),
            (Ok(_), Err(x)) => Err(x),
        },
    }
}

pub open spec fn as_int(v: LogVal) -> int {
    match v {
        LogVal::Int(i) => i,
        _ => 0,
    }
}

pub open spec fn as_bool(v: LogVal) -> bool {
    match v {
        LogVal::Bool(b) => b,
        _ => false,
    }
}

pub open spec fn apply_op(op: FuncType, x: LogVal, y: LogVal) -> LogVal {
    match op {
        FuncType::Gt => LogVal::Bool(as_int(x) > as_int(y)),
        FuncType::Lt => LogVal::Bool(as_int(x) < as_int(y)),
        FuncType::Equals => LogVal::Bool(as_int(x) == as_int(y)),
        FuncType::And => LogVal::Bool(as_bool(x) && as_bool(y)),
        FuncType::Or => LogVal::Bool(as_bool(x) || as_bool(y)),
    }
}

/// The logical value of an expression at one row. Meaningful whenever the
/// expression types against the columns and the row is in range.
pub open spec fn eval_expr(e: Expr, cols: Seq<Column>, row: int) -> LogVal
    decreases e,
{
    match e {
        Expr::ColName(s) => match lookup(cols, s@) {
            Some(i) => cols[i].lgcl()[row],
            None => LogVal::Bool(false),
        },
        Expr::Const(v) => LogVal::Int(v as int),
        Expr::Func(op, a, b) => apply_op(op, eval_expr(*a, cols, row), eval_expr(*b, cols, row)),
    }
}

/// True when the name sequence holds a string whose characters equal `n`.
pub open spec fn holds_name(v: Seq<String>, n: Seq<char>) -> bool {
    exists|i: int| 0 <= i < v.len() && #[trigger] v[i]@ == n
}

/// Whether a name list is free of duplicates, comparing by characters.
pub open spec fn names_distinct(v: Seq<String>) -> bool {
    forall|p: int, q: int| 0 <= p < q < v.len() ==> v[p]@ != v[q]@
}

/// True when the list holds a string with the same characters as `s`.
pub fn contains_name(v: &Vec<String>, s: &String) -> (r: bool)
    ensures
        r == holds_name(v@, s@),
{
    let mut i: usize = 0;
    let n = v.len();
    while i < n
        invariant
            i <= n,
            n == v@.len(),
            forall|k: int| 0 <= k < i ==> #[trigger] v@[k]@ != s@,
        decreases n - i,
    {
        if v[i].eq(s) {
            return true;
        }
        i = i + 1;
    }
    false
}

impl Expr {
    /// Adds every column name this expression mentions to `out`, skipping
    /// names already present.
    pub fn add_colnames(&self, out: &mut Vec<String>)
        requires
            names_distinct(old(out)@),
        ensures
            names_distinct(final(out)@),
            forall|n: Seq<char>|
                #[trigger] holds_name(final(out)@, n) <==> holds_name(old(out)@, n) || expr_cols(
                    *self,
                ).contains(n),
        decreases self,
    {
        match self {
            Expr::ColName(s) => {
                if !contains_name(out, s) {
                    let ghost before = out@;
                    out.push(s.clone());
                    proof {
                        assert forall|n: Seq<char>| #[trigger]
                            holds_name(out@, n) implies holds_name(before, n) || expr_cols(
                            *self,
                        ).contains(n) by {
                            let i = choose|i: int| 0 <= i < out@.len() && #[trigger] out@[i]@ == n;
                            if i < before.len() {
                                assert(before[i]@ == n);
                            } else {
                                assert(out@[i]@ == s@);
                            }
                        }
                        assert forall|n: Seq<char>|
                            holds_name(before, n) || expr_cols(*self).contains(
                                n,
                            ) implies #[trigger] holds_name(out@, n) by {
                            if holds_name(before, n) {
                                let i = choose|i: int|
                                    0 <= i < before.len() && #[trigger] before[i]@ == n;
                                assert(out@[i]@ == n);
                            } else {
                                assert(n == s@);
                                assert(out@[before.len() as int]@ == n);
                            }
                        }
                        assert forall|p: int, q: int|
                            0 <= p < q < out@.len() implies out@[p]@ != out@[q]@ by {
                            if q == out@.len() - 1 {
                                assert(!holds_name(before, s@));
                                assert(before[p]@ != s@);
                            }
                        }
                    }
                } else {
                    proof {
                        assert forall|n: Seq<char>|
                            holds_name(out@, n) || expr_cols(*self).contains(
                                n,
                            ) implies #[trigger] holds_name(out@, n) by {
                            if !holds_name(out@, n) {
                                assert(n == s@);
                            }
                        }
                    }
                }
            },
            Expr::Const(_) => (),
            Expr::Func(_, a, b) => {
                a.add_colnames(out);
                b.add_colnames(out);
            },
        }
    }
}

} // verus!
