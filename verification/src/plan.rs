//! The query plan compiler and executor. Compilation turns an expression
//! tree into a physical operator tree, deciding per column reference whether
//! work can run on the encoded representation: a column read stays encoded,
//! and a comparison against a literal is rewritten into the encoded domain
//! via the codec's literal-encode operation whenever the codec is
//! order-preserving and the literal is representable; otherwise an explicit
//! decode step is planned. Execution applies the active row filter at every
//! column read and is proved, row for row, against the expression semantics.

use vstd::prelude::*;
use crate::codec::{BasicType, IntegerOffsetCodec};
use crate::column::{Column, ColumnData, ColumnSet, EncodedVals};
use crate::expr::{Expr, FuncType, QueryError, apply_op, as_int, eval_expr, kind_of};
use crate::filter::{Filter, filter_wf, included, lemma_included_in_range};
use crate::typed_vec::TypedVec;
use crate::vals::LogVal;

verus! {

/// A compiled physical operator.
pub enum QueryPlan {
    /// Read an encoded column under the active filter, leaving the values
    /// encoded.
    ReadEncoded(usize),
    /// Read a plain column under the active filter.
    ReadPlain(usize),
    /// A constant integer, materialized once per included row.
    ConstInt(i64),
    /// Compare physical integer values against a scalar already expressed in
    /// the same domain.
    CmpScalar(FuncType, Box<QueryPlan>, i64),
    /// Compare two decoded integer operands row by row.
    CmpVecs(FuncType, Box<QueryPlan>, Box<QueryPlan>),
    /// Combine two boolean operands row by row.
    BoolOp(FuncType, Box<QueryPlan>, Box<QueryPlan>),
    /// Decode an encoded operand.
    DecodePlan(Box<QueryPlan>),
}

/// The logical type a plan produces.
pub open spec fn plan_kind(p: QueryPlan, cols: Seq<Column>) -> BasicType
    decreases p,
{
    match p {
        QueryPlan::ReadEncoded(_) => BasicType::Integer,
        QueryPlan::ReadPlain(c) => {
            if 0 <= c < cols.len() {
                cols[c as int].basic_type()
            } else {
                BasicType::Integer
            }
        },
        QueryPlan::ConstInt(_) => BasicType::Integer,
        QueryPlan::CmpScalar(_, _, _) => BasicType::Boolean,
        QueryPlan::CmpVecs(_, _, _) => BasicType::Boolean,
        QueryPlan::BoolOp(_, _, _) => BasicType::Boolean,
        QueryPlan::DecodePlan(inner) => plan_kind(*inner, cols),
    }
}

/// The codec of a plan whose output is still encoded.
pub open spec fn plan_codec(p: QueryPlan, cols: Seq<Column>) -> Option<IntegerOffsetCodec> {
    match p {
        QueryPlan::ReadEncoded(c) => {
            if 0 <= c < cols.len() {
                match cols[c as int].data {
                    ColumnData::Encoded(_, codec) => Some(codec),
                    _ => None,
                }
            } else {
                None
            }
        },
        _ => None,
    }
}

pub open spec fn is_cmp_op(op: FuncType) -> bool {
    op == FuncType::Gt || op == FuncType::Lt || op == FuncType::Equals
}

pub open spec fn is_bool_op(op: FuncType) -> bool {
    op == FuncType::And || op == FuncType::Or
}

/// Well-formedness of a plan against a column set: reads stay in range and
/// match the column's representation, and every operator's operands have the
/// type and representation it expects.
pub open spec fn plan_wf(p: QueryPlan, cols: Seq<Column>) -> bool
    decreases p,
{
    match p {
        QueryPlan::ReadEncoded(c) => 0 <= c < cols.len() && cols[c as int].data is Encoded,
        QueryPlan::ReadPlain(c) => 0 <= c < cols.len() && !(cols[c as int].data is Encoded),
        QueryPlan::ConstInt(_) => true,
        QueryPlan::CmpScalar(op, inner, _) => {
            &&& is_cmp_op(op)
            &&& plan_wf(*inner, cols)
            &&& plan_kind(*inner, cols) == BasicType::Integer
        },
        QueryPlan::CmpVecs(op, a, b) => {
            &&& is_cmp_op(op)
            &&& plan_wf(*a, cols)
            &&& plan_wf(*b, cols)
            &&& plan_kind(*a, cols) == BasicType::Integer
            &&& plan_kind(*b, cols) == BasicType::Integer
            &&& plan_codec(*a, cols) is None
            &&& plan_codec(*b, cols) is None
        },
        QueryPlan::BoolOp(op, a, b) => {
            &&& is_bool_op(op)
            &&& plan_wf(*a, cols)
            &&& plan_wf(*b, cols)
            &&& plan_kind(*a, cols) == BasicType::Boolean
            &&& plan_kind(*b, cols) == BasicType::Boolean
        },
        QueryPlan::DecodePlan(inner) => plan_wf(*inner, cols),
    }
}

/// The physical value a plan produces at one underlying row.
pub open spec fn plan_phys_at(p: QueryPlan, cols: Seq<Column>, row: int) -> LogVal
    decreases p, 0int,
{
    match p {
        QueryPlan::ReadEncoded(c) => {
            if 0 <= c < cols.len() {
                match cols[c as int].data {
                    ColumnData::Encoded(e, _) => LogVal::Int(e.raws()[row]),
                    _ => LogVal::Bool(false),
                }
            } else {
                LogVal::Bool(false)
            }
        },
        QueryPlan::ReadPlain(c) => {
            if 0 <= c < cols.len() {
                cols[c as int].lgcl()[row]
            } else {
                LogVal::Bool(false)
            }
        },
        QueryPlan::ConstInt(v) => LogVal::Int(v as int),
        QueryPlan::CmpScalar(op, inner, s) => apply_op(
            op,
            plan_phys_at(*inner, cols, row),
            LogVal::Int(s as int),
        ),
        QueryPlan::CmpVecs(op, a, b) => apply_op(
            op,
            plan_phys_at(*a, cols, row),
            plan_phys_at(*b, cols, row),
        ),
        QueryPlan::BoolOp(op, a, b) => apply_op(
            op,
            plan_phys_at(*a, cols, row),
            plan_phys_at(*b, cols, row),
        ),
        QueryPlan::DecodePlan(inner) => plan_lgcl_at(*inner, cols, row),
    }
}

/// The logical value a plan produces at one underlying row: the physical
/// value run through the plan's codec, if it still has one.
pub open spec fn plan_lgcl_at(p: QueryPlan, cols: Seq<Column>, row: int) -> LogVal
    decreases p, 1int,
{
    match plan_codec(p, cols) {
        Some(c) => LogVal::Int(as_int(plan_phys_at(p, cols, row)) + c.offset as int),
        None => plan_phys_at(p, cols, row),
    }
}

/// Only an encoded read carries a codec, and its values are integers.
pub proof fn lemma_codec_kind(p: QueryPlan, cols: Seq<Column>)
    ensures
        plan_codec(p, cols) is Some ==> plan_kind(p, cols) == BasicType::Integer,
{
}

/// Wraps a plan in a decode step when its output would still be encoded.
fn decoded_wrap(p: QueryPlan) -> (r: QueryPlan)
    ensures
        forall|cols: Seq<Column>| #[trigger] plan_wf(p, cols) ==> plan_wf(r, cols),
        forall|cols: Seq<Column>| #[trigger] plan_kind(r, cols) == plan_kind(p, cols),
        forall|cols: Seq<Column>| #[trigger] plan_codec(r, cols) is None,
        forall|cols: Seq<Column>, row: int| #[trigger]
            plan_lgcl_at(r, cols, row) == plan_lgcl_at(p, cols, row),
{
    match p {
        QueryPlan::ReadEncoded(_) => QueryPlan::DecodePlan(Box::new(p)),
        other => other,
    }
}

/// Evaluation of a function application is the operator applied to the
/// operands' values.
proof fn lemma_eval_func(e: Expr, cols: Seq<Column>, row: int)
    ensures
        (match e {
            Expr::Func(op, a, b) => eval_expr(e, cols, row) == apply_op(
                op,
                eval_expr(*a, cols, row),
                eval_expr(*b, cols, row),
            ),
            _ => true,
        }),
{
    reveal_with_fuel(eval_expr, 2);
}

/// Typing of a function application in terms of the operands' types.
proof fn lemma_kind_func(e: Expr, cols: Seq<Column>)
    ensures
        (match e {
            Expr::Func(op, a, b) => kind_of(e, cols) == (match (
                kind_of(*a, cols),
                kind_of(*b, cols),
            ) {
                (Ok(ta), Ok(tb)) => {
                    if is_cmp_op(op) {
                        if ta == BasicType::Integer && tb == BasicType::Integer {
                            Ok::<BasicType, QueryError>(BasicType::Boolean)
                        } else {
                            Err(QueryError::TypeMismatch)
                        }
                    } else {
                        if ta == BasicType::Boolean && tb == BasicType::Boolean {
                            Ok(BasicType::Boolean)
                        } else {
                            Err(QueryError::TypeMismatch)
                        }
                    }
                },
                (Err(x), _) => Err(x),
                (Ok(_), Err(x)) => Err(x),
            }),
            _ => true,
        }),
{
    reveal_with_fuel(kind_of, 2);
}

/// The comparison pushed into the encoded domain decides exactly the logical
/// comparison: the codec is a fixed shift, so shifting both sides preserves
/// every comparison's outcome.
proof fn lemma_cmp_encoded_pushdown(
    op: FuncType,
    i: usize,
    ev: i64,
    v: i64,
    cols: Seq<Column>,
    row: int,
)
    requires
        is_cmp_op(op),
        0 <= i < cols.len(),
        cols[i as int].data is Encoded,
        0 <= row < cols[i as int].n_rows(),
        ev as int == v as int - (match cols[i as int].data {
            ColumnData::Encoded(_, c0) => c0.offset as int,
            _ => 0int,
        }),
    ensures
        plan_lgcl_at(
            QueryPlan::CmpScalar(op, Box::new(QueryPlan::ReadEncoded(i)), ev),
            cols,
            row,
        ) == apply_op(op, cols[i as int].lgcl()[row], LogVal::Int(v as int)),
{
    reveal_with_fuel(plan_phys_at, 3);
    let q = QueryPlan::CmpScalar(op, Box::new(QueryPlan::ReadEncoded(i)), ev);
    let off = match cols[i as int].data {
        ColumnData::Encoded(_, c0) => c0.offset as int,
        _ => 0int,
    };
    let raw = match cols[i as int].data {
        ColumnData::Encoded(e0, _) => e0.raws()[row],
        _ => 0int,
    };
    assert(cols[i as int].lgcl()[row] == LogVal::Int(raw + off));
    assert(plan_phys_at(QueryPlan::ReadEncoded(i), cols, row) == LogVal::Int(raw));
    assert(plan_phys_at(q, cols, row) == apply_op(op, LogVal::Int(raw), LogVal::Int(ev as int)));
    assert(plan_codec(q, cols) is None);
    assert(plan_lgcl_at(q, cols, row) == plan_phys_at(q, cols, row));
    assert(apply_op(op, LogVal::Int(raw), LogVal::Int(ev as int)) == apply_op(
        op,
        LogVal::Int(raw + off),
        LogVal::Int(v as int),
    ));
}

/// A comparison whose operand is already decoded compares logical values
/// directly.
proof fn lemma_cmp_scalar_lgcl(op: FuncType, q: QueryPlan, v: i64, cols: Seq<Column>, row: int)
    requires
        plan_codec(q, cols) is None,
    ensures
        plan_lgcl_at(QueryPlan::CmpScalar(op, Box::new(q), v), cols, row) == apply_op(
            op,
            plan_lgcl_at(q, cols, row),
            LogVal::Int(v as int),
        ),
{
    reveal_with_fuel(plan_phys_at, 2);
    reveal_with_fuel(plan_lgcl_at, 2);
}

/// Decoding an encoded column read yields the column's logical values.
proof fn lemma_decode_read(i: usize, cols: Seq<Column>, row: int)
    requires
        0 <= i < cols.len(),
        cols[i as int].data is Encoded,
        0 <= row < cols[i as int].n_rows(),
    ensures
        plan_phys_at(
            QueryPlan::DecodePlan(Box::new(QueryPlan::ReadEncoded(i))),
            cols,
            row,
        ) == cols[i as int].lgcl()[row],
        plan_lgcl_at(QueryPlan::ReadEncoded(i), cols, row) == cols[i as int].lgcl()[row],
        plan_lgcl_at(
            QueryPlan::DecodePlan(Box::new(QueryPlan::ReadEncoded(i))),
            cols,
            row,
        ) == cols[i as int].lgcl()[row],
{
    reveal_with_fuel(plan_phys_at, 2);
    reveal_with_fuel(plan_lgcl_at, 2);
}

proof fn lemma_cmp_vecs_lgcl(op: FuncType, a: QueryPlan, b: QueryPlan, cols: Seq<Column>, row: int)
    requires
        plan_codec(a, cols) is None,
        plan_codec(b, cols) is None,
    ensures
        plan_lgcl_at(QueryPlan::CmpVecs(op, Box::new(a), Box::new(b)), cols, row) == apply_op(
            op,
            plan_lgcl_at(a, cols, row),
            plan_lgcl_at(b, cols, row),
        ),
{
    reveal_with_fuel(plan_phys_at, 2);
    reveal_with_fuel(plan_lgcl_at, 2);
}

proof fn lemma_bool_op_lgcl(op: FuncType, a: QueryPlan, b: QueryPlan, cols: Seq<Column>, row: int)
    requires
        plan_codec(a, cols) is None,
        plan_codec(b, cols) is None,
    ensures
        plan_lgcl_at(QueryPlan::BoolOp(op, Box::new(a), Box::new(b)), cols, row) == apply_op(
            op,
            plan_lgcl_at(a, cols, row),
            plan_lgcl_at(b, cols, row),
        ),
{
    reveal_with_fuel(plan_phys_at, 2);
    reveal_with_fuel(plan_lgcl_at, 2);
}

impl QueryPlan {
    /// Compiles one expression against the column bindings. Returns the
    /// compiled operator and its result type, or the leftmost error: an
    /// unknown column, or operands of the wrong type. The compiled plan's
    /// decoded output equals the expression's value on every row.
    #[verifier::rlimit(60)]
    pub fn create_query_plan(e: &Expr, columns: &ColumnSet) -> (r: Result<
        (QueryPlan, BasicType),
        QueryError,
    >)
        requires
            columns.wf(),
        ensures
            r is Err <==> kind_of(*e, columns.cols@) is Err,
            (match r {
                Err(x) => kind_of(*e, columns.cols@) == Err::<BasicType, QueryError>(x),
                Ok(pt) => {
                    &&& plan_wf(pt.0, columns.cols@)
                    &&& kind_of(*e, columns.cols@) == Ok::<BasicType, QueryError>(pt.1)
                    &&& plan_kind(pt.0, columns.cols@) == pt.1
                    &&& forall|row: int|
                        0 <= row < columns.n_rows() ==> #[trigger] plan_lgcl_at(
                            pt.0,
                            columns.cols@,
                            row,
                        ) == eval_expr(*e, columns.cols@, row)
                },
            }),
        decreases *e,
    {
        let ghost cols = columns.cols@;
        match e {
            Expr::ColName(s) => match columns.find(s) {
                Some(i) => {
                    proof {
                        crate::column::lemma_lookup_in_range(cols, s@, 0);
                    }
                    match &columns.cols[i].data {
                        ColumnData::Encoded(_, _) => {
                            let p = QueryPlan::ReadEncoded(i);
                            proof {
                                assert forall|row: int|
                                    0 <= row < columns.n_rows() implies #[trigger] plan_lgcl_at(
                                    p,
                                    cols,
                                    row,
                                ) == eval_expr(*e, cols, row) by {
                                    assert(cols[i as int].n_rows() == columns.n_rows());
                                    lemma_decode_read(i, cols, row);
                                }
                            }
                            Ok((p, BasicType::Integer))
                        },
                        _ => {
                            let t = match &columns.cols[i].data {
                                ColumnData::PlainStr(_) => BasicType::Str,
                                _ => BasicType::Integer,
                            };
                            let p = QueryPlan::ReadPlain(i);
                            proof {
                                assert forall|row: int|
                                    0 <= row < columns.n_rows() implies #[trigger] plan_lgcl_at(
                                    p,
                                    cols,
                                    row,
                                ) == eval_expr(*e, cols, row) by {
                                    assert(cols[i as int].n_rows() == columns.n_rows());
                                }
                            }
                            Ok((p, t))
                        },
                    }
                },
                None => Err(QueryError::ColumnNotFound),
            },
            Expr::Const(v) => Ok((QueryPlan::ConstInt(*v), BasicType::Integer)),
            Expr::Func(op, a, b) => match op {
                FuncType::Gt | FuncType::Lt | FuncType::Equals => match (&**a, &**b) {
                    (Expr::ColName(s), Expr::Const(v)) => match columns.find(s) {
                        Some(i) => {
                            proof {
                                crate::column::lemma_lookup_in_range(cols, s@, 0);
                                lemma_kind_func(*e, cols);
                            }
                            match &columns.cols[i].data {
                                ColumnData::Encoded(_, codec) => {
                                    if codec.is_order_preserving() {
                                        // The encoding is a monotonic shift, so the
                                        // comparison can run on encoded values once the
                                        // literal is translated into the encoded domain.
                                        match codec.encode_int(*v) {
                                            Some(ev) => {
                                                let p = QueryPlan::CmpScalar(
                                                    *op,
                                                    Box::new(QueryPlan::ReadEncoded(i)),
                                                    ev,
                                                );
                                                proof {
                                                    assert(plan_wf(
                                                        QueryPlan::ReadEncoded(i),
                                                        cols,
                                                    ));
                                                    assert(plan_kind(
                                                        QueryPlan::ReadEncoded(i),
                                                        cols,
                                                    ) == BasicType::Integer);
                                                    assert forall|row: int|
                                                        0 <= row
                                                            < columns.n_rows() implies #[trigger] plan_lgcl_at(
                                                        p,
                                                        cols,
                                                        row,
                                                    ) == eval_expr(*e, cols, row) by {
                                                        assert(cols[i as int].n_rows()
                                                            == columns.n_rows());
                                                        lemma_eval_func(*e, cols, row);
                                                        assert(eval_expr(**a, cols, row)
                                                            == cols[i as int].lgcl()[row]);
                                                        assert(eval_expr(**b, cols, row)
                                                            == LogVal::Int(*v as int));
                                                        lemma_cmp_encoded_pushdown(
                                                            *op,
                                                            i,
                                                            ev,
                                                            *v,
                                                            cols,
                                                            row,
                                                        );
                                                    }
                                                }
                                                Ok((p, BasicType::Boolean))
                                            },
                                            None => {
                                                // The literal is outside the encoded
                                                // domain: decode first, compare in the
                                                // logical domain.
                                                let inner = QueryPlan::DecodePlan(
                                                    Box::new(QueryPlan::ReadEncoded(i)),
                                                );
                                                let p = QueryPlan::CmpScalar(
                                                    *op,
                                                    Box::new(inner),
                                                    *v,
                                                );
                                                proof {
                                                    assert(plan_wf(QueryPlan::ReadEncoded(i), cols));
                                                    assert(plan_kind(QueryPlan::ReadEncoded(i), cols) == BasicType::Integer);
                                                    assert(plan_wf(
                                                                                                         QueryPlan::DecodePlan(Box::new(QueryPlan::ReadEncoded(i))),
                                                                                                         cols,
                                                    ));
                                                    assert(plan_kind(
                                                                                                         QueryPlan::DecodePlan(Box::new(QueryPlan::ReadEncoded(i))),
                                                                                                         cols,
                                                    ) == BasicType::Integer);
                                                    assert forall|row: int|
                                                        0 <= row
                                                            < columns.n_rows() implies #[trigger] plan_lgcl_at(
                                                        p,
                                                        cols,
                                                        row,
                                                    ) == eval_expr(*e, cols, row) by {
                                                        assert(cols[i as int].n_rows()
                                                            == columns.n_rows());
                                                        assert(plan_kind(
                                                            QueryPlan::ReadEncoded(i),
                                                            cols,
                                                        ) == BasicType::Integer);
                                                        assert(plan_wf(
                                                            QueryPlan::ReadEncoded(i),
                                                            cols,
                                                        ));
                                                        lemma_eval_func(*e, cols, row);
                                                        assert(eval_expr(**a, cols, row)
                                                            == cols[i as int].lgcl()[row]);
                                                        assert(eval_expr(**b, cols, row)
                                                            == LogVal::Int(*v as int));
                                                        lemma_decode_read(i, cols, row);
                                                        lemma_cmp_scalar_lgcl(
                                                            *op,
                                                            QueryPlan::DecodePlan(
                                                                Box::new(
                                                                    QueryPlan::ReadEncoded(i),
                                                                ),
                                                            ),
                                                            *v,
                                                            cols,
                                                            row,
                                                        );
                                                    }
                                                }
                                                Ok((p, BasicType::Boolean))
                                            },
                                        }
                                    } else {
                                        let inner = QueryPlan::DecodePlan(
                                            Box::new(QueryPlan::ReadEncoded(i)),
                                        );
                                        let p = QueryPlan::CmpScalar(*op, Box::new(inner), *v);
                                        proof {
                                            assert(plan_wf(QueryPlan::ReadEncoded(i), cols));
                                            assert(plan_kind(QueryPlan::ReadEncoded(i), cols) == BasicType::Integer);
                                            assert(plan_wf(
                                                                                         QueryPlan::DecodePlan(Box::new(QueryPlan::ReadEncoded(i))),
                                                                                         cols,
                                            ));
                                            assert(plan_kind(
                                                                                         QueryPlan::DecodePlan(Box::new(QueryPlan::ReadEncoded(i))),
                                                                                         cols,
                                            ) == BasicType::Integer);
                                            assert forall|row: int|
                                                0 <= row
                                                    < columns.n_rows() implies #[trigger] plan_lgcl_at(
                                                p,
                                                cols,
                                                row,
                                            ) == eval_expr(*e, cols, row) by {
                                                assert(cols[i as int].n_rows() == columns.n_rows());
                                                assert(plan_kind(QueryPlan::ReadEncoded(i), cols)
                                                    == BasicType::Integer);
                                                assert(plan_wf(QueryPlan::ReadEncoded(i), cols));
                                                lemma_eval_func(*e, cols, row);
                                                assert(eval_expr(**a, cols, row) == cols[i as int].lgcl()[row]);
                                                assert(eval_expr(**b, cols, row) == LogVal::Int(
                                                    *v as int,
                                                ));
                                                lemma_decode_read(i, cols, row);
                                                lemma_cmp_scalar_lgcl(
                                                    *op,
                                                    QueryPlan::DecodePlan(
                                                        Box::new(QueryPlan::ReadEncoded(i)),
                                                    ),
                                                    *v,
                                                    cols,
                                                    row,
                                                );
                                            }
                                        }
                                        Ok((p, BasicType::Boolean))
                                    }
                                },
                                ColumnData::PlainInt(_) => {
                                    let p = QueryPlan::CmpScalar(
                                        *op,
                                        Box::new(QueryPlan::ReadPlain(i)),
                                        *v,
                                    );
                                    proof {
                                        assert(plan_wf(QueryPlan::ReadPlain(i), cols));
                                        assert(plan_kind(QueryPlan::ReadPlain(i), cols)
                                            == BasicType::Integer);
                                        assert forall|row: int|
                                            0 <= row
                                                < columns.n_rows() implies #[trigger] plan_lgcl_at(
                                            p,
                                            cols,
                                            row,
                                        ) == eval_expr(*e, cols, row) by {
                                            assert(cols[i as int].n_rows() == columns.n_rows());
                                            lemma_eval_func(*e, cols, row);
                                            assert(eval_expr(**a, cols, row) == cols[i as int].lgcl()[row]);
                                            assert(eval_expr(**b, cols, row) == LogVal::Int(
                                                *v as int,
                                            ));
                                            lemma_cmp_scalar_lgcl(
                                                *op,
                                                QueryPlan::ReadPlain(i),
                                                *v,
                                                cols,
                                                row,
                                            );
                                        }
                                    }
                                    Ok((p, BasicType::Boolean))
                                },
                                ColumnData::PlainStr(_) => Err(QueryError::TypeMismatch),
                            }
                        },
                        None => {
                            proof {
                                lemma_kind_func(*e, cols);
                            }
                            Err(QueryError::ColumnNotFound)
                        },
                    },
                    _ => {
                        proof {
                            lemma_kind_func(*e, cols);
                        }
                        let pa = match Self::create_query_plan(a, columns) {
                            Ok(p) => p,
                            Err(x) => {
                                return Err(x);
                            },
                        };
                        let pb = match Self::create_query_plan(b, columns) {
                            Ok(p) => p,
                            Err(x) => {
                                return Err(x);
                            },
                        };
                        if matches!(pa.1, BasicType::Integer) && matches!(
                            pb.1,
                            BasicType::Integer,
                        ) {
                            let ghost ga = pa.0;
                            let ghost gb = pb.0;
                            let wa = decoded_wrap(pa.0);
                            let wb = decoded_wrap(pb.0);
                            let ghost gwa = wa;
                            let ghost gwb = wb;
                            let p = QueryPlan::CmpVecs(*op, Box::new(wa), Box::new(wb));
                            proof {
                                assert(plan_wf(gwa, cols));
                                assert(plan_wf(gwb, cols));
                                assert(plan_kind(gwa, cols) == BasicType::Integer);
                                assert(plan_kind(gwb, cols) == BasicType::Integer);
                                assert(plan_codec(gwa, cols) is None);
                                assert(plan_codec(gwb, cols) is None);
                                assert forall|row: int|
                                    0 <= row < columns.n_rows() implies #[trigger] plan_lgcl_at(
                                    p,
                                    cols,
                                    row,
                                ) == eval_expr(*e, cols, row) by {
                                    lemma_eval_func(*e, cols, row);
                                    lemma_cmp_vecs_lgcl(*op, gwa, gwb, cols, row);
                                    assert(plan_lgcl_at(gwa, cols, row) == plan_lgcl_at(
                                        ga,
                                        cols,
                                        row,
                                    ));
                                    assert(plan_lgcl_at(gwb, cols, row) == plan_lgcl_at(
                                        gb,
                                        cols,
                                        row,
                                    ));
                                }
                            }
                            Ok((p, BasicType::Boolean))
                        } else {
                            Err(QueryError::TypeMismatch)
                        }
                    },
                },
                FuncType::And | FuncType::Or => {
                    proof {
                        lemma_kind_func(*e, cols);
                    }
                    let pa = match Self::create_query_plan(a, columns) {
                        Ok(p) => p,
                        Err(x) => {
                            return Err(x);
                        },
                    };
                    let pb = match Self::create_query_plan(b, columns) {
                        Ok(p) => p,
                        Err(x) => {
                            return Err(x);
                        },
                    };
                    if matches!(pa.1, BasicType::Boolean) && matches!(pb.1, BasicType::Boolean) {
                        let ghost ga = pa.0;
                        let ghost gb = pb.0;
                        let p = QueryPlan::BoolOp(*op, Box::new(pa.0), Box::new(pb.0));
                        proof {
                            lemma_codec_kind(ga, cols);
                            lemma_codec_kind(gb, cols);
                            assert forall|row: int|
                                0 <= row < columns.n_rows() implies #[trigger] plan_lgcl_at(
                                p,
                                cols,
                                row,
                            ) == eval_expr(*e, cols, row) by {
                                lemma_eval_func(*e, cols, row);
                                lemma_bool_op_lgcl(*op, ga, gb, cols, row);
                            }
                        }
                        Ok((p, BasicType::Boolean))
                    } else {
                        Err(QueryError::TypeMismatch)
                    }
                },
            },
        }
    }
}

/// Executes a compiled plan under the active filter against the columns,
/// yielding one physical value per included row, in filter order. The read
/// applies the filter directly, so only included rows are ever touched.
pub fn execute(plan: &QueryPlan, columns: &ColumnSet, filter: &Filter) -> (r: TypedVec)
    requires
        columns.wf(),
        plan_wf(*plan, columns.cols@),
        filter_wf(filter@, columns.n_rows()),
    ensures
        r.wf(),
        r.phys().len() == included(filter@, columns.n_rows()).len(),
        r.lgcl().len() == included(filter@, columns.n_rows()).len(),
        forall|k: int|
            0 <= k < r.phys().len() ==> #[trigger] r.phys()[k] == plan_phys_at(
                *plan,
                columns.cols@,
                included(filter@, columns.n_rows())[k],
            ),
        forall|k: int|
            0 <= k < r.phys().len() ==> #[trigger] r.lgcl()[k] == plan_lgcl_at(
                *plan,
                columns.cols@,
                included(filter@, columns.n_rows())[k],
            ),
        r is Boolean <==> plan_kind(*plan, columns.cols@) == BasicType::Boolean,
        r is Str <==> plan_kind(*plan, columns.cols@) == BasicType::Str,
        r is Encoded <==> plan_codec(*plan, columns.cols@) is Some,
        (match (r, plan_codec(*plan, columns.cols@)) {
            (TypedVec::Encoded(_, rc), Some(pc)) => rc == pc,
            _ => true,
        }),
    decreases *plan,
{
    let ghost cols = columns.cols@;
    let ghost n = columns.n_rows();
    let ghost rows = included(filter@, n);
    proof {
        lemma_included_in_range(filter@, n);
    }
    match plan {
        QueryPlan::ReadPlain(c) => {
            let pos = filter.positions(columns.row_count());
            match &columns.cols[*c].data {
                ColumnData::PlainInt(v) => {
                    proof {
                        assert(cols[*c as int].n_rows() == n);
                    }
                    let out = gather_i64(v, &pos);
                    let r = TypedVec::Integer(out);
                    proof {
                        assert forall|k: int| 0 <= k < r.phys().len() implies #[trigger] r.phys()[k]
                            == plan_phys_at(*plan, cols, rows[k]) by {
                            assert(cols[*c as int].lgcl()[rows[k]] == LogVal::Int(
                                v@[rows[k]] as int,
                            ));
                        }
                    }
                    r
                },
                ColumnData::PlainStr(v) => {
                    proof {
                        assert(cols[*c as int].n_rows() == n);
                    }
                    let out = gather_str(v, &pos);
                    let r = TypedVec::Str(out);
                    proof {
                        assert forall|k: int| 0 <= k < r.phys().len() implies #[trigger] r.phys()[k]
                            == plan_phys_at(*plan, cols, rows[k]) by {
                            assert(cols[*c as int].lgcl()[rows[k]] == LogVal::Str(
                                v@[rows[k]]@,
                            ));
                        }
                    }
                    r
                },
                ColumnData::Encoded(_, _) => {
                    proof {
                        assert(false);
                    }
                    TypedVec::Integer(Vec::new())
                },
            }
        },
        QueryPlan::ReadEncoded(c) => {
            let pos = filter.positions(columns.row_count());
            match &columns.cols[*c].data {
                ColumnData::Encoded(e, codec) => {
                    proof {
                        assert(cols[*c as int].n_rows() == n);
                    }
                    let out = gather_encoded(e, &pos);
                    let r = TypedVec::Encoded(out, *codec);
                    proof {
                        assert forall|k: int| 0 <= k < r.phys().len() implies #[trigger] r.phys()[k]
                            == plan_phys_at(*plan, cols, rows[k]) by {}
                        assert forall|k: int| 0 <= k < r.lgcl().len() implies #[trigger] r.lgcl()[k]
                            == plan_lgcl_at(*plan, cols, rows[k]) by {}
                    }
                    r
                },
                _ => {
                    proof {
                        assert(false);
                    }
                    TypedVec::Integer(Vec::new())
                },
            }
        },
        QueryPlan::ConstInt(v) => {
            let pos = filter.positions(columns.row_count());
            let mut out: Vec<i64> = Vec::new();
            let mut i: usize = 0;
            let len = pos.len();
            while i < len
                invariant
                    i <= len,
                    out@.len() == i,
                    forall|k: int| 0 <= k < i ==> #[trigger] out@[k] == v,
                decreases len - i,
            {
                out.push(*v);
                i = i + 1;
            }
            TypedVec::Integer(out)
        },
        QueryPlan::CmpScalar(op, inner, s) => {
            let tv = execute(inner, columns, filter);
            proof {
                lemma_codec_kind(**inner, cols);
            }
            let ints = tv.into_ints();
            let out = cmp_scalar_vec(&ints, *op, *s);
            TypedVec::Boolean(out)
        },
        QueryPlan::CmpVecs(op, a, b) => {
            let ta = execute(a, columns, filter);
            let tb = execute(b, columns, filter);
            let ia = ta.into_ints();
            let ib = tb.into_ints();
            let out = cmp_vec_vec(&ia, &ib, *op);
            TypedVec::Boolean(out)
        },
        QueryPlan::BoolOp(op, a, b) => {
            let ta = execute(a, columns, filter);
            let tb = execute(b, columns, filter);
            let ba = ta.into_bools();
            let bb = tb.into_bools();
            let out = bool_op_vec(&ba, &bb, *op);
            TypedVec::Boolean(out)
        },
        QueryPlan::DecodePlan(inner) => {
            let tv = execute(inner, columns, filter);
            let r = tv.decode();
            proof {
                lemma_codec_kind(**inner, cols);
            }
            r
        },
    }
}

fn gather_i64(v: &Vec<i64>, pos: &Vec<usize>) -> (r: Vec<i64>)
    requires
        forall|k: int| 0 <= k < pos@.len() ==> #[trigger] pos@[k] < v@.len(),
    ensures
        r@.len() == pos@.len(),
        forall|k: int| 0 <= k < r@.len() ==> #[trigger] r@[k] == v@[pos@[k] as int],
{
    let mut out: Vec<i64> = Vec::new();
    let mut i: usize = 0;
    let len = pos.len();
    while i < len
        invariant
            i <= len,
            len == pos@.len(),
            out@.len() == i,
            forall|k: int| 0 <= k < pos@.len() ==> #[trigger] pos@[k] < v@.len(),
            forall|k: int| 0 <= k < i ==> #[trigger] out@[k] == v@[pos@[k] as int],
        decreases len - i,
    {
        out.push(v[pos[i]]);
        i = i + 1;
    }
    out
}

fn gather_str(v: &Vec<String>, pos: &Vec<usize>) -> (r: Vec<String>)
    requires
        forall|k: int| 0 <= k < pos@.len() ==> #[trigger] pos@[k] < v@.len(),
    ensures
        r@.len() == pos@.len(),
        forall|k: int| 0 <= k < r@.len() ==> #[trigger] r@[k]@ == v@[pos@[k] as int]@,
{
    let mut out: Vec<String> = Vec::new();
    let mut i: usize = 0;
    let len = pos.len();
    while i < len
        invariant
            i <= len,
            len == pos@.len(),
            out@.len() == i,
            forall|k: int| 0 <= k < pos@.len() ==> #[trigger] pos@[k] < v@.len(),
            forall|k: int| 0 <= k < i ==> #[trigger] out@[k]@ == v@[pos@[k] as int]@,
        decreases len - i,
    {
        out.push(v[pos[i]].clone());
        i = i + 1;
    }
    out
}

fn gather_encoded(e: &EncodedVals, pos: &Vec<usize>) -> (r: EncodedVals)
    requires
        forall|k: int| 0 <= k < pos@.len() ==> #[trigger] pos@[k] < e.raws().len(),
    ensures
        r.spec_width() == e.spec_width(),
        r.raws().len() == pos@.len(),
        forall|k: int| 0 <= k < r.raws().len() ==> #[trigger] r.raws()[k] == e.raws()[pos@[k] as int],
{
    let len = pos.len();
    match e {
        EncodedVals::B8(v) => {
            let mut out: Vec<u8> = Vec::new();
            let mut i: usize = 0;
            while i < len
                invariant
                    i <= len,
                    len == pos@.len(),
                    out@.len() == i,
                    forall|k: int| 0 <= k < pos@.len() ==> #[trigger] pos@[k] < v@.len(),
                    forall|k: int| 0 <= k < i ==> #[trigger] out@[k] == v@[pos@[k] as int],
                decreases len - i,
            {
                out.push(v[pos[i]]);
                i = i + 1;
            }
            let r = EncodedVals::B8(out);
            proof {
                assert forall|k: int| 0 <= k < r.raws().len() implies #[trigger] r.raws()[k]
                    == e.raws()[pos@[k] as int] by {}
            }
            r
        },
        EncodedVals::B16(v) => {
            let mut out: Vec<u16> = Vec::new();
            let mut i: usize = 0;
            while i < len
                invariant
                    i <= len,
                    len == pos@.len(),
                    out@.len() == i,
                    forall|k: int| 0 <= k < pos@.len() ==> #[trigger] pos@[k] < v@.len(),
                    forall|k: int| 0 <= k < i ==> #[trigger] out@[k] == v@[pos@[k] as int],
                decreases len - i,
            {
                out.push(v[pos[i]]);
                i = i + 1;
            }
            let r = EncodedVals::B16(out);
            proof {
                assert forall|k: int| 0 <= k < r.raws().len() implies #[trigger] r.raws()[k]
                    == e.raws()[pos@[k] as int] by {}
            }
            r
        },
        EncodedVals::B32(v) => {
            let mut out: Vec<u32> = Vec::new();
            let mut i: usize = 0;
            while i < len
                invariant
                    i <= len,
                    len == pos@.len(),
                    out@.len() == i,
                    forall|k: int| 0 <= k < pos@.len() ==> #[trigger] pos@[k] < v@.len(),
                    forall|k: int| 0 <= k < i ==> #[trigger] out@[k] == v@[pos@[k] as int],
                decreases len - i,
            {
                out.push(v[pos[i]]);
                i = i + 1;
            }
            let r = EncodedVals::B32(out);
            proof {
                assert forall|k: int| 0 <= k < r.raws().len() implies #[trigger] r.raws()[k]
                    == e.raws()[pos@[k] as int] by {}
            }
            r
        },
    }
}

fn cmp_scalar_vec(ints: &Vec<i64>, op: FuncType, s: i64) -> (r: Vec<bool>)
    requires
        is_cmp_op(op),
    ensures
        r@.len() == ints@.len(),
        forall|k: int|
            0 <= k < r@.len() ==> LogVal::Bool(#[trigger] r@[k]) == apply_op(
                op,
                LogVal::Int(ints@[k] as int),
                LogVal::Int(s as int),
            ),
{
    let mut out: Vec<bool> = Vec::new();
    let mut i: usize = 0;
    let len = ints.len();
    while i < len
        invariant
            i <= len,
            len == ints@.len(),
            out@.len() == i,
            is_cmp_op(op),
            forall|k: int|
                0 <= k < i ==> LogVal::Bool(#[trigger] out@[k]) == apply_op(
                    op,
                    LogVal::Int(ints@[k] as int),
                    LogVal::Int(s as int),
                ),
        decreases len - i,
    {
        let x = ints[i];
        let b = match op {
            FuncType::Gt => x > s,
            FuncType::Lt => x < s,
            _ => x == s,
        };
        out.push(b);
        i = i + 1;
    }
    out
}

fn cmp_vec_vec(a: &Vec<i64>, b: &Vec<i64>, op: FuncType) -> (r: Vec<bool>)
    requires
        is_cmp_op(op),
        a@.len() == b@.len(),
    ensures
        r@.len() == a@.len(),
        forall|k: int|
            0 <= k < r@.len() ==> LogVal::Bool(#[trigger] r@[k]) == apply_op(
                op,
                LogVal::Int(a@[k] as int),
                LogVal::Int(b@[k] as int),
            ),
{
    let mut out: Vec<bool> = Vec::new();
    let mut i: usize = 0;
    let len = a.len();
    while i < len
        invariant
            i <= len,
            len == a@.len(),
            a@.len() == b@.len(),
            out@.len() == i,
            is_cmp_op(op),
            forall|k: int|
                0 <= k < i ==> LogVal::Bool(#[trigger] out@[k]) == apply_op(
                    op,
                    LogVal::Int(a@[k] as int),
                    LogVal::Int(b@[k] as int),
                ),
        decreases len - i,
    {
        let x = a[i];
        let y = b[i];
        let c = match op {
            FuncType::Gt => x > y,
            FuncType::Lt => x < y,
            _ => x == y,
        };
        out.push(c);
        i = i + 1;
    }
    out
}

fn bool_op_vec(a: &Vec<bool>, b: &Vec<bool>, op: FuncType) -> (r: Vec<bool>)
    requires
        is_bool_op(op),
        a@.len() == b@.len(),
    ensures
        r@.len() == a@.len(),
        forall|k: int|
            0 <= k < r@.len() ==> LogVal::Bool(#[trigger] r@[k]) == apply_op(
                op,
                LogVal::Bool(a@[k]),
                LogVal::Bool(b@[k]),
            ),
{
    let mut out: Vec<bool> = Vec::new();
    let mut i: usize = 0;
    let len = a.len();
    while i < len
        invariant
            i <= len,
            len == a@.len(),
            a@.len() == b@.len(),
            out@.len() == i,
            is_bool_op(op),
            forall|k: int|
                0 <= k < i ==> LogVal::Bool(#[trigger] out@[k]) == apply_op(
                    op,
                    LogVal::Bool(a@[k]),
                    LogVal::Bool(b@[k]),
                ),
        decreases len - i,
    {
        let x = a[i];
        let y = b[i];
        let c = match op {
            FuncType::And => x && y,
            _ => x || y,
        };
        out.push(c);
        i = i + 1;
    }
    out
}

} // verus!
