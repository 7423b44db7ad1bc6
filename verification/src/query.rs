//! The request model and the two execution entry points: a flat projection
//! (with optional order-by and limit) and a grouped aggregation. Both thread
//! one row filter, derived once from the filter expression, unchanged
//! through every per-expression compilation.

use vstd::prelude::*;
use std::rc::Rc;
use crate::codec::BasicType;
use crate::column::ColumnSet;
use crate::expr::{
    Expr, QueryError, as_bool, eval_expr, expr_cols, holds_name, kind_of, names_distinct,
};
use crate::filter::{Filter, FilterRep, included, filter_wf, mask_positions};
use crate::grouping::{
    Aggregator, agg_over, aggregate, group_tuples, grouping_tuples, rows_view, sort_groups,
};
use crate::plan::{QueryPlan, execute};
use crate::typed_vec::TypedVec;
use crate::vals::{LogVal, Val, idx_lt, log_lt, logs_lt, tuple_idx_lt, tuple_view};

verus! {

/// The limit clause of a query: keep at most `limit` rows after skipping
/// `offset`.
#[derive(Clone, Copy, PartialEq, Eq, Structural, Debug)]
pub struct LimitClause {
    pub limit: u64,
    pub offset: u64,
}

/// The per-batch output handed to the external merging collaborator.
pub struct BatchResult {
    pub group_by: Option<Vec<TypedVec>>,
    pub sort_by: Option<usize>,
    pub select: Vec<TypedVec>,
    pub aggregators: Vec<Aggregator>,
    pub level: u32,
    pub batch_count: u32,
}

/// Relies on std::time::SystemTime::now for a wall-clock reading in
/// nanoseconds since the epoch; nothing is promised of the value.
#[verifier::external_body]
fn now_nanos() -> u64 {
    match std::time::SystemTime::now().duration_since(std::time::UNIX_EPOCH) {
        Ok(d) => {
            let n = d.as_nanos();
            if n > u64::MAX as u128 {
                u64::MAX
            } else {
                n as u64
            }
        },
        Err(_) => 0,
    }
}

/// Accumulates compile/execute timings per named stage for one query
/// invocation. `start` opens a timing interval; `record` closes it and
/// attributes the elapsed time to a stage name. The readings come from the
/// wall clock, so nothing is stated about the recorded durations.
pub struct QueryStats {
    pub start_time: u64,
    pub stages: Vec<(String, u64)>,
}

impl QueryStats {
    pub fn new() -> (r: QueryStats)
        ensures
            r.stages@.len() == 0,
    {
        QueryStats { start_time: 0, stages: Vec::new() }
    }

    /// Opens a timing interval.
    pub fn start(&mut self)
        ensures
            final(self).stages@ == old(self).stages@,
    {
        self.start_time = now_nanos();
    }

    /// Closes the open interval and attributes the elapsed time to `name`.
    pub fn record(&mut self, name: &str)
        ensures
            final(self).stages@.len() == old(self).stages@.len() + 1,
            final(self).stages@[old(self).stages@.len() as int].0@ == name@,
            forall|k: int|
                0 <= k < old(self).stages@.len() ==> final(self).stages@[k] == old(
                    self,
                ).stages@[k],
    {
        let now = now_nanos();
        let elapsed = if now >= self.start_time {
            now - self.start_time
        } else {
            0
        };
        self.stages.push((name.to_owned(), elapsed));
    }
}

/// The decimal digit character for `d`.
pub open spec fn digit_char(d: int) -> char {
    ((48 + d) as u8) as char
}

/// The decimal representation of `n`, most significant digit first.
pub open spec fn dec_str(n: nat) -> Seq<char>
    decreases n,
{
    if n < 10 {
        seq![digit_char(n as int)]
    } else {
        dec_str(n / 10).push(digit_char((n % 10) as int))
    }
}

fn digit_str(d: u64) -> (r: &'static str)
    requires
        d < 10,
    ensures
        r@ == seq![digit_char(d as int)],
{
    proof {
        reveal_strlit("0");
        reveal_strlit("1");
        reveal_strlit("2");
        reveal_strlit("3");
        reveal_strlit("4");
        reveal_strlit("5");
        reveal_strlit("6");
        reveal_strlit("7");
        reveal_strlit("8");
        reveal_strlit("9");
    }
    let r = match d {
        0 => "0",
        1 => "1",
        2 => "2",
        3 => "3",
        4 => "4",
        5 => "5",
        6 => "6",
        7 => "7",
        8 => "8",
        _ => "9",
    };
    proof {
        assert(r@ =~= seq![digit_char(d as int)]);
    }
    r
}

/// Renders `n` in decimal.
fn u64_to_dec(n: u64) -> (r: String)
    ensures
        r@ == dec_str(n as nat),
    decreases n,
{
    if n < 10 {
        digit_str(n).to_owned()
    } else {
        let mut s = u64_to_dec(n / 10);
        s.append(digit_str(n % 10));
        proof {
            assert(s@ =~= dec_str(n as nat));
        }
        s
    }
}

/// How many select expressions before position `upto` are anonymous (not
/// plain column references).
pub open spec fn anon_count(select: Seq<Expr>, upto: int) -> int
    decreases upto,
{
    if upto <= 0 {
        0
    } else {
        anon_count(select, upto - 1) + (if select[upto - 1] is ColName {
            0int
        } else {
            1int
        })
    }
}

pub proof fn lemma_anon_count_bound(select: Seq<Expr>, upto: int)
    requires
        0 <= upto,
    ensures
        0 <= anon_count(select, upto) <= upto,
    decreases upto,
{
    if upto > 0 {
        lemma_anon_count_bound(select, upto - 1);
    }
}

/// The result name of select position `i`: a plain column reference keeps
/// its name; any other expression is anonymous and is numbered in order.
pub open spec fn select_name(select: Seq<Expr>, i: int) -> Seq<char> {
    match select[i] {
        Expr::ColName(s) => s@,
        _ => "col_"@ + dec_str(anon_count(select, i) as nat),
    }
}

/// The result name of aggregate position `j`.
pub open spec fn aggregate_name(agg: Aggregator, j: int) -> Seq<char> {
    (match agg {
        Aggregator::Count => "count_"@,
        Aggregator::Sum => "sum_"@,
    }) + dec_str(j as nat)
}

/// Every column name mentioned across the first `upto` expressions.
pub open spec fn exprs_cols(es: Seq<Expr>, upto: int) -> Set<Seq<char>>
    decreases upto,
{
    if upto <= 0 {
        Set::empty()
    } else {
        exprs_cols(es, upto - 1).union(expr_cols(es[upto - 1]))
    }
}

/// Every column name mentioned across the first `upto` aggregate pairs.
pub open spec fn aggs_cols(aggs: Seq<(Aggregator, Expr)>, upto: int) -> Set<Seq<char>>
    decreases upto,
{
    if upto <= 0 {
        Set::empty()
    } else {
        aggs_cols(aggs, upto - 1).union(expr_cols(aggs[upto - 1].1))
    }
}

/// The request model: select list, table, filter expression, aggregates,
/// order-by and limit. Immutable once built.
pub struct Query {
    pub select: Vec<Expr>,
    pub table: String,
    pub filter: Expr,
    pub aggregate: Vec<(Aggregator, Expr)>,
    pub order_by: Option<String>,
    pub order_desc: bool,
    pub limit: LimitClause,
    pub order_by_index: Option<usize>,
}

/// The per-row boolean value of the query's filter expression.
pub open spec fn query_mask(q: Query, columns: ColumnSet) -> Seq<bool> {
    Seq::new(
        columns.n_rows() as nat,
        |r: int| as_bool(eval_expr(q.filter, columns.cols@, r)),
    )
}

/// The rows a query's filter includes, in ascending order. When the filter
/// expression does not evaluate to a boolean buffer the restriction
/// silently degrades to "all rows", reproducing the engine's historical
/// behaviour rather than reporting a type error.
pub open spec fn query_rows(q: Query, columns: ColumnSet) -> Seq<int> {
    if kind_of(q.filter, columns.cols@) == Ok::<BasicType, QueryError>(BasicType::Boolean) {
        mask_positions(query_mask(q, columns))
    } else {
        Seq::new(columns.n_rows() as nat, |k: int| k)
    }
}

/// The composite grouping key of each included row: the tuple of every
/// select expression's value at that row, in select order.
pub open spec fn group_keys(q: Query, columns: ColumnSet) -> Seq<Seq<LogVal>> {
    Seq::new(
        query_rows(q, columns).len(),
        |k: int|
            Seq::new(
                q.select@.len(),
                |s: int| eval_expr(q.select@[s], columns.cols@, query_rows(q, columns)[k]),
            ),
    )
}

/// The key tuple at one position of the group-by output columns.
pub open spec fn out_tuple(g: Seq<TypedVec>, gi: int) -> Seq<LogVal> {
    Seq::new(g.len(), |s: int| g[s].phys()[gi])
}

/// The sorted distinct key tuples of the group-by output columns.
pub open spec fn out_tuples(g: Seq<TypedVec>, gcnt: int) -> Seq<Seq<LogVal>> {
    Seq::new(gcnt as nat, |gi: int| out_tuple(g, gi))
}

/// The number of groups a grouped result holds: the length of the group-by
/// output columns; with an empty grouping key every row falls into one
/// group, so the count is one exactly when any row was included.
pub open spec fn out_group_count(g: Seq<TypedVec>, keys: Seq<Seq<LogVal>>) -> int {
    if g.len() > 0 {
        g[0].phys().len() as int
    } else if keys.len() == 0 {
        0
    } else {
        1
    }
}

/// The aggregate input of each included row for aggregate pair `j`.
pub open spec fn agg_input(q: Query, columns: ColumnSet, j: int) -> Seq<LogVal> {
    Seq::new(
        query_rows(q, columns).len(),
        |k: int| eval_expr(q.aggregate@[j].1, columns.cols@, query_rows(q, columns)[k]),
    )
}

/// The per-row sort key of the order-by column.
pub open spec fn order_keys(q: Query, columns: ColumnSet, oi: int) -> Seq<LogVal> {
    Seq::new(columns.n_rows() as nat, |r: int| eval_expr(q.select@[oi], columns.cols@, r))
}

/// A full candidate ordering for the order-by path: the included rows,
/// stably sorted by the order-by key in the requested direction.
pub open spec fn sorted_candidates(ord: Seq<usize>, q: Query, columns: ColumnSet, oi: int) -> bool {
    &&& ord.len() == query_rows(q, columns).len()
    &&& (forall|x: usize| #[trigger] ord.contains(x) <==> query_rows(q, columns).contains(x as int))
    &&& (forall|p: int, r: int|
        0 <= p < r < ord.len() ==> idx_lt(
            order_keys(q, columns, oi),
            (#[trigger] ord[p]) as int,
            (#[trigger] ord[r]) as int,
            q.order_desc,
        ))
}

/// The number of rows the limit clause keeps out of `avail`.
pub open spec fn limit_count(l: LimitClause, avail: int) -> int {
    if (l.limit as int + l.offset as int) < avail {
        l.limit as int + l.offset as int
    } else {
        avail
    }
}

impl Query {
    /// True exactly when the select list is one bare reference to `"*"`.
    pub fn is_select_star(&self) -> (r: bool)
        ensures
            r == (self.select@.len() == 1 && (match self.select@[0] {
                Expr::ColName(n) => n@ == "*"@,
                _ => false,
            })),
    {
        if self.select.len() == 1 {
            match &self.select[0] {
                Expr::ColName(n) => {
                    let star = String::from_str("*");
                    n.eq(&star)
                },
                _ => false,
            }
        } else {
            false
        }
    }

    /// One name per select expression followed by one per aggregate. A
    /// select expression that is a plain column reference keeps its name;
    /// anonymous select expressions are numbered `col_<k>` by a counter of
    /// their own, and aggregates `count_<k>` / `sum_<k>` by pair position.
    pub fn result_column_names(&self) -> (r: Vec<String>)
        ensures
            r@.len() == self.select@.len() + self.aggregate@.len(),
            forall|i: int|
                0 <= i < self.select@.len() ==> (#[trigger] r@[i])@ == select_name(
                    self.select@,
                    i,
                ),
            forall|j: int|
                0 <= j < self.aggregate@.len() ==> (#[trigger] r@[self.select@.len() + j])@
                    == aggregate_name(self.aggregate@[j].0, j),
    {
        let mut out: Vec<String> = Vec::new();
        let mut anon: u64 = 0;
        let mut i: usize = 0;
        let ns = self.select.len();
        while i < ns
            invariant
                i <= ns,
                ns == self.select@.len(),
                out@.len() == i,
                anon as int == anon_count(self.select@, i as int),
                forall|k: int|
                    0 <= k < i ==> (#[trigger] out@[k])@ == select_name(self.select@, k),
            decreases ns - i,
        {
            match &self.select[i] {
                Expr::ColName(n) => {
                    out.push(n.clone());
                },
                _ => {
                    let mut name = String::from_str("col_");
                    let digits = u64_to_dec(anon);
                    name.append(digits.as_str());
                    out.push(name);
                    proof {
                        lemma_anon_count_bound(self.select@, i as int);
                    }
                    anon = anon + 1;
                },
            }
            i = i + 1;
        }
        let mut j: usize = 0;
        let na = self.aggregate.len();
        while j < na
            invariant
                j <= na,
                na == self.aggregate@.len(),
                ns == self.select@.len(),
                out@.len() == ns + j,
                forall|k: int|
                    0 <= k < ns ==> (#[trigger] out@[k])@ == select_name(self.select@, k),
                forall|k: int|
                    0 <= k < j ==> (#[trigger] out@[ns + k])@ == aggregate_name(
                        self.aggregate@[k].0,
                        k,
                    ),
            decreases na - j,
        {
            let mut name = match self.aggregate[j].0 {
                Aggregator::Count => String::from_str("count_"),
                Aggregator::Sum => String::from_str("sum_"),
            };
            let digits = u64_to_dec(j as u64);
            name.append(digits.as_str());
            out.push(name);
            j = j + 1;
        }
        out
    }

    /// The set of every distinct column name mentioned anywhere across the
    /// select list, the filter expression, and every aggregate expression.
    pub fn find_referenced_cols(&self) -> (r: Vec<String>)
        ensures
            names_distinct(r@),
            forall|n: Seq<char>| #[trigger]
                holds_name(r@, n) <==> exprs_cols(self.select@, self.select@.len() as int)
                    .union(expr_cols(self.filter))
                    .union(aggs_cols(self.aggregate@, self.aggregate@.len() as int))
                    .contains(n),
    {
        let mut out: Vec<String> = Vec::new();
        let mut i: usize = 0;
        let ns = self.select.len();
        while i < ns
            invariant
                i <= ns,
                ns == self.select@.len(),
                names_distinct(out@),
                forall|n: Seq<char>| #[trigger]
                    holds_name(out@, n) <==> exprs_cols(self.select@, i as int).contains(n),
            decreases ns - i,
        {
            self.select[i].add_colnames(&mut out);
            i = i + 1;
        }
        self.filter.add_colnames(&mut out);
        let mut j: usize = 0;
        let na = self.aggregate.len();
        while j < na
            invariant
                j <= na,
                na == self.aggregate@.len(),
                ns == self.select@.len(),
                names_distinct(out@),
                forall|n: Seq<char>| #[trigger]
                    holds_name(out@, n) <==> exprs_cols(self.select@, ns as int)
                        .union(expr_cols(self.filter))
                        .union(aggs_cols(self.aggregate@, j as int))
                        .contains(n),
            decreases na - j,
        {
            self.aggregate[j].1.add_colnames(&mut out);
            j = j + 1;
        }
        out
    }

    /// Derives the row filter for one run: a boolean execution result
    /// becomes a mask, anything else leaves the rows unrestricted.
    fn derive_filter(&self, columns: &ColumnSet) -> (r: Result<Filter, QueryError>)
        requires
            columns.wf(),
        ensures
            r is Err <==> kind_of(self.filter, columns.cols@) is Err,
            (match r {
                Err(x) => kind_of(self.filter, columns.cols@) == Err::<BasicType, QueryError>(x),
                Ok(f) => {
                    &&& filter_wf(f@, columns.n_rows())
                    &&& included(f@, columns.n_rows()) == query_rows(*self, *columns)
                    &&& !(f@ is Positions)
                },
            }),
    {
        let ghost cols = columns.cols@;
        let ghost n = columns.n_rows();
        let filter_plan = match QueryPlan::create_query_plan(&self.filter, columns) {
            Ok(p) => p,
            Err(x) => {
                return Err(x);
            },
        };
        let tv = execute(&filter_plan.0, columns, &Filter::All);
        match tv {
            TypedVec::Boolean(b) => {
                proof {
                    assert forall|k: int| 0 <= k < b@.len() implies b@[k] == query_mask(
                        *self,
                        *columns,
                    )[k] by {
                        assert(included(FilterRep::All, n)[k] == k);
                        assert(TypedVec::Boolean(b).phys()[k] == LogVal::Bool(b@[k]));
                    }
                    assert(b@ =~= query_mask(*self, *columns));
                }
                let f = Filter::BitVec(Rc::new(b));
                Ok(f)
            },
            other => {
                proof {
                    assert(kind_of(self.filter, cols) != Ok::<BasicType, QueryError>(
                        BasicType::Boolean,
                    ));
                    assert(included(FilterRep::All, n) =~= query_rows(*self, *columns));
                }
                Ok(Filter::All)
            },
        }
    }

    /// The flat projection path: derive the filter, apply order-by and
    /// limit if requested, then compile, execute and decode every select
    /// expression under the same row restriction.
    pub fn run(&self, columns: &ColumnSet, stats: &mut QueryStats) -> (r: Result<
        BatchResult,
        QueryError,
    >)
        requires
            columns.wf(),
            match self.order_by_index {
                Some(oi) => oi < self.select@.len() && kind_of(self.select@[oi as int], columns.cols@)
                    != Ok::<BasicType, QueryError>(BasicType::Boolean),
                None => true,
            },
        ensures
            r is Err <==> (kind_of(self.filter, columns.cols@) is Err || exists|s: int|
                0 <= s < self.select@.len() && (#[trigger] kind_of(
                    self.select@[s],
                    columns.cols@,
                )) is Err),
            (match r {
                Err(_) => true,
                Ok(b) => {
                    &&& b.sort_by == self.order_by_index
                    &&& b.group_by is None
                    &&& b.aggregators@.len() == 0
                    &&& b.level == 0
                    &&& b.batch_count == 1
                    &&& b.select@.len() == self.select@.len()
                    &&& (self.order_by_index is None ==> forall|s: int, k: int|
                        0 <= s < self.select@.len() && 0 <= k < query_rows(
                            *self,
                            *columns,
                        ).len() ==> (#[trigger] b.select@[s].phys()[k]) == eval_expr(
                            self.select@[s],
                            columns.cols@,
                            query_rows(*self, *columns)[k],
                        ))
                    &&& (self.order_by_index is None ==> forall|s: int|
                        0 <= s < self.select@.len() ==> (#[trigger] b.select@[s].phys()).len()
                            == query_rows(*self, *columns).len())
                    &&& (match self.order_by_index {
                        Some(oi) => exists|ord: Seq<usize>|
                            {
                                &&& #[trigger] sorted_candidates(ord, *self, *columns, oi as int)
                                &&& forall|s: int|
                                    0 <= s < self.select@.len()
                                        ==> (#[trigger] b.select@[s].phys()).len() == limit_count(
                                        self.limit,
                                        ord.len() as int,
                                    )
                                &&& forall|s: int, k: int|
                                    0 <= s < self.select@.len() && 0 <= k < limit_count(
                                        self.limit,
                                        ord.len() as int,
                                    ) ==> (#[trigger] b.select@[s].phys()[k]) == eval_expr(
                                        self.select@[s],
                                        columns.cols@,
                                        ord[k] as int,
                                    )
                            },
                        None => true,
                    })
                },
            }),
    {
        let ghost cols = columns.cols@;
        let ghost n = columns.n_rows();
        stats.start();
        let mut filter = match self.derive_filter(columns) {
            Ok(f) => f,
            Err(x) => {
                return Err(x);
            },
        };
        stats.record("compile_filter");
        let ghost full_rows = query_rows(*self, *columns);
        let ghost mut ordwit: Seq<usize> = Seq::empty();
        if let Some(oi) = self.order_by_index {
            stats.start();
            let plan = match QueryPlan::create_query_plan(&self.select[oi], columns) {
                Ok(p) => p,
                Err(x) => {
                    return Err(x);
                },
            };
            // The sort key must be addressable by absolute row position, so
            // the order-by column is read in full; candidate positions are
            // the rows the filter includes.
            let sort_column = execute(&plan.0, columns, &Filter::All).order_preserving();
            let mut sort_indices = filter.positions(columns.row_count());
            proof {
                crate::filter::lemma_included_in_range(filter@, n);
                match filter@ {
                    FilterRep::Mask(m) => crate::filter::lemma_mask_positions_increasing(m),
                    _ => (),
                }
                assert forall|p: int, q2: int|
                    0 <= p < q2 < sort_indices@.len() implies sort_indices@[p]
                    != sort_indices@[q2] by {
                    assert(sort_indices@[p] as int == included(filter@, n)[p]);
                    assert(sort_indices@[q2] as int == included(filter@, n)[q2]);
                }
            }
            let ghost cand = sort_indices@;
            if self.order_desc {
                sort_column.sort_indices_desc(&mut sort_indices);
            } else {
                sort_column.sort_indices_asc(&mut sort_indices);
            }
            proof {
                ordwit = sort_indices@;
                assert forall|p: int, q2: int|
                    0 <= p < q2 < ordwit.len() implies idx_lt(
                    order_keys(*self, *columns, oi as int),
                    (#[trigger] ordwit[p]) as int,
                    (#[trigger] ordwit[q2]) as int,
                    self.order_desc,
                ) by {
                    let a = ordwit[p] as int;
                    let b = ordwit[q2] as int;
                    assert(ordwit.contains(ordwit[p]));
                    assert(ordwit.contains(ordwit[q2]));
                    assert(cand.contains(ordwit[p]));
                    assert(cand.contains(ordwit[q2]));
                    let pa = choose|w: int| 0 <= w < cand.len() && cand[w] == ordwit[p];
                    assert(cand[pa] as int == included(filter@, n)[pa]);
                    let pb = choose|w: int| 0 <= w < cand.len() && cand[w] == ordwit[q2];
                    assert(cand[pb] as int == included(filter@, n)[pb]);
                    assert(0 <= a < n && 0 <= b < n);
                    assert(idx_lt(sort_column.phys(), a, b, self.order_desc));
                    assert(sort_column.phys()[a] == sort_column.phys()[b] <==> order_keys(
                        *self,
                        *columns,
                        oi as int,
                    )[a] == order_keys(*self, *columns, oi as int)[b]);
                    assert(log_lt(sort_column.phys()[a], sort_column.phys()[b]) <==> log_lt(
                        order_keys(*self, *columns, oi as int)[a],
                        order_keys(*self, *columns, oi as int)[b],
                    ));
                    assert(log_lt(sort_column.phys()[b], sort_column.phys()[a]) <==> log_lt(
                        order_keys(*self, *columns, oi as int)[b],
                        order_keys(*self, *columns, oi as int)[a],
                    ));
                }
                assert(sorted_candidates(ordwit, *self, *columns, oi as int)) by {
                    assert forall|x: usize| #[trigger]
                        ordwit.contains(x) <==> query_rows(*self, *columns).contains(
                        x as int,
                    ) by {
                        if ordwit.contains(x) {
                            assert(cand.contains(x));
                            let w = choose|w: int| 0 <= w < cand.len() && cand[w] == x;
                            assert(included(filter@, n)[w] == x as int);
                            assert(query_rows(*self, *columns).contains(x as int));
                        }
                        if query_rows(*self, *columns).contains(x as int) {
                            let w = choose|w: int|
                                0 <= w < full_rows.len() && #[trigger] full_rows[w] == x as int;
                            assert(cand[w] as int == included(filter@, n)[w]);
                            assert(cand[w] == x);
                            assert(cand.contains(x));
                            assert(ordwit.contains(x));
                        }
                    }
                }
            }
            let cap_wide: u128 = self.limit.limit as u128 + self.limit.offset as u128;
            let cap: usize = if cap_wide > usize::MAX as u128 {
                usize::MAX
            } else {
                cap_wide as usize
            };
            let mut kept: Vec<usize> = Vec::new();
            let mut t: usize = 0;
            let klen = if cap < sort_indices.len() {
                cap
            } else {
                sort_indices.len()
            };
            while t < klen
                invariant
                    t <= klen,
                    klen <= sort_indices@.len(),
                    kept@.len() == t,
                    forall|k: int| 0 <= k < t ==> #[trigger] kept@[k] == sort_indices@[k],
                decreases klen - t,
            {
                kept.push(sort_indices[t]);
                t = t + 1;
            }
            proof {
                assert(klen as int == limit_count(self.limit, ordwit.len() as int));
                assert forall|k: int| 0 <= k < kept@.len() implies #[trigger] kept@[k] < n by {
                    assert(ordwit.contains(ordwit[k]));
                }
            }
            filter = Filter::Indices(Rc::new(kept));
        }
        let ghost active = filter@;
        let mut result: Vec<TypedVec> = Vec::new();
        let mut s: usize = 0;
        let ns = self.select.len();
        while s < ns
            invariant
                s <= ns,
                ns == self.select@.len(),
                columns.wf(),
                cols == columns.cols@,
                n == columns.n_rows(),
                filter@ == active,
                filter_wf(active, n),
                result@.len() == s,
                forall|j: int|
                    0 <= j < s ==> kind_of(self.select@[j], cols) is Ok,
                forall|j: int|
                    0 <= j < s ==> (#[trigger] result@[j].phys()).len() == included(
                        active,
                        n,
                    ).len(),
                forall|j: int, k: int|
                    0 <= j < s && 0 <= k < included(active, n).len()
                        ==> (#[trigger] result@[j].phys()[k]) == eval_expr(
                        self.select@[j],
                        cols,
                        included(active, n)[k],
                    ),
            decreases ns - s,
        {
            stats.start();
            let plan = match QueryPlan::create_query_plan(&self.select[s], columns) {
                Ok(p) => p,
                Err(x) => {
                    return Err(x);
                },
            };
            stats.record("compile_select");
            let executed = execute(&plan.0, columns, &filter);
            proof {
                crate::filter::lemma_included_in_range(active, n);
            }
            let decoded = executed.decode();
            result.push(decoded);
            s = s + 1;
        }
        Ok(
            BatchResult {
                group_by: None,
                sort_by: self.order_by_index,
                select: result,
                aggregators: Vec::new(),
                level: 0,
                batch_count: 1,
            },
        )
    }

    /// The grouped aggregation path: derive the filter, execute every
    /// select expression under it as one composite grouping key, partition
    /// rows by identical key tuple, sort the distinct tuples ascending, and
    /// reduce every aggregate expression per group. The group-by output
    /// columns and every aggregate output follow the same ascending
    /// key-tuple order.
    pub fn run_aggregate(&self, columns: &ColumnSet, stats: &mut QueryStats) -> (r: Result<
        BatchResult,
        QueryError,
    >)
        requires
            columns.wf(),
        ensures
            r is Err <==> (kind_of(self.filter, columns.cols@) is Err || (exists|s: int|
                0 <= s < self.select@.len() && (#[trigger] kind_of(
                    self.select@[s],
                    columns.cols@,
                )) is Err) || (exists|j: int|
                0 <= j < self.aggregate@.len() && ((#[trigger] kind_of(
                    self.aggregate@[j].1,
                    columns.cols@,
                )) is Err || (self.aggregate@[j].0 == Aggregator::Sum && kind_of(
                    self.aggregate@[j].1,
                    columns.cols@,
                ) != Ok::<BasicType, QueryError>(BasicType::Integer))))),
            (match r {
                Err(_) => true,
                Ok(b) => {
                    &&& b.sort_by is None
                    &&& b.level == 0
                    &&& b.batch_count == 1
                    &&& b.aggregators@.len() == self.aggregate@.len()
                    &&& (forall|j: int|
                        0 <= j < self.aggregate@.len() ==> (#[trigger] b.aggregators@[j])
                            == self.aggregate@[j].0)
                    &&& b.select@.len() == self.aggregate@.len()
                    &&& (match b.group_by {
                        Some(g) => {
                            &&& g@.len() == self.select@.len()
                            &&& ({
                                let keys = group_keys(*self, *columns);
                                let gcnt = out_group_count(g@, keys);
                                {
                                    &&& 0 <= gcnt <= keys.len()
                                    &&& (self.select@.len() == 0 ==> gcnt == (if keys.len() == 0 {
                                        0int
                                    } else {
                                        1int
                                    }))
                                    &&& (forall|s: int|
                                        0 <= s < g@.len() ==> (#[trigger] g@[s].phys()).len()
                                            == gcnt)
                                    &&& (forall|j: int|
                                        0 <= j < self.aggregate@.len()
                                            ==> (#[trigger] b.select@[j].phys()).len() == gcnt)
                                    &&& (forall|p: int, q2: int|
                                        0 <= p < q2 < gcnt ==> logs_lt(
                                            #[trigger] out_tuple(g@, p),
                                            #[trigger] out_tuple(g@, q2),
                                        ))
                                    &&& (forall|gi: int|
                                        0 <= gi < gcnt ==> keys.contains(
                                            #[trigger] out_tuple(g@, gi),
                                        ))
                                    &&& (forall|row: int|
                                        #![trigger keys[row]]
                                        0 <= row < keys.len() ==> out_tuples(g@, gcnt).contains(
                                            keys[row],
                                        ))
                                    &&& (forall|j: int, gi: int|
                                        0 <= j < self.aggregate@.len() && 0 <= gi < gcnt
                                            ==> (#[trigger] b.select@[j].phys()[gi])
                                            == LogVal::Int(
                                            agg_over(
                                                self.aggregate@[j].0,
                                                keys,
                                                agg_input(*self, *columns, j),
                                                out_tuple(g@, gi),
                                                keys.len() as int,
                                            ),
                                        ))
                                }
                            })
                        },
                        None => false,
                    })
                },
            }),
    {
        let ghost cols = columns.cols@;
        let ghost n = columns.n_rows();
        stats.start();
        let filter = match self.derive_filter(columns) {
            Ok(f) => f,
            Err(x) => {
                return Err(x);
            },
        };
        stats.record("compile_filter");
        let ghost rows = query_rows(*self, *columns);
        let ghost keys = group_keys(*self, *columns);
        proof {
            crate::filter::lemma_included_in_range(filter@, n);
            assert forall|k: int| 0 <= k < rows.len() implies 0 <= #[trigger] rows[k] < n by {
                assert(rows[k] == included(filter@, n)[k]);
            }
        }
        stats.start();
        // every select expression contributes one component of the
        // composite grouping key
        let mut keycols: Vec<TypedVec> = Vec::new();
        let mut s: usize = 0;
        let ns = self.select.len();
        while s < ns
            invariant
                s <= ns,
                ns == self.select@.len(),
                columns.wf(),
                cols == columns.cols@,
                n == columns.n_rows(),
                rows == query_rows(*self, *columns),
                keys == group_keys(*self, *columns),
                keys.len() == rows.len(),
                filter_wf(filter@, n),
                included(filter@, n) == rows,
                forall|k: int| 0 <= k < rows.len() ==> 0 <= #[trigger] rows[k] < n,
                keycols@.len() == s,
                forall|t: int| 0 <= t < s ==> kind_of(self.select@[t], cols) is Ok,
                forall|t: int| 0 <= t < s ==> (#[trigger] keycols@[t]).wf(),
                forall|t: int| 0 <= t < s ==> !((#[trigger] keycols@[t]) is Encoded),
                forall|t: int|
                    0 <= t < s ==> (#[trigger] keycols@[t]).phys().len() == rows.len(),
                forall|t: int, k: int|
                    0 <= t < s && 0 <= k < rows.len() ==> (#[trigger] keycols@[t].phys()[k])
                        == keys[k][t],
            decreases ns - s,
        {
            let plan = match QueryPlan::create_query_plan(&self.select[s], columns) {
                Ok(p) => p,
                Err(x) => {
                    return Err(x);
                },
            };
            proof {
                crate::filter::lemma_included_in_range(filter@, n);
            }
            let tv = execute(&plan.0, columns, &filter).decode();
            proof {
                assert forall|k: int| 0 <= k < rows.len() implies #[trigger] tv.phys()[k]
                    == keys[k][s as int] by {
                    assert(rows[k] == included(filter@, n)[k]);
                    assert(tv.phys()[k] == crate::plan::plan_lgcl_at(plan.0, cols, rows[k]));
                }
            }
            keycols.push(tv);
            s = s + 1;
        }
        stats.record("compile_grouping_key");
        let pos = filter.positions(columns.row_count());
        let m = pos.len();
        // one key tuple per included row
        let mut rows_vals: Vec<Vec<Val>> = Vec::new();
        let mut k: usize = 0;
        while k < m
            invariant
                k <= m,
                m == rows.len(),
                ns == self.select@.len(),
                keys.len() == rows.len(),
                keycols@.len() == ns,
                forall|t: int| 0 <= t < ns ==> (#[trigger] keycols@[t]).phys().len() == rows.len(),
                forall|t: int, k2: int|
                    0 <= t < ns && 0 <= k2 < rows.len() ==> (#[trigger] keycols@[t].phys()[k2])
                        == keys[k2][t],
                forall|k2: int| 0 <= k2 < keys.len() ==> (#[trigger] keys[k2]).len() == ns,
                rows_vals@.len() == k,
                forall|k2: int|
                    0 <= k2 < k ==> tuple_view((#[trigger] rows_vals@[k2])@) == keys[k2],
            decreases m - k,
        {
            let mut t: Vec<Val> = Vec::new();
            let mut s2: usize = 0;
            while s2 < ns
                invariant
                    s2 <= ns,
                    k < m,
                    m == rows.len(),
                    keys.len() == rows.len(),
                    keycols@.len() == ns,
                    forall|t2: int|
                        0 <= t2 < ns ==> (#[trigger] keycols@[t2]).phys().len() == rows.len(),
                    forall|t2: int, k2: int|
                        0 <= t2 < ns && 0 <= k2 < rows.len()
                            ==> (#[trigger] keycols@[t2].phys()[k2]) == keys[k2][t2],
                    t@.len() == s2,
                    forall|u: int| 0 <= u < s2 ==> (#[trigger] t@[u])@ == keys[k as int][u],
                decreases ns - s2,
            {
                let v = keycols[s2].val_at(k);
                t.push(v);
                s2 = s2 + 1;
            }
            proof {
                assert(tuple_view(t@) =~= keys[k as int]);
            }
            rows_vals.push(t);
            k = k + 1;
        }
        proof {
            assert(rows_view(rows_vals@) =~= keys);
        }
        let (ids, reps) = grouping_tuples(&rows_vals);
        let gcount = reps.len();
        let ghost gt = group_tuples(rows_vals@, reps@);
        proof {
            assert forall|g: int|
                0 <= g < gcount implies #[trigger] gt[g] == keys[reps@[g] as int] by {}
        }
        let mut perm: Vec<usize> = Vec::new();
        let mut gi: usize = 0;
        while gi < gcount
            invariant
                gi <= gcount,
                perm@.len() == gi,
                forall|k2: int| 0 <= k2 < gi ==> #[trigger] perm@[k2] == k2,
            decreases gcount - gi,
        {
            perm.push(gi);
            gi = gi + 1;
        }
        let ghost iota = perm@;
        sort_groups(&rows_vals, &reps, &mut perm);
        let ghost permv = perm@;
        proof {
            assert forall|k2: int| 0 <= k2 < permv.len() implies #[trigger] permv[k2]
                < gcount by {
                assert(permv.contains(permv[k2]));
                let w = choose|w: int| 0 <= w < iota.len() && #[trigger] iota[w] == permv[k2];
            }
            // sorted group positions carry strictly ascending key tuples
            assert forall|p: int, q2: int| 0 <= p < q2 < permv.len() implies logs_lt(
                gt[(#[trigger] permv[p]) as int],
                gt[(#[trigger] permv[q2]) as int],
            ) by {
                assert(tuple_idx_lt(gt, permv[p] as int, permv[q2] as int));
                if gt[permv[p] as int] == gt[permv[q2] as int] {
                    assert(permv[p] != permv[q2]) by {
                        if permv[p] == permv[q2] {
                            assert(tuple_idx_lt(gt, permv[p] as int, permv[q2] as int) == false);
                        }
                    }
                    if permv[p] < permv[q2] {
                        assert(rows_view(rows_vals@)[reps@[permv[p] as int] as int] != rows_view(
                            rows_vals@,
                        )[reps@[permv[q2] as int] as int]);
                    } else {
                        assert(rows_view(rows_vals@)[reps@[permv[q2] as int] as int] != rows_view(
                            rows_vals@,
                        )[reps@[permv[p] as int] as int]);
                    }
                }
            }
        }
        let mut sreps: Vec<usize> = Vec::new();
        let mut gi2: usize = 0;
        while gi2 < gcount
            invariant
                gi2 <= gcount,
                gcount == reps@.len(),
                permv == perm@,
                permv.len() == gcount,
                forall|k2: int| 0 <= k2 < permv.len() ==> (#[trigger] permv[k2]) < gcount,
                forall|g: int| 0 <= g < gcount ==> (#[trigger] reps@[g]) < rows_vals@.len(),
                sreps@.len() == gi2,
                forall|k2: int|
                    0 <= k2 < gi2 ==> #[trigger] sreps@[k2] == reps@[permv[k2] as int],
            decreases gcount - gi2,
        {
            let pg = perm[gi2];
            sreps.push(reps[pg]);
            gi2 = gi2 + 1;
        }
        proof {
            assert forall|k2: int| 0 <= k2 < sreps@.len() implies (#[trigger] sreps@[k2])
                < rows.len() by {}
        }
        // the group-by output: every key component gathered at the sorted
        // group representatives
        let mut gcols: Vec<TypedVec> = Vec::new();
        let mut s3: usize = 0;
        while s3 < ns
            invariant
                s3 <= ns,
                ns == self.select@.len(),
                m == rows.len(),
                keys.len() == rows.len(),
                keycols@.len() == ns,
                gcount == reps@.len(),
                sreps@.len() == gcount,
                forall|k2: int| 0 <= k2 < sreps@.len() ==> (#[trigger] sreps@[k2]) < rows.len(),
                forall|t: int| 0 <= t < ns ==> (#[trigger] keycols@[t]).wf(),
                forall|t: int| 0 <= t < ns ==> !((#[trigger] keycols@[t]) is Encoded),
                forall|t: int| 0 <= t < ns ==> (#[trigger] keycols@[t]).phys().len() == rows.len(),
                forall|t: int, k2: int|
                    0 <= t < ns && 0 <= k2 < rows.len() ==> (#[trigger] keycols@[t].phys()[k2])
                        == keys[k2][t],
                gcols@.len() == s3,
                forall|t: int| 0 <= t < s3 ==> (#[trigger] gcols@[t].phys()).len() == gcount,
                forall|t: int, g: int|
                    0 <= t < s3 && 0 <= g < gcount ==> (#[trigger] gcols@[t].phys()[g])
                        == keys[sreps@[g] as int][t],
            decreases ns - s3,
        {
            let gc = keycols[s3].index_decode(&sreps);
            proof {
                assert forall|g: int|
                    0 <= g < gcount implies #[trigger] gc.phys()[g]
                    == keys[sreps@[g] as int][s3 as int] by {
                    assert(gc.phys()[g] == keycols@[s3 as int].lgcl()[sreps@[g] as int]);
                }
            }
            gcols.push(gc);
            s3 = s3 + 1;
        }
        let mut result: Vec<TypedVec> = Vec::new();
        let mut aggs: Vec<Aggregator> = Vec::new();
        let mut j: usize = 0;
        let na = self.aggregate.len();
        while j < na
            invariant
                j <= na,
                na == self.aggregate@.len(),
                columns.wf(),
                cols == columns.cols@,
                n == columns.n_rows(),
                rows == query_rows(*self, *columns),
                keys == group_keys(*self, *columns),
                keys.len() == rows.len(),
                filter_wf(filter@, n),
                included(filter@, n) == rows,
                forall|k2: int| 0 <= k2 < rows.len() ==> 0 <= #[trigger] rows[k2] < n,
                ids@.len() == keys.len(),
                gcount == reps@.len(),
                gt == group_tuples(rows_vals@, reps@),
                rows_view(rows_vals@) == keys,
                forall|g: int| 0 <= g < gcount ==> #[trigger] gt[g] == keys[reps@[g] as int],
                forall|g: int| 0 <= g < gcount ==> (#[trigger] reps@[g]) < keys.len(),
                forall|row: int| 0 <= row < ids@.len() ==> (#[trigger] ids@[row]) < gcount,
                forall|row: int|
                    0 <= row < ids@.len() ==> keys[reps@[(#[trigger] ids@[row]) as int] as int]
                        == keys[row],
                forall|g1: int, g2: int|
                    0 <= g1 < g2 < gcount ==> keys[(#[trigger] reps@[g1]) as int]
                        != keys[(#[trigger] reps@[g2]) as int],
                permv == perm@,
                permv.len() == gcount,
                forall|k2: int| 0 <= k2 < permv.len() ==> (#[trigger] permv[k2]) < gcount,
                result@.len() == j,
                aggs@.len() == j,
                forall|k2: int| 0 <= k2 < j ==> (#[trigger] aggs@[k2]) == self.aggregate@[k2].0,
                forall|k2: int|
                    0 <= k2 < j ==> !((#[trigger] kind_of(self.aggregate@[k2].1, cols)) is Err)
                        && !(self.aggregate@[k2].0 == Aggregator::Sum && kind_of(
                        self.aggregate@[k2].1,
                        cols,
                    ) != Ok::<BasicType, QueryError>(BasicType::Integer)),
                forall|k2: int|
                    0 <= k2 < j ==> (#[trigger] result@[k2].phys()).len() == gcount,
                forall|k2: int, g: int|
                    0 <= k2 < j && 0 <= g < gcount ==> (#[trigger] result@[k2].phys()[g])
                        == LogVal::Int(
                        agg_over(
                            self.aggregate@[k2].0,
                            keys,
                            agg_input(*self, *columns, k2),
                            gt[permv[g] as int],
                            keys.len() as int,
                        ),
                    ),
            decreases na - j,
        {
            stats.start();
            let pair_agg = self.aggregate[j].0;
            let plan = match QueryPlan::create_query_plan(&self.aggregate[j].1, columns) {
                Ok(p) => p,
                Err(x) => {
                    return Err(x);
                },
            };
            if matches!(pair_agg, Aggregator::Sum) && !matches!(plan.1, BasicType::Integer) {
                return Err(QueryError::TypeMismatch);
            }
            stats.record("compile_aggregate");
            let input = execute(&plan.0, columns, &filter);
            let ghost vals = agg_input(*self, *columns, j as int);
            proof {
                assert forall|k2: int| 0 <= k2 < vals.len() implies #[trigger] input.lgcl()[k2]
                    == vals[k2] by {
                    assert(rows[k2] == included(filter@, n)[k2]);
                    assert(0 <= rows[k2] < n);
                    assert(input.lgcl()[k2] == crate::plan::plan_lgcl_at(plan.0, cols, rows[k2]));
                }
                assert(input.lgcl() =~= vals);
                if pair_agg == Aggregator::Sum {
                    assert(input.is_int_phys());
                }
            }
            let agg_tv = aggregate(pair_agg, &ids, gcount, input);
            let reduced = agg_tv.index_decode(&perm);
            proof {
                assert forall|g: int| 0 <= g < permv.len() implies #[trigger] reduced.phys()[g]
                    == LogVal::Int(
                    agg_over(pair_agg, keys, vals, gt[permv[g] as int], keys.len() as int),
                ) by {
                    let gid = permv[g] as int;
                    assert(agg_tv.phys()[gid] == LogVal::Int(
                        crate::grouping::agg_fold(pair_agg, vals, ids@, gid, ids@.len() as int),
                    ));
                    assert forall|row: int|
                        0 <= row < ids@.len() implies ((#[trigger] ids@[row]) as int == gid
                        <==> keys[row] == gt[gid]) by {
                        if ids@[row] as int != gid {
                            if (ids@[row] as int) < gid {
                                assert(keys[reps@[ids@[row] as int] as int]
                                    != keys[reps@[gid] as int]);
                            } else {
                                assert(keys[reps@[gid] as int]
                                    != keys[reps@[ids@[row] as int] as int]);
                            }
                        }
                    }
                    crate::grouping::lemma_fold_over(
                        pair_agg,
                        keys,
                        vals,
                        ids@,
                        gid,
                        gt[gid],
                        ids@.len() as int,
                    );
                    assert(reduced.phys()[g] == agg_tv.lgcl()[gid]);
                }
            }
            result.push(reduced);
            aggs.push(pair_agg);
            j = j + 1;
        }
        proof {
            // each output position carries the tuple of the group it stands
            // for, in strictly ascending tuple order
            assert forall|gi3: int| 0 <= gi3 < gcount implies #[trigger] out_tuple(gcols@, gi3)
                == gt[permv[gi3] as int] by {
                assert(out_tuple(gcols@, gi3) =~= keys[sreps@[gi3] as int]);
                assert(sreps@[gi3] == reps@[permv[gi3] as int]);
            }
            assert forall|gi3: int| 0 <= gi3 < gcount implies keys.contains(
                #[trigger] out_tuple(gcols@, gi3),
            ) by {
                assert(keys[sreps@[gi3] as int] == out_tuple(gcols@, gi3));
            }
            assert forall|row: int| #![trigger keys[row]]
                0 <= row < keys.len() implies exists|gi3: int|
                0 <= gi3 < gcount && #[trigger] out_tuple(gcols@, gi3) == keys[row] by {
                let gid = ids@[row];
                assert(keys[reps@[gid as int] as int] == keys[row]);
                assert(gid < gcount);
                assert(iota[gid as int] == gid);
                assert(iota.contains(gid));
                assert(permv.contains(gid));
                let gi3 = choose|gi3: int| 0 <= gi3 < permv.len() && #[trigger] permv[gi3] == gid;
                assert(out_tuple(gcols@, gi3) == gt[gid as int]);
                assert(gt[gid as int] == keys[reps@[gid as int] as int]);
            }
            if ns == 0 {
                // an empty grouping key puts every row into one group
                assert forall|k2: int, k3: int|
                    0 <= k2 < keys.len() && 0 <= k3 < keys.len() implies #[trigger] keys[k2]
                    == #[trigger] keys[k3] by {
                    assert(keys[k2] =~= keys[k3]);
                }
                if gcount > 1 {
                    assert(keys[reps@[0int] as int] != keys[reps@[1int] as int]);
                    assert(false);
                }
                if m > 0 {
                    assert(ids@[0int] < gcount);
                    assert(gcount == 1);
                } else {
                    assert(gcount == 0);
                }
            }
            assert(gcount as int == out_group_count(gcols@, keys)) by {
                if ns > 0 {
                    assert(gcols@[0int].phys().len() == gcount);
                }
            }
            assert forall|row: int| #![trigger keys[row]]
                0 <= row < keys.len() implies out_tuples(
                gcols@,
                out_group_count(gcols@, keys),
            ).contains(keys[row]) by {
                let w = choose|gi3: int|
                    0 <= gi3 < gcount && #[trigger] out_tuple(gcols@, gi3) == keys[row];
                assert(out_tuples(gcols@, out_group_count(gcols@, keys))[w] == keys[row]);
            }
        }
        Ok(
            BatchResult {
                group_by: Some(gcols),
                sort_by: None,
                select: result,
                aggregators: aggs,
                level: 0,
                batch_count: 1,
            },
        )
    }
}

} // verus!
