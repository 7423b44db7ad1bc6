use std::rc::Rc;

use colquery::column::{Column, ColumnSet, IntegerColumn};
use colquery::expr::{Expr, FuncType, QueryError};
use colquery::filter::Filter;
use colquery::grouping::{grouping, Aggregator};
use colquery::query::{BatchResult, LimitClause, Query, QueryStats};
use colquery::typed_vec::TypedVec;
use colquery::vals::{str_lt, val_eq, val_lt, Val};

fn col(name: &str) -> Expr {
    Expr::ColName(name.to_string())
}

fn gt(a: Expr, b: Expr) -> Expr {
    Expr::Func(FuncType::Gt, Box::new(a), Box::new(b))
}

fn eq(a: Expr, b: Expr) -> Expr {
    Expr::Func(FuncType::Equals, Box::new(a), Box::new(b))
}

fn age_columns() -> ColumnSet {
    let mut cs = ColumnSet::new();
    cs.add(*IntegerColumn::new_boxed("age", vec![10, 20, 30, 40], 10, 40));
    cs
}

fn basic_query(select: Vec<Expr>, filter: Expr) -> Query {
    Query {
        select,
        table: "default".to_string(),
        filter,
        aggregate: Vec::new(),
        order_by: None,
        order_desc: false,
        limit: LimitClause { limit: 100, offset: 0 },
        order_by_index: None,
    }
}

fn ints(tv: &TypedVec) -> Vec<i64> {
    match tv {
        TypedVec::Integer(v) => v.clone(),
        _ => panic!("expected integer output"),
    }
}

fn strs(tv: &TypedVec) -> Vec<String> {
    match tv {
        TypedVec::Str(v) => v.clone(),
        _ => panic!("expected string output"),
    }
}

#[test]
fn projection_with_filter() {
    let cs = age_columns();
    let q = basic_query(vec![col("age")], gt(col("age"), Expr::Const(15)));
    let mut stats = QueryStats::new();
    let b: BatchResult = q.run(&cs, &mut stats).unwrap();
    assert!(b.group_by.is_none());
    assert_eq!(b.sort_by, None);
    assert_eq!(b.batch_count, 1);
    assert_eq!(b.level, 0);
    assert!(b.aggregators.is_empty());
    assert_eq!(b.select.len(), 1);
    assert_eq!(ints(&b.select[0]), vec![20, 30, 40]);
}

#[test]
fn order_by_desc_with_limit() {
    let cs = age_columns();
    let mut q = basic_query(vec![col("age")], Expr::Const(1));
    q.order_by = Some("age".to_string());
    q.order_desc = true;
    q.order_by_index = Some(0);
    q.limit = LimitClause { limit: 2, offset: 0 };
    let mut stats = QueryStats::new();
    let b = q.run(&cs, &mut stats).unwrap();
    assert_eq!(b.sort_by, Some(0));
    assert_eq!(ints(&b.select[0]), vec![40, 30]);
}

#[test]
fn order_by_asc_after_filter() {
    let mut cs = ColumnSet::new();
    cs.add(*IntegerColumn::new_boxed("age", vec![30, 10, 40, 20], 10, 40));
    let mut q = basic_query(vec![col("age")], gt(col("age"), Expr::Const(15)));
    q.order_by = Some("age".to_string());
    q.order_by_index = Some(0);
    q.limit = LimitClause { limit: 10, offset: 0 };
    let mut stats = QueryStats::new();
    let b = q.run(&cs, &mut stats).unwrap();
    assert_eq!(ints(&b.select[0]), vec![20, 30, 40]);
}

#[test]
fn grouped_aggregation() {
    let mut cs = ColumnSet::new();
    cs.add(Column::plain_str(
        "region",
        vec!["x".to_string(), "y".to_string(), "x".to_string()],
    ));
    cs.add(*IntegerColumn::new_boxed("v", vec![1, 2, 3], 1, 3));
    let mut q = basic_query(vec![col("region")], Expr::Const(1));
    q.aggregate = vec![(Aggregator::Sum, col("v")), (Aggregator::Count, col("v"))];
    let mut stats = QueryStats::new();
    let b = q.run_aggregate(&cs, &mut stats).unwrap();
    let g = b.group_by.expect("grouped output");
    assert_eq!(g.len(), 1);
    assert_eq!(strs(&g[0]), vec!["x".to_string(), "y".to_string()]);
    assert_eq!(b.aggregators, vec![Aggregator::Sum, Aggregator::Count]);
    assert_eq!(ints(&b.select[0]), vec![4, 2]);
    assert_eq!(ints(&b.select[1]), vec![2, 1]);
    assert_eq!(b.sort_by, None);
}

#[test]
fn grouped_aggregation_filtered_sum_on_offset_codec() {
    // values are stored offset-encoded (offset 5), so the sum must decode
    // before adding
    let mut cs = ColumnSet::new();
    cs.add(*IntegerColumn::new_boxed("k", vec![1, 1, 2, 2], 1, 2));
    cs.add(*IntegerColumn::new_boxed("v", vec![5, 6, 7, 8], 5, 8));
    let mut q = basic_query(vec![col("k")], gt(col("v"), Expr::Const(5)));
    q.aggregate = vec![(Aggregator::Sum, col("v"))];
    let mut stats = QueryStats::new();
    let b = q.run_aggregate(&cs, &mut stats).unwrap();
    let g = b.group_by.expect("grouped output");
    assert_eq!(ints(&g[0]), vec![1, 2]);
    assert_eq!(ints(&b.select[0]), vec![6, 15]);
}

#[test]
fn grouping_ids_match_keys() {
    let key = TypedVec::Str(vec![
        "b".to_string(),
        "a".to_string(),
        "b".to_string(),
        "c".to_string(),
        "a".to_string(),
    ]);
    let (ids, count, distinct) = grouping(key);
    assert_eq!(count, 3);
    assert_eq!(strs(&distinct), vec!["b".to_string(), "a".to_string(), "c".to_string()]);
    assert_eq!(ids, vec![0, 1, 0, 2, 1]);
    for r1 in 0..ids.len() {
        for r2 in 0..ids.len() {
            let keys = ["b", "a", "b", "c", "a"];
            assert_eq!(ids[r1] == ids[r2], keys[r1] == keys[r2]);
        }
    }
}

#[test]
fn stable_sort_preserves_ties() {
    let keys = TypedVec::Integer(vec![3, 1, 3, 1]);
    let mut idx = vec![0usize, 1, 2, 3];
    keys.sort_indices_asc(&mut idx);
    assert_eq!(idx, vec![1, 3, 0, 2]);
    let mut idx2 = vec![0usize, 1, 2, 3];
    keys.sort_indices_desc(&mut idx2);
    assert_eq!(idx2, vec![0, 2, 1, 3]);
}

#[test]
fn sort_strings_lexicographic() {
    let keys = TypedVec::Str(vec![
        "pear".to_string(),
        "apple".to_string(),
        "peach".to_string(),
    ]);
    let mut idx = vec![0usize, 1, 2];
    keys.sort_indices_asc(&mut idx);
    assert_eq!(idx, vec![1, 2, 0]);
}

#[test]
fn order_by_string_column() {
    let mut cs = ColumnSet::new();
    cs.add(Column::plain_str(
        "name",
        vec!["carol".to_string(), "alice".to_string(), "bob".to_string()],
    ));
    let mut q = basic_query(vec![col("name")], Expr::Const(1));
    q.order_by = Some("name".to_string());
    q.order_by_index = Some(0);
    q.limit = LimitClause { limit: 10, offset: 0 };
    let mut stats = QueryStats::new();
    let b = q.run(&cs, &mut stats).unwrap();
    assert_eq!(
        strs(&b.select[0]),
        vec!["alice".to_string(), "bob".to_string(), "carol".to_string()]
    );
}

#[test]
fn filter_clone_shares_rows() {
    let f = Filter::BitVec(Rc::new(vec![true, false, true, true, false]));
    let g = f.clone();
    let a = f.positions(5);
    let b = g.positions(5);
    assert_eq!(a, vec![0, 2, 3]);
    assert_eq!(a, b);
    let twice = g.positions(5);
    assert_eq!(twice, vec![0, 2, 3]);
}

#[test]
fn filter_reuse_across_two_runs() {
    let cs = age_columns();
    let mut stats = QueryStats::new();
    let q = basic_query(vec![col("age")], gt(col("age"), Expr::Const(15)));
    let one = q.run(&cs, &mut stats).unwrap();
    let two = q.run(&cs, &mut stats).unwrap();
    assert_eq!(ints(&one.select[0]), ints(&two.select[0]));
}

#[test]
fn literal_outside_encoded_domain_filters_correctly() {
    let cs = age_columns();
    // 1000 cannot be translated into the 8-bit encoded domain: the planner
    // falls back to decoding before comparing
    let q = basic_query(vec![col("age")], gt(col("age"), Expr::Const(1000)));
    let mut stats = QueryStats::new();
    let b = q.run(&cs, &mut stats).unwrap();
    assert_eq!(ints(&b.select[0]), Vec::<i64>::new());
    let q2 = basic_query(vec![col("age")], gt(col("age"), Expr::Const(5)));
    let b2 = q2.run(&cs, &mut stats).unwrap();
    assert_eq!(ints(&b2.select[0]), vec![10, 20, 30, 40]);
}

#[test]
fn equality_pushdown_on_encoded_column() {
    let cs = age_columns();
    let q = basic_query(vec![col("age")], eq(col("age"), Expr::Const(20)));
    let mut stats = QueryStats::new();
    let b = q.run(&cs, &mut stats).unwrap();
    assert_eq!(ints(&b.select[0]), vec![20]);
}

#[test]
fn non_boolean_filter_degrades_to_all_rows() {
    let cs = age_columns();
    let q = basic_query(vec![col("age")], Expr::Const(7));
    let mut stats = QueryStats::new();
    let b = q.run(&cs, &mut stats).unwrap();
    assert_eq!(ints(&b.select[0]), vec![10, 20, 30, 40]);
}

#[test]
fn unknown_column_is_reported() {
    let cs = age_columns();
    let q = basic_query(vec![col("height")], Expr::Const(1));
    let mut stats = QueryStats::new();
    match q.run(&cs, &mut stats) {
        Err(e) => assert_eq!(e, QueryError::ColumnNotFound),
        Ok(_) => panic!("expected an error"),
    }
}

#[test]
fn ill_typed_filter_is_reported() {
    let cs = age_columns();
    let and = Expr::Func(
        FuncType::And,
        Box::new(Expr::Const(1)),
        Box::new(Expr::Const(2)),
    );
    let q = basic_query(vec![col("age")], and);
    let mut stats = QueryStats::new();
    match q.run(&cs, &mut stats) {
        Err(e) => assert_eq!(e, QueryError::TypeMismatch),
        Ok(_) => panic!("expected an error"),
    }
}

#[test]
fn composite_grouping_key_over_two_columns() {
    let mut cs = ColumnSet::new();
    cs.add(*IntegerColumn::new_boxed("k1", vec![1, 1, 2, 2, 1], 1, 2));
    cs.add(Column::plain_str(
        "k2",
        vec![
            "a".to_string(),
            "b".to_string(),
            "a".to_string(),
            "b".to_string(),
            "b".to_string(),
        ],
    ));
    cs.add(*IntegerColumn::new_boxed("v", vec![1, 2, 3, 4, 5], 1, 5));
    let mut q = basic_query(vec![col("k1"), col("k2")], Expr::Const(1));
    q.aggregate = vec![(Aggregator::Sum, col("v")), (Aggregator::Count, col("v"))];
    let mut stats = QueryStats::new();
    let b = q.run_aggregate(&cs, &mut stats).unwrap();
    let g = b.group_by.expect("grouped output");
    assert_eq!(g.len(), 2);
    // distinct (k1, k2) tuples in ascending lexicographic order
    assert_eq!(ints(&g[0]), vec![1, 1, 2, 2]);
    assert_eq!(
        strs(&g[1]),
        vec!["a".to_string(), "b".to_string(), "a".to_string(), "b".to_string()]
    );
    assert_eq!(ints(&b.select[0]), vec![1, 7, 3, 4]);
    assert_eq!(ints(&b.select[1]), vec![1, 2, 1, 1]);
}

#[test]
fn boolean_grouping_key() {
    let mut cs = ColumnSet::new();
    cs.add(*IntegerColumn::new_boxed("v", vec![1, 2, 3, 4], 1, 4));
    let mut q = basic_query(vec![gt(col("v"), Expr::Const(2))], Expr::Const(1));
    q.aggregate = vec![(Aggregator::Count, col("v")), (Aggregator::Sum, col("v"))];
    let mut stats = QueryStats::new();
    let b = q.run_aggregate(&cs, &mut stats).unwrap();
    let g = b.group_by.expect("grouped output");
    assert_eq!(g.len(), 1);
    match &g[0] {
        TypedVec::Boolean(v) => assert_eq!(v.clone(), vec![false, true]),
        _ => panic!("expected a boolean group-by column"),
    }
    assert_eq!(ints(&b.select[0]), vec![2, 2]);
    assert_eq!(ints(&b.select[1]), vec![3, 7]);
}

#[test]
fn sum_over_string_column_is_reported() {
    let mut cs = ColumnSet::new();
    cs.add(Column::plain_str("s", vec!["a".to_string(), "b".to_string()]));
    cs.add(*IntegerColumn::new_boxed("k", vec![1, 1], 1, 1));
    let mut q = basic_query(vec![col("k")], Expr::Const(1));
    q.aggregate = vec![(Aggregator::Sum, col("s"))];
    let mut stats = QueryStats::new();
    match q.run_aggregate(&cs, &mut stats) {
        Err(e) => assert_eq!(e, QueryError::TypeMismatch),
        Ok(_) => panic!("expected an error"),
    }
}

#[test]
fn result_names_number_anonymous_and_aggregates() {
    let mut q = basic_query(
        vec![col("a"), gt(col("a"), Expr::Const(1)), col("b")],
        Expr::Const(1),
    );
    q.aggregate = vec![(Aggregator::Count, col("x")), (Aggregator::Sum, col("y"))];
    let names = q.result_column_names();
    assert_eq!(names, vec!["a", "col_0", "b", "count_0", "sum_1"]);
}

#[test]
fn result_names_count_only_anonymous_selects() {
    let q = basic_query(
        vec![
            gt(col("a"), Expr::Const(1)),
            col("a"),
            gt(col("b"), Expr::Const(2)),
        ],
        Expr::Const(1),
    );
    let names = q.result_column_names();
    assert_eq!(names, vec!["col_0", "a", "col_1"]);
}

#[test]
fn select_star_detection() {
    let star = basic_query(vec![col("*")], Expr::Const(1));
    assert!(star.is_select_star());
    let named = basic_query(vec![col("age")], Expr::Const(1));
    assert!(!named.is_select_star());
    let two = basic_query(vec![col("*"), col("*")], Expr::Const(1));
    assert!(!two.is_select_star());
}

#[test]
fn referenced_cols_are_collected_once() {
    let mut q = basic_query(vec![col("a"), col("a")], gt(col("b"), Expr::Const(1)));
    q.aggregate = vec![(Aggregator::Sum, col("c"))];
    let mut cols = q.find_referenced_cols();
    cols.sort();
    assert_eq!(cols, vec!["a".to_string(), "b".to_string(), "c".to_string()]);
}

#[test]
fn stats_record_stages() {
    let cs = age_columns();
    let q = basic_query(vec![col("age")], gt(col("age"), Expr::Const(15)));
    let mut stats = QueryStats::new();
    q.run(&cs, &mut stats).unwrap();
    assert!(stats.stages.len() >= 2);
    assert_eq!(stats.stages[0].0, "compile_filter");
}

#[test]
fn plain_wide_column_survives_round_trip() {
    // a span beyond 32 bits falls back to plain 64-bit storage
    let vals = vec![-5_000_000_000i64, 0, 5_000_000_000];
    let mut cs = ColumnSet::new();
    cs.add(*IntegerColumn::new_boxed(
        "w",
        vals.clone(),
        -5_000_000_000,
        5_000_000_000,
    ));
    let q = basic_query(vec![col("w")], Expr::Const(1));
    let mut stats = QueryStats::new();
    let b = q.run(&cs, &mut stats).unwrap();
    assert_eq!(ints(&b.select[0]), vals);
}

#[test]
fn empty_column_set_of_rows() {
    let mut cs = ColumnSet::new();
    cs.add(*IntegerColumn::new_boxed("age", Vec::new(), 0, 0));
    let q = basic_query(vec![col("age")], gt(col("age"), Expr::Const(0)));
    let mut stats = QueryStats::new();
    let b = q.run(&cs, &mut stats).unwrap();
    assert_eq!(ints(&b.select[0]), Vec::<i64>::new());
}

#[test]
fn sum_saturates_instead_of_wrapping() {
    let mut cs = ColumnSet::new();
    cs.add(*IntegerColumn::new_boxed("k", vec![1, 1], 1, 1));
    cs.add(Column::plain("v", vec![i64::MAX, i64::MAX], Some((i64::MAX, i64::MAX))));
    let mut q = basic_query(vec![col("k")], Expr::Const(1));
    q.aggregate = vec![(Aggregator::Sum, col("v"))];
    let mut stats = QueryStats::new();
    let b = q.run_aggregate(&cs, &mut stats).unwrap();
    assert_eq!(ints(&b.select[0]), vec![i64::MAX]);
}

#[test]
fn value_order_is_total_and_lexicographic() {
    assert!(val_lt(&Val::Int(1), &Val::Int(2)));
    assert!(!val_lt(&Val::Int(2), &Val::Int(2)));
    // integers order before strings
    assert!(val_lt(&Val::Int(99), &Val::Str("a".to_string())));
    assert!(!val_lt(&Val::Str("a".to_string()), &Val::Int(99)));
    assert!(val_lt(
        &Val::Str("apple".to_string()),
        &Val::Str("apricot".to_string())
    ));
    assert!(str_lt("ab", "b"));
    assert!(str_lt("ab", "abc"));
    assert!(!str_lt("abc", "ab"));
    assert!(val_eq(&Val::Str("x".to_string()), &Val::Str("x".to_string())));
    assert!(!val_eq(&Val::Str("x".to_string()), &Val::Int(0)));
}

#[test]
fn typed_vec_exposes_values_by_position() {
    let tv = TypedVec::Str(vec!["p".to_string(), "q".to_string()]);
    match tv.val_at(1) {
        Val::Str(s) => assert_eq!(s, "q"),
        _ => panic!("expected a string value"),
    }
    let iv = TypedVec::Integer(vec![7, 8]);
    match iv.val_at(0) {
        Val::Int(i) => assert_eq!(i, 7),
        _ => panic!("expected an integer value"),
    }
}

#[test]
fn anonymous_names_reach_two_digits() {
    let mut select = Vec::new();
    for _ in 0..11 {
        select.push(gt(col("a"), Expr::Const(0)));
    }
    let q = basic_query(select, Expr::Const(1));
    let names = q.result_column_names();
    assert_eq!(names[0], "col_0");
    assert_eq!(names[9], "col_9");
    assert_eq!(names[10], "col_10");
}

#[test]
fn limit_offset_keeps_prefix_of_sorted_rows() {
    let mut cs = ColumnSet::new();
    cs.add(*IntegerColumn::new_boxed("age", vec![10, 20, 30, 40], 10, 40));
    let mut q = basic_query(vec![col("age")], Expr::Const(1));
    q.order_by = Some("age".to_string());
    q.order_desc = true;
    q.order_by_index = Some(0);
    q.limit = LimitClause { limit: 1, offset: 1 };
    let mut stats = QueryStats::new();
    let b = q.run(&cs, &mut stats).unwrap();
    // limit + offset rows survive the truncation; the offset is consumed by
    // the external merging collaborator
    assert_eq!(ints(&b.select[0]), vec![40, 30]);
}

#[test]
fn boolean_connectives_combine_filters() {
    let cs = age_columns();
    let low = Expr::Func(
        FuncType::Lt,
        Box::new(col("age")),
        Box::new(Expr::Const(15)),
    );
    let high = gt(col("age"), Expr::Const(35));
    let either = Expr::Func(FuncType::Or, Box::new(low), Box::new(high));
    let q = basic_query(vec![col("age")], either);
    let mut stats = QueryStats::new();
    let b = q.run(&cs, &mut stats).unwrap();
    assert_eq!(ints(&b.select[0]), vec![10, 40]);

    let both = Expr::Func(
        FuncType::And,
        Box::new(gt(col("age"), Expr::Const(15))),
        Box::new(Expr::Func(
            FuncType::Lt,
            Box::new(col("age")),
            Box::new(Expr::Const(35)),
        )),
    );
    let q2 = basic_query(vec![col("age")], both);
    let b2 = q2.run(&cs, &mut stats).unwrap();
    assert_eq!(ints(&b2.select[0]), vec![20, 30]);
}

#[test]
fn column_against_column_comparison() {
    let mut cs = ColumnSet::new();
    cs.add(*IntegerColumn::new_boxed("a", vec![1, 5, 3], 1, 5));
    cs.add(*IntegerColumn::new_boxed("b", vec![2, 2, 2], 2, 2));
    let q = basic_query(vec![col("a")], gt(col("a"), col("b")));
    let mut stats = QueryStats::new();
    let b = q.run(&cs, &mut stats).unwrap();
    assert_eq!(ints(&b.select[0]), vec![5, 3]);
}

#[test]
fn literal_on_the_left_of_a_comparison() {
    let cs = age_columns();
    let q = basic_query(vec![col("age")], gt(Expr::Const(25), col("age")));
    let mut stats = QueryStats::new();
    let b = q.run(&cs, &mut stats).unwrap();
    assert_eq!(ints(&b.select[0]), vec![10, 20]);
}

#[test]
fn empty_grouping_key_forms_one_group() {
    let mut cs = ColumnSet::new();
    cs.add(*IntegerColumn::new_boxed("v", vec![1, 2, 3], 1, 3));
    let mut q = basic_query(Vec::new(), Expr::Const(1));
    q.aggregate = vec![(Aggregator::Count, col("v")), (Aggregator::Sum, col("v"))];
    let mut stats = QueryStats::new();
    let b = q.run_aggregate(&cs, &mut stats).unwrap();
    let g = b.group_by.expect("grouped output");
    assert!(g.is_empty());
    assert_eq!(ints(&b.select[0]), vec![3]);
    assert_eq!(ints(&b.select[1]), vec![6]);
}
