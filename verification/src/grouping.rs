//! Row grouping by key value and per-group aggregation. Grouping assigns a
//! group id per row in first-seen order; aggregation reduces a filtered
//! column per group under an aggregator. Sums saturate at the 64-bit bounds
//! rather than wrapping.

use vstd::prelude::*;
use crate::expr::{as_int, holds_name};
use crate::typed_vec::TypedVec;
use crate::vals::{LogVal, Val, logs_lt, lemma_tuple_idx_lt_connected, lemma_tuple_idx_lt_trans, tuple_idx_lt, tuple_view, vals_eq, vals_lt};

verus! {

/// The reduction applied to one (filtered, grouped) input column.
#[derive(Clone, Copy, PartialEq, Eq, Structural, Debug)]
pub enum Aggregator {
    Count,
    Sum,
}

/// Clips a mathematical integer to the 64-bit range.
pub open spec fn sat64(x: int) -> int {
    if x > i64::MAX {
        i64::MAX as int
    } else if x < i64::MIN {
        i64::MIN as int
    } else {
        x
    }
}

/// The aggregate of group `g` over the first `upto` rows: the number of rows
/// assigned to `g`, or the saturating sum of their logical values.
pub open spec fn agg_fold(
    agg: Aggregator,
    vals: Seq<LogVal>,
    ids: Seq<usize>,
    g: int,
    upto: int,
) -> int
    decreases upto,
{
    if upto <= 0 {
        0
    } else {
        let prev = agg_fold(agg, vals, ids, g, upto - 1);
        if ids[upto - 1] as int == g {
            match agg {
                Aggregator::Count => sat64(prev + 1),
                Aggregator::Sum => sat64(prev + as_int(vals[upto - 1])),
            }
        } else {
            prev
        }
    }
}

/// The aggregate over the rows whose key equals `key`, in row order. The
/// key may be a single value or a composite tuple.
pub open spec fn agg_over<KT>(
    agg: Aggregator,
    keys: Seq<KT>,
    vals: Seq<LogVal>,
    key: KT,
    upto: int,
) -> int
    decreases upto,
{
    if upto <= 0 {
        0
    } else {
        let prev = agg_over(agg, keys, vals, key, upto - 1);
        if keys[upto - 1] == key {
            match agg {
                Aggregator::Count => sat64(prev + 1),
                Aggregator::Sum => sat64(prev + as_int(vals[upto - 1])),
            }
        } else {
            prev
        }
    }
}

/// When group id `g` marks exactly the rows whose key is `key`, the fold
/// over ids equals the fold over keys.
pub proof fn lemma_fold_over<KT>(
    agg: Aggregator,
    keys: Seq<KT>,
    vals: Seq<LogVal>,
    ids: Seq<usize>,
    g: int,
    key: KT,
    upto: int,
)
    requires
        upto <= ids.len(),
        ids.len() == keys.len(),
        forall|r: int| 0 <= r < ids.len() ==> ((#[trigger] ids[r]) as int == g <==> keys[r] == key),
    ensures
        agg_fold(agg, vals, ids, g, upto) == agg_over(agg, keys, vals, key, upto),
    decreases upto,
{
    if upto > 0 {
        lemma_fold_over(agg, keys, vals, ids, g, key, upto - 1);
    }
}

/// Saturating 64-bit addition.
fn sat_add(a: i64, b: i64) -> (r: i64)
    ensures
        r as int == sat64(a as int + b as int),
{
    if b >= 0 {
        if a > i64::MAX - b {
            i64::MAX
        } else {
            a + b
        }
    } else {
        if a < i64::MIN - b {
            i64::MIN
        } else {
            a + b
        }
    }
}

fn group_core_i64(v: &Vec<i64>) -> (r: (Vec<usize>, Vec<i64>))
    ensures
        r.0@.len() == v@.len(),
        r.1@.len() <= v@.len(),
        forall|row: int| 0 <= row < v@.len() ==> (#[trigger] r.0@[row]) < r.1@.len(),
        forall|row: int|
            0 <= row < v@.len() ==> r.1@[(#[trigger] r.0@[row]) as int] == #[trigger] v@[row],
        forall|g1: int, g2: int| 0 <= g1 < g2 < r.1@.len() ==> r.1@[g1] != r.1@[g2],
        forall|g: int| 0 <= g < r.1@.len() ==> v@.contains(#[trigger] r.1@[g]),
{
    let mut ids: Vec<usize> = Vec::new();
    let mut distinct: Vec<i64> = Vec::new();
    let mut i: usize = 0;
    let n = v.len();
    while i < n
        invariant
            i <= n,
            n == v@.len(),
            ids@.len() == i,
            distinct@.len() <= i,
            forall|row: int| 0 <= row < i ==> (#[trigger] ids@[row]) < distinct@.len(),
            forall|row: int|
                0 <= row < i ==> distinct@[(#[trigger] ids@[row]) as int] == v@[row],
            forall|g1: int, g2: int| 0 <= g1 < g2 < distinct@.len() ==> distinct@[g1] != distinct@[g2],
            forall|g: int| 0 <= g < distinct@.len() ==> v@.contains(#[trigger] distinct@[g]),
        decreases n - i,
    {
        let x = v[i];
        let mut j: usize = 0;
        let dl = distinct.len();
        let mut found: bool = false;
        while j < dl && !found
            invariant
                j <= dl,
                dl == distinct@.len(),
                !found ==> forall|k: int| 0 <= k < j ==> distinct@[k] != x,
                found ==> j < dl && distinct@[j as int] == x,
            decreases dl - j + (if found { 0int } else { 1int }),
        {
            if distinct[j] == x {
                found = true;
            } else {
                j = j + 1;
            }
        }
        if found {
            ids.push(j);
        } else {
            ids.push(distinct.len());
            distinct.push(x);
        }
        proof {
            if !found {
                assert(v@[i as int] == distinct@[distinct@.len() - 1]);
                assert(v@.contains(distinct@[distinct@.len() - 1]));
            }
        }
        i = i + 1;
    }
    (ids, distinct)
}

fn group_core_str(v: &Vec<String>) -> (r: (Vec<usize>, Vec<String>))
    ensures
        r.0@.len() == v@.len(),
        r.1@.len() <= v@.len(),
        forall|row: int| 0 <= row < v@.len() ==> (#[trigger] r.0@[row]) < r.1@.len(),
        forall|row: int|
            0 <= row < v@.len() ==> r.1@[(#[trigger] r.0@[row]) as int]@ == (#[trigger] v@[row])@,
        forall|g1: int, g2: int| 0 <= g1 < g2 < r.1@.len() ==> r.1@[g1]@ != r.1@[g2]@,
        forall|g: int| 0 <= g < r.1@.len() ==> holds_name(v@, (#[trigger] r.1@[g])@),
{
    let mut ids: Vec<usize> = Vec::new();
    let mut distinct: Vec<String> = Vec::new();
    let mut i: usize = 0;
    let n = v.len();
    while i < n
        invariant
            i <= n,
            n == v@.len(),
            ids@.len() == i,
            distinct@.len() <= i,
            forall|row: int| 0 <= row < i ==> (#[trigger] ids@[row]) < distinct@.len(),
            forall|row: int|
                0 <= row < i ==> distinct@[(#[trigger] ids@[row]) as int]@ == v@[row]@,
            forall|g1: int, g2: int|
                0 <= g1 < g2 < distinct@.len() ==> distinct@[g1]@ != distinct@[g2]@,
            forall|g: int|
                0 <= g < distinct@.len() ==> holds_name(v@, (#[trigger] distinct@[g])@),
        decreases n - i,
    {
        let mut j: usize = 0;
        let dl = distinct.len();
        let mut found: bool = false;
        while j < dl && !found
            invariant
                j <= dl,
                dl == distinct@.len(),
                i < n,
                n == v@.len(),
                !found ==> forall|k: int| 0 <= k < j ==> distinct@[k]@ != v@[i as int]@,
                found ==> j < dl && distinct@[j as int]@ == v@[i as int]@,
            decreases dl - j + (if found { 0int } else { 1int }),
        {
            if distinct[j].eq(&v[i]) {
                found = true;
            } else {
                j = j + 1;
            }
        }
        if found {
            ids.push(j);
        } else {
            ids.push(distinct.len());
            distinct.push(v[i].clone());
        }
        proof {
            if !found {
                assert(v@[i as int]@ == distinct@[distinct@.len() - 1]@);
                assert(holds_name(v@, distinct@[distinct@.len() - 1]@));
            }
        }
        i = i + 1;
    }
    (ids, distinct)
}

/// The logical key tuples of a sequence of composite-key rows.
pub open spec fn rows_view(rows: Seq<Vec<Val>>) -> Seq<Seq<LogVal>> {
    Seq::new(rows.len(), |k: int| tuple_view(rows[k]@))
}

/// The key tuple of each group, taken at the group's first row.
pub open spec fn group_tuples(rows: Seq<Vec<Val>>, reps: Seq<usize>) -> Seq<Seq<LogVal>> {
    Seq::new(reps.len(), |g: int| rows_view(rows)[reps[g] as int])
}

/// Partitions rows by identical composite key tuple: returns the per-row
/// group id and, for each group, the first row that carries its tuple, in
/// first-seen order. Two rows receive the same group id exactly when their
/// key tuples are equal.
pub fn grouping_tuples(rows: &Vec<Vec<Val>>) -> (r: (Vec<usize>, Vec<usize>))
    ensures
        r.0@.len() == rows@.len(),
        r.1@.len() <= rows@.len(),
        forall|g: int| 0 <= g < r.1@.len() ==> (#[trigger] r.1@[g]) < rows@.len(),
        forall|g: int| 0 <= g < r.1@.len() ==> r.0@[(#[trigger] r.1@[g]) as int] as int == g,
        forall|row: int| 0 <= row < rows@.len() ==> (#[trigger] r.0@[row]) < r.1@.len(),
        forall|row: int|
            0 <= row < rows@.len() ==> rows_view(rows@)[r.1@[(#[trigger] r.0@[row]) as int] as int]
                == rows_view(rows@)[row],
        forall|g1: int, g2: int|
            0 <= g1 < g2 < r.1@.len() ==> rows_view(rows@)[(#[trigger] r.1@[g1]) as int]
                != rows_view(rows@)[(#[trigger] r.1@[g2]) as int],
{
    let ghost rv = rows_view(rows@);
    let mut ids: Vec<usize> = Vec::new();
    let mut reps: Vec<usize> = Vec::new();
    let mut i: usize = 0;
    let n = rows.len();
    while i < n
        invariant
            i <= n,
            n == rows@.len(),
            rv == rows_view(rows@),
            ids@.len() == i,
            reps@.len() <= i,
            forall|g: int| 0 <= g < reps@.len() ==> (#[trigger] reps@[g]) < i,
            forall|g: int| 0 <= g < reps@.len() ==> ids@[(#[trigger] reps@[g]) as int] as int == g,
            forall|row: int| 0 <= row < i ==> (#[trigger] ids@[row]) < reps@.len(),
            forall|row: int|
                0 <= row < i ==> rv[reps@[(#[trigger] ids@[row]) as int] as int] == rv[row],
            forall|g1: int, g2: int|
                0 <= g1 < g2 < reps@.len() ==> rv[(#[trigger] reps@[g1]) as int]
                    != rv[(#[trigger] reps@[g2]) as int],
        decreases n - i,
    {
        let mut j: usize = 0;
        let gl = reps.len();
        let mut found: bool = false;
        while j < gl && !found
            invariant
                j <= gl,
                gl == reps@.len(),
                i < n,
                n == rows@.len(),
                rv == rows_view(rows@),
                forall|g: int| 0 <= g < reps@.len() ==> (#[trigger] reps@[g]) < i,
                !found ==> forall|k: int|
                    0 <= k < j ==> rv[(#[trigger] reps@[k]) as int] != rv[i as int],
                found ==> j < gl && rv[reps@[j as int] as int] == rv[i as int],
            decreases gl - j + (if found { 0int } else { 1int }),
        {
            let rg = reps[j];
            if vals_eq(&rows[rg], &rows[i]) {
                proof {
                    assert(rv[rg as int] == tuple_view(rows@[rg as int]@));
                    assert(rv[i as int] == tuple_view(rows@[i as int]@));
                }
                found = true;
            } else {
                proof {
                    assert(rv[rg as int] == tuple_view(rows@[rg as int]@));
                    assert(rv[i as int] == tuple_view(rows@[i as int]@));
                }
                j = j + 1;
            }
        }
        if found {
            ids.push(j);
        } else {
            ids.push(reps.len());
            reps.push(i);
        }
        i = i + 1;
    }
    (ids, reps)
}

/// Decides the group sort order: by key tuple, ties (which cannot occur
/// between distinct groups) by the smaller group id.
fn group_pos_lt(rows: &Vec<Vec<Val>>, reps: &Vec<usize>, a: usize, b: usize) -> (r: bool)
    requires
        a < reps@.len(),
        b < reps@.len(),
        forall|g: int| 0 <= g < reps@.len() ==> (#[trigger] reps@[g]) < rows@.len(),
    ensures
        r == tuple_idx_lt(group_tuples(rows@, reps@), a as int, b as int),
{
    let ra = reps[a];
    let rb = reps[b];
    proof {
        assert(group_tuples(rows@, reps@)[a as int] == tuple_view(rows@[ra as int]@));
        assert(group_tuples(rows@, reps@)[b as int] == tuple_view(rows@[rb as int]@));
    }
    if vals_eq(&rows[ra], &rows[rb]) {
        a < b
    } else {
        vals_lt(&rows[ra], &rows[rb])
    }
}

/// Insertion sort of group ids into ascending key-tuple order. The order
/// is strict and total on distinct ids, so the sorted output is unique.
pub fn sort_groups(rows: &Vec<Vec<Val>>, reps: &Vec<usize>, indices: &mut Vec<usize>)
    requires
        forall|g: int| 0 <= g < reps@.len() ==> (#[trigger] reps@[g]) < rows@.len(),
        forall|k: int|
            0 <= k < old(indices)@.len() ==> (#[trigger] old(indices)@[k]) < reps@.len(),
        forall|p: int, q: int|
            0 <= p < q < old(indices)@.len() ==> old(indices)@[p] != old(indices)@[q],
    ensures
        final(indices)@.len() == old(indices)@.len(),
        forall|x: usize| final(indices)@.contains(x) <==> old(indices)@.contains(x),
        forall|p: int, q: int|
            0 <= p < q < final(indices)@.len() ==> tuple_idx_lt(
                group_tuples(rows@, reps@),
                (#[trigger] final(indices)@[p]) as int,
                (#[trigger] final(indices)@[q]) as int,
            ),
{
    let ghost orig = indices@;
    let ghost keys = group_tuples(rows@, reps@);
    let mut out: Vec<usize> = Vec::new();
    let n = indices.len();
    let mut i: usize = 0;
    while i < n
        invariant
            indices@ == orig,
            n == orig.len(),
            i <= n,
            keys == group_tuples(rows@, reps@),
            forall|g: int| 0 <= g < reps@.len() ==> (#[trigger] reps@[g]) < rows@.len(),
            forall|k: int| 0 <= k < orig.len() ==> (#[trigger] orig[k]) < reps@.len(),
            forall|p: int, q: int| 0 <= p < q < orig.len() ==> orig[p] != orig[q],
            out@.len() == i,
            forall|k: int| 0 <= k < out@.len() ==> (#[trigger] out@[k]) < reps@.len(),
            forall|x: usize| out@.contains(x) ==> orig.take(i as int).contains(x),
            forall|x: usize| orig.take(i as int).contains(x) ==> out@.contains(x),
            forall|p: int, q: int|
                0 <= p < q < out@.len() ==> tuple_idx_lt(
                    keys,
                    (#[trigger] out@[p]) as int,
                    (#[trigger] out@[q]) as int,
                ),
        decreases n - i,
    {
        let e = indices[i];
        proof {
            assert(!out@.contains(e)) by {
                if out@.contains(e) {
                    assert(orig.take(i as int).contains(e));
                    let j = choose|j: int|
                        0 <= j < orig.take(i as int).len() && #[trigger] orig.take(
                            i as int,
                        )[j] == e;
                    assert(orig[j] == e);
                    assert(orig[i as int] == e);
                    assert(false);
                }
            }
        }
        let mut p: usize = 0;
        while p < out.len() && group_pos_lt(rows, reps, out[p], e)
            invariant
                p <= out@.len(),
                e < reps@.len(),
                keys == group_tuples(rows@, reps@),
                forall|g: int| 0 <= g < reps@.len() ==> (#[trigger] reps@[g]) < rows@.len(),
                forall|k: int| 0 <= k < out@.len() ==> (#[trigger] out@[k]) < reps@.len(),
                forall|q: int|
                    0 <= q < p ==> tuple_idx_lt(keys, (#[trigger] out@[q]) as int, e as int),
            decreases out@.len() - p,
        {
            p = p + 1;
        }
        proof {
            if p < out@.len() {
                assert(out@.contains(out@[p as int]));
                assert(out@[p as int] != e);
                lemma_tuple_idx_lt_connected(keys, e as int, out@[p as int] as int);
            }
        }
        let ghost before = out@;
        out.insert(p, e);
        proof {
            let s = before.insert(p as int, e);
            assert(out@ == s);
            assert forall|a: int, b: int| 0 <= a < b < s.len() implies tuple_idx_lt(
                keys,
                s[a] as int,
                s[b] as int,
            ) by {
                if b < p {
                    assert(s[a] == before[a] && s[b] == before[b]);
                } else if a > p {
                    assert(s[a] == before[a - 1] && s[b] == before[b - 1]);
                } else if a < p && b == p {
                    assert(s[a] == before[a] && s[b] == e);
                } else if a == p && b > p {
                    assert(s[a] == e && s[b] == before[b - 1]);
                    if p < before.len() {
                        assert(tuple_idx_lt(keys, e as int, before[p as int] as int));
                        if b - 1 > p {
                            lemma_tuple_idx_lt_trans(
                                keys,
                                e as int,
                                before[p as int] as int,
                                before[b - 1] as int,
                            );
                        }
                    }
                } else if a < p && b > p {
                    assert(s[a] == before[a] && s[b] == before[b - 1]);
                    if b - 1 == a {
                        assert(false);
                    }
                }
            }
            assert forall|x: usize| out@.contains(x) implies orig.take(i as int + 1).contains(
                x,
            ) by {
                let j = choose|j: int| 0 <= j < out@.len() && #[trigger] out@[j] == x;
                if x == e {
                    assert(orig.take(i as int + 1)[i as int] == e);
                } else {
                    if j < p {
                        assert(before[j] == x);
                    } else {
                        assert(before[j - 1] == x);
                    }
                    assert(before.contains(x));
                    let m = choose|m: int| 0 <= m < i && #[trigger] orig.take(i as int)[m] == x;
                    assert(orig.take(i as int + 1)[m] == x);
                }
            }
            assert forall|x: usize| orig.take(i as int + 1).contains(x) implies out@.contains(
                x,
            ) by {
                let j = choose|j: int|
                    0 <= j <= i && #[trigger] orig.take(i as int + 1)[j] == x;
                if j == i {
                    assert(out@[p as int] == x);
                } else {
                    assert(orig.take(i as int)[j] == x);
                    assert(before.contains(x));
                    let m = choose|m: int| 0 <= m < before.len() && #[trigger] before[m] == x;
                    if m < p {
                        assert(out@[m] == x);
                    } else {
                        assert(out@[m + 1] == x);
                    }
                }
            }
        }
        i = i + 1;
    }
    proof {
        assert(orig.take(n as int) =~= orig);
    }
    *indices = out;
}

/// Partitions rows by identical key: returns the per-row group id, the
/// number of distinct groups, and the distinct key values in first-seen
/// order. Two rows receive the same group id exactly when their keys are
/// equal.
pub fn grouping(key: TypedVec) -> (r: (Vec<usize>, usize, TypedVec))
    requires
        key.wf(),
        key.sortable(),
    ensures
        r.2.wf(),
        r.2.sortable(),
        r.2 is Str <==> key is Str,
        r.0@.len() == key.phys().len(),
        r.1 == r.2.phys().len(),
        r.1 <= key.phys().len(),
        forall|row: int| 0 <= row < r.0@.len() ==> (#[trigger] r.0@[row]) < r.1,
        forall|row: int|
            0 <= row < r.0@.len() ==> r.2.phys()[(#[trigger] r.0@[row]) as int]
                == key.phys()[row],
        forall|g1: int, g2: int| 0 <= g1 < g2 < r.1 ==> r.2.phys()[g1] != r.2.phys()[g2],
        forall|g: int|
            0 <= g < r.1 ==> key.phys().contains(#[trigger] r.2.phys()[g]),
{
    match key {
        TypedVec::Integer(v) => {
            let (ids, distinct) = group_core_i64(&v);
            let cnt = distinct.len();
            let d = TypedVec::Integer(distinct);
            proof {
                assert forall|row: int|
                    0 <= row < ids@.len() implies d.phys()[(#[trigger] ids@[row]) as int]
                    == TypedVec::Integer(v).phys()[row] by {}
                assert forall|g: int|
                    0 <= g < cnt implies TypedVec::Integer(v).phys().contains(
                    #[trigger] d.phys()[g],
                ) by {
                    assert(v@.contains(distinct@[g]));
                    let w = choose|row: int| 0 <= row < v@.len() && #[trigger] v@[row] == distinct@[g];
                    assert(TypedVec::Integer(v).phys()[w] == d.phys()[g]);
                }
            }
            (ids, cnt, d)
        },
        TypedVec::Str(v) => {
            let (ids, distinct) = group_core_str(&v);
            let cnt = distinct.len();
            let d = TypedVec::Str(distinct);
            proof {
                assert forall|row: int|
                    0 <= row < ids@.len() implies d.phys()[(#[trigger] ids@[row]) as int]
                    == TypedVec::Str(v).phys()[row] by {}
                assert forall|g: int|
                    0 <= g < cnt implies TypedVec::Str(v).phys().contains(
                    #[trigger] d.phys()[g],
                ) by {
                    assert(holds_name(v@, distinct@[g]@));
                    let w = choose|row: int| 0 <= row < v@.len() && (#[trigger] v@[row])@ == distinct@[g]@;
                    assert(TypedVec::Str(v).phys()[w] == d.phys()[g]);
                }
            }
            (ids, cnt, d)
        },
        _ => {
            proof {
                assert(false);
            }
            (Vec::new(), 0, TypedVec::Integer(Vec::new()))
        },
    }
}

/// Two rows share a group id exactly when their keys are equal; the key may
/// be a single value or a composite tuple.
pub proof fn lemma_grouping_consistent<KT>(
    ids: Seq<usize>,
    distinct: Seq<KT>,
    keys: Seq<KT>,
    r1: int,
    r2: int,
)
    requires
        ids.len() == keys.len(),
        0 <= r1 < ids.len(),
        0 <= r2 < ids.len(),
        forall|row: int| 0 <= row < ids.len() ==> (#[trigger] ids[row]) < distinct.len(),
        forall|row: int|
            0 <= row < ids.len() ==> distinct[(#[trigger] ids[row]) as int] == keys[row],
        forall|g1: int, g2: int| 0 <= g1 < g2 < distinct.len() ==> distinct[g1] != distinct[g2],
    ensures
        ids[r1] == ids[r2] <==> keys[r1] == keys[r2],
{
    if ids[r1] != ids[r2] {
        if ids[r1] < ids[r2] {
            assert(distinct[ids[r1] as int] != distinct[ids[r2] as int]);
        } else {
            assert(distinct[ids[r2] as int] != distinct[ids[r1] as int]);
        }
    }
}

/// Reduces the filtered input column to one value per group: the row count
/// for `Count`, the saturating sum of the logical values for `Sum`. A sum
/// over a summation-preserving codec (offset zero) runs directly on the
/// encoded values; any other encoded input is decoded first.
pub fn aggregate(agg: Aggregator, ids: &Vec<usize>, group_count: usize, input: TypedVec) -> (r:
    TypedVec)
    requires
        input.wf(),
        agg == Aggregator::Sum ==> input.is_int_phys(),
        ids@.len() == input.phys().len(),
        forall|row: int| 0 <= row < ids@.len() ==> (#[trigger] ids@[row]) < group_count,
    ensures
        r is Integer,
        r.wf(),
        r.phys().len() == group_count,
        forall|g: int|
            0 <= g < group_count ==> #[trigger] r.phys()[g] == LogVal::Int(
                agg_fold(agg, input.lgcl(), ids@, g, ids@.len() as int),
            ),
{
    let ghost lg = input.lgcl();
    let n = ids.len();
    let vals: Vec<i64> = match agg {
        Aggregator::Count => Vec::new(),
        Aggregator::Sum => {
            let keep_encoded = match &input {
                TypedVec::Encoded(_, c) => c.is_summation_preserving(),
                _ => true,
            };
            if keep_encoded {
                let v = input.into_ints();
                proof {
                    assert forall|k: int| 0 <= k < lg.len() implies lg[k] == LogVal::Int(
                        (#[trigger] v@[k]) as int,
                    ) by {}
                }
                v
            } else {
                let v = input.decode().into_ints();
                proof {
                    assert forall|k: int| 0 <= k < lg.len() implies lg[k] == LogVal::Int(
                        (#[trigger] v@[k]) as int,
                    ) by {}
                }
                v
            }
        },
    };
    proof {
        if agg == Aggregator::Sum {
            assert(vals@.len() == n);
        }
    }
    let mut out: Vec<i64> = Vec::new();
    let mut g: usize = 0;
    while g < group_count
        invariant
            g <= group_count,
            out@.len() == g,
            forall|k: int| 0 <= k < g ==> #[trigger] out@[k] == 0,
        decreases group_count - g,
    {
        out.push(0);
        g = g + 1;
    }
    let mut i: usize = 0;
    while i < n
        invariant
            i <= n,
            n == ids@.len(),
            out@.len() == group_count,
            agg == Aggregator::Sum ==> vals@.len() == n,
            agg == Aggregator::Sum ==> forall|k: int|
                0 <= k < n ==> lg[k] == LogVal::Int((#[trigger] vals@[k]) as int),
            forall|row: int| 0 <= row < n ==> (#[trigger] ids@[row]) < group_count,
            forall|k: int|
                0 <= k < group_count ==> (#[trigger] out@[k]) as int == agg_fold(
                    agg,
                    lg,
                    ids@,
                    k,
                    i as int,
                ),
        decreases n - i,
    {
        let gi = ids[i];
        let cur = out[gi];
        let nv = match agg {
            Aggregator::Count => sat_add(cur, 1),
            Aggregator::Sum => sat_add(cur, vals[i]),
        };
        out.set(gi, nv);
        proof {
            assert forall|k: int|
                0 <= k < group_count implies (#[trigger] out@[k]) as int == agg_fold(
                agg,
                lg,
                ids@,
                k,
                i as int + 1,
            ) by {
                assert(agg_fold(agg, lg, ids@, k, i as int + 1) == (if ids@[i as int] as int
                    == k {
                    match agg {
                        Aggregator::Count => sat64(agg_fold(agg, lg, ids@, k, i as int) + 1),
                        Aggregator::Sum => sat64(
                            agg_fold(agg, lg, ids@, k, i as int) + as_int(lg[i as int]),
                        ),
                    }
                } else {
                    agg_fold(agg, lg, ids@, k, i as int)
                }));
            }
        }
        i = i + 1;
    }
    TypedVec::Integer(out)
}

/// Summation preservation: under a codec whose offset is zero the physical
/// and logical values coincide, so a sum computed on the encoded buffer
/// equals the sum of the decoded values, group by group.
pub proof fn lemma_summation_preserved(tv: TypedVec, ids: Seq<usize>, g: int, upto: int)
    requires
        (match tv {
            TypedVec::Encoded(_, c) => c.offset == 0,
            _ => false,
        }),
    ensures
        tv.lgcl() == tv.phys(),
        agg_fold(Aggregator::Sum, tv.lgcl(), ids, g, upto) == agg_fold(
            Aggregator::Sum,
            tv.phys(),
            ids,
            g,
            upto,
        ),
{
    assert(tv.lgcl() =~= tv.phys());
}

} // verus!
