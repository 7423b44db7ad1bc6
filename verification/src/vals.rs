//! The logical value domain shared by every column representation, and a
//! total order on it used for `ORDER BY` and for sorting group keys.

use vstd::prelude::*;

verus! {

/// A logical (decoded) value: a boolean, a 64-bit integer widened to a
/// mathematical integer, or a string viewed as its character sequence.
/// Values of this type only ever appear in specifications.
pub enum LogVal {
    Bool(bool),
    Int(int),
    Str(Seq<char>),
}

/// An executable logical value, as it appears in group keys and column data.
pub enum Val {
    Bool(bool),
    Int(i64),
    Str(String),
}

impl View for Val {
    type V = LogVal;

    open spec fn view(&self) -> LogVal {
        match self {
            Val::Bool(b) => LogVal::Bool(*b),
            Val::Int(i) => LogVal::Int(*i as int),
            Val::Str(s) => LogVal::Str(s@),
        }
    }
}

/// Lexicographic "less than" on character sequences, comparing code points,
/// starting at position `i`.
pub open spec fn chars_lt_from(a: Seq<char>, b: Seq<char>, i: int) -> bool
    decreases b.len() - i,
{
    if i < 0 || i >= b.len() {
        false
    } else if i >= a.len() {
        true
    } else if (a[i] as int) < (b[i] as int) {
        true
    } else if a[i] == b[i] {
        chars_lt_from(a, b, i + 1)
    } else {
        false
    }
}

/// Lexicographic "less than" on whole character sequences.
pub open spec fn chars_lt(a: Seq<char>, b: Seq<char>) -> bool {
    chars_lt_from(a, b, 0)
}

/// Ranks the three kinds of logical value so that values of different kinds
/// compare by kind: booleans before integers before strings.
pub open spec fn kind_rank(v: LogVal) -> int {
    match v {
        LogVal::Bool(_) => 0,
        LogVal::Int(_) => 1,
        LogVal::Str(_) => 2,
    }
}

/// The strict total order on logical values.
pub open spec fn log_lt(a: LogVal, b: LogVal) -> bool {
    match (a, b) {
        (LogVal::Bool(x), LogVal::Bool(y)) => !x && y,
        (LogVal::Int(x), LogVal::Int(y)) => x < y,
        (LogVal::Str(x), LogVal::Str(y)) => chars_lt(x, y),
        _ => kind_rank(a) < kind_rank(b),
    }
}

pub proof fn lemma_chars_lt_irrefl(a: Seq<char>, i: int)
    ensures
        !chars_lt_from(a, a, i),
    decreases a.len() - i,
{
    if 0 <= i < a.len() {
        lemma_chars_lt_irrefl(a, i + 1);
    }
}

pub proof fn lemma_chars_lt_trans(a: Seq<char>, b: Seq<char>, c: Seq<char>, i: int)
    requires
        chars_lt_from(a, b, i),
        chars_lt_from(b, c, i),
    ensures
        chars_lt_from(a, c, i),
    decreases c.len() - i,
{
    if i < b.len() && i < a.len() && i < c.len() && a[i] == b[i] && b[i] == c[i] {
        lemma_chars_lt_trans(a, b, c, i + 1);
    }
}

pub proof fn lemma_chars_lt_total(a: Seq<char>, b: Seq<char>, i: int)
    requires
        0 <= i <= a.len(),
        i <= b.len(),
        !chars_lt_from(a, b, i),
        !chars_lt_from(b, a, i),
    ensures
        a.len() == b.len(),
        forall|j: int| i <= j < a.len() ==> a[j] == b[j],
    decreases a.len() - i,
{
    if i < a.len() && i < b.len() {
        if (a[i] as int) == (b[i] as int) {
            assert(a[i] == b[i]);
            lemma_chars_lt_total(a, b, i + 1);
        }
    }
}

pub proof fn lemma_log_lt_irrefl(a: LogVal)
    ensures
        !log_lt(a, a),
{
    match a {
        LogVal::Str(x) => lemma_chars_lt_irrefl(x, 0),
        _ => (),
    }
}

pub proof fn lemma_log_lt_trans(a: LogVal, b: LogVal, c: LogVal)
    requires
        log_lt(a, b),
        log_lt(b, c),
    ensures
        log_lt(a, c),
{
    match (a, b, c) {
        (LogVal::Str(x), LogVal::Str(y), LogVal::Str(z)) => lemma_chars_lt_trans(x, y, z, 0),
        _ => (),
    }
}

/// Two logical values that are each not below the other are equal: the order
/// is total.
pub proof fn lemma_log_lt_connected(a: LogVal, b: LogVal)
    requires
        !log_lt(a, b),
        !log_lt(b, a),
    ensures
        a == b,
{
    match (a, b) {
        (LogVal::Str(x), LogVal::Str(y)) => {
            lemma_chars_lt_total(x, y, 0);
            assert(x =~= y);
        },
        _ => (),
    }
}

/// The strict total order used to sort row positions `a` and `b` by their
/// keys: by key value (descending when `desc`), with ties broken by the
/// smaller position first, which preserves the original relative order of
/// equal keys.
pub open spec fn idx_lt(keys: Seq<LogVal>, a: int, b: int, desc: bool) -> bool {
    if keys[a] == keys[b] {
        a < b
    } else if desc {
        log_lt(keys[b], keys[a])
    } else {
        log_lt(keys[a], keys[b])
    }
}

/// Distinct positions are always ordered one way or the other.
pub proof fn lemma_idx_lt_connected(keys: Seq<LogVal>, a: int, b: int, desc: bool)
    requires
        a != b,
    ensures
        idx_lt(keys, a, b, desc) || idx_lt(keys, b, a, desc),
{
    if keys[a] != keys[b] {
        if !log_lt(keys[a], keys[b]) && !log_lt(keys[b], keys[a]) {
            lemma_log_lt_connected(keys[a], keys[b]);
        }
    }
}

pub proof fn lemma_idx_lt_trans(keys: Seq<LogVal>, a: int, b: int, c: int, desc: bool)
    requires
        idx_lt(keys, a, b, desc),
        idx_lt(keys, b, c, desc),
    ensures
        idx_lt(keys, a, c, desc),
{
    lemma_log_lt_irrefl(keys[a]);
    lemma_log_lt_irrefl(keys[b]);
    if keys[a] != keys[b] && keys[b] != keys[c] && keys[a] != keys[c] {
        if desc {
            lemma_log_lt_trans(keys[c], keys[b], keys[a]);
        } else {
            lemma_log_lt_trans(keys[a], keys[b], keys[c]);
        }
    } else if keys[a] != keys[b] && keys[b] != keys[c] && keys[a] == keys[c] {
        if desc {
            lemma_log_lt_trans(keys[b], keys[a], keys[b]);
        } else {
            lemma_log_lt_trans(keys[a], keys[b], keys[a]);
        }
        lemma_log_lt_irrefl(keys[c]);
    }
}

/// Compares two strings lexicographically by code point.
pub fn str_lt(a: &str, b: &str) -> (r: bool)
    ensures
        r == chars_lt(a@, b@),
{
    let alen = a.unicode_len();
    let blen = b.unicode_len();
    let mut i: usize = 0;
    loop
        invariant
            i <= alen,
            i <= blen,
            alen == a@.len(),
            blen == b@.len(),
            chars_lt(a@, b@) == chars_lt_from(a@, b@, i as int),
        decreases b@.len() - i,
    {
        if i >= blen {
            return false;
        }
        if i >= alen {
            return true;
        }
        let ca = a.get_char(i);
        let cb = b.get_char(i);
        if (ca as u32) < (cb as u32) {
            return true;
        }
        if (ca as u32) > (cb as u32) {
            return false;
        }
        assert(ca == cb);
        i = i + 1;
    }
}

/// Compares two values in the total order on the logical domain.
pub fn val_lt(a: &Val, b: &Val) -> (r: bool)
    ensures
        r == log_lt(a@, b@),
{
    match (a, b) {
        (Val::Bool(x), Val::Bool(y)) => !*x && *y,
        (Val::Bool(_), _) => true,
        (Val::Int(x), Val::Int(y)) => *x < *y,
        (Val::Int(_), Val::Str(_)) => true,
        (Val::Str(x), Val::Str(y)) => str_lt(x.as_str(), y.as_str()),
        _ => false,
    }
}

/// Decides logical equality of two values.
pub fn val_eq(a: &Val, b: &Val) -> (r: bool)
    ensures
        r == (a@ == b@),
{
    match (a, b) {
        (Val::Bool(x), Val::Bool(y)) => *x == *y,
        (Val::Int(x), Val::Int(y)) => *x == *y,
        (Val::Str(x), Val::Str(y)) => *x == *y,
        _ => false,
    }
}

/// The logical view of a tuple of values, one entry per key expression.
pub open spec fn tuple_view(t: Seq<Val>) -> Seq<LogVal> {
    Seq::new(t.len(), |i: int| t[i]@)
}

/// Lexicographic "less than" on value tuples, starting at position `i`:
/// entries compare in the total order on logical values, and a shorter
/// tuple that is a prefix of a longer one comes first.
pub open spec fn logs_lt_from(a: Seq<LogVal>, b: Seq<LogVal>, i: int) -> bool
    decreases b.len() - i,
{
    if i < 0 || i >= b.len() {
        false
    } else if i >= a.len() {
        true
    } else if log_lt(a[i], b[i]) {
        true
    } else if a[i] == b[i] {
        logs_lt_from(a, b, i + 1)
    } else {
        false
    }
}

/// Lexicographic "less than" on whole value tuples.
pub open spec fn logs_lt(a: Seq<LogVal>, b: Seq<LogVal>) -> bool {
    logs_lt_from(a, b, 0)
}

pub proof fn lemma_logs_lt_irrefl(a: Seq<LogVal>, i: int)
    ensures
        !logs_lt_from(a, a, i),
    decreases a.len() - i,
{
    if 0 <= i < a.len() {
        lemma_log_lt_irrefl(a[i]);
        lemma_logs_lt_irrefl(a, i + 1);
    }
}

pub proof fn lemma_logs_lt_trans(a: Seq<LogVal>, b: Seq<LogVal>, c: Seq<LogVal>, i: int)
    requires
        logs_lt_from(a, b, i),
        logs_lt_from(b, c, i),
    ensures
        logs_lt_from(a, c, i),
    decreases c.len() - i,
{
    if i < b.len() && i < a.len() && i < c.len() {
        lemma_log_lt_irrefl(a[i]);
        lemma_log_lt_irrefl(b[i]);
        if log_lt(a[i], b[i]) && log_lt(b[i], c[i]) {
            lemma_log_lt_trans(a[i], b[i], c[i]);
        } else if a[i] == b[i] && b[i] == c[i] {
            lemma_logs_lt_trans(a, b, c, i + 1);
        }
    }
}

pub proof fn lemma_logs_lt_total(a: Seq<LogVal>, b: Seq<LogVal>, i: int)
    requires
        0 <= i <= a.len(),
        i <= b.len(),
        !logs_lt_from(a, b, i),
        !logs_lt_from(b, a, i),
    ensures
        a.len() == b.len(),
        forall|j: int| i <= j < a.len() ==> a[j] == b[j],
    decreases a.len() - i,
{
    if i < a.len() && i < b.len() {
        if !log_lt(a[i], b[i]) && !log_lt(b[i], a[i]) {
            lemma_log_lt_connected(a[i], b[i]);
            lemma_logs_lt_total(a, b, i + 1);
        }
    }
}

/// The strict total order used to sort group positions `a` and `b` by their
/// key tuples: by tuple, lexicographically, with ties broken by the smaller
/// position first.
pub open spec fn tuple_idx_lt(keys: Seq<Seq<LogVal>>, a: int, b: int) -> bool {
    if keys[a] == keys[b] {
        a < b
    } else {
        logs_lt(keys[a], keys[b])
    }
}

/// Distinct group positions are always ordered one way or the other.
pub proof fn lemma_tuple_idx_lt_connected(keys: Seq<Seq<LogVal>>, a: int, b: int)
    requires
        a != b,
    ensures
        tuple_idx_lt(keys, a, b) || tuple_idx_lt(keys, b, a),
{
    if keys[a] != keys[b] {
        if !logs_lt(keys[a], keys[b]) && !logs_lt(keys[b], keys[a]) {
            lemma_logs_lt_total(keys[a], keys[b], 0);
            assert(keys[a] =~= keys[b]);
        }
    }
}

pub proof fn lemma_tuple_idx_lt_trans(keys: Seq<Seq<LogVal>>, a: int, b: int, c: int)
    requires
        tuple_idx_lt(keys, a, b),
        tuple_idx_lt(keys, b, c),
    ensures
        tuple_idx_lt(keys, a, c),
{
    lemma_logs_lt_irrefl(keys[a], 0);
    lemma_logs_lt_irrefl(keys[b], 0);
    if keys[a] != keys[b] && keys[b] != keys[c] && keys[a] != keys[c] {
        lemma_logs_lt_trans(keys[a], keys[b], keys[c], 0);
    } else if keys[a] != keys[b] && keys[b] != keys[c] && keys[a] == keys[c] {
        lemma_logs_lt_trans(keys[a], keys[b], keys[a], 0);
        lemma_logs_lt_irrefl(keys[c], 0);
    }
}

/// Decides logical equality of two value tuples.
pub fn vals_eq(a: &Vec<Val>, b: &Vec<Val>) -> (r: bool)
    ensures
        r == (tuple_view(a@) == tuple_view(b@)),
{
    let n = a.len();
    if n != b.len() {
        proof {
            assert(tuple_view(a@).len() != tuple_view(b@).len());
        }
        return false;
    }
    let mut i: usize = 0;
    while i < n
        invariant
            i <= n,
            n == a@.len(),
            n == b@.len(),
            forall|k: int| 0 <= k < i ==> tuple_view(a@)[k] == tuple_view(b@)[k],
        decreases n - i,
    {
        if !val_eq(&a[i], &b[i]) {
            proof {
                assert(tuple_view(a@)[i as int] != tuple_view(b@)[i as int]);
            }
            return false;
        }
        i = i + 1;
    }
    proof {
        assert(tuple_view(a@) =~= tuple_view(b@));
    }
    true
}

/// Compares two value tuples lexicographically.
pub fn vals_lt(a: &Vec<Val>, b: &Vec<Val>) -> (r: bool)
    ensures
        r == logs_lt(tuple_view(a@), tuple_view(b@)),
{
    let alen = a.len();
    let blen = b.len();
    let mut i: usize = 0;
    loop
        invariant
            i <= alen,
            i <= blen,
            alen == a@.len(),
            blen == b@.len(),
            logs_lt(tuple_view(a@), tuple_view(b@)) == logs_lt_from(
                tuple_view(a@),
                tuple_view(b@),
                i as int,
            ),
        decreases b@.len() - i,
    {
        if i >= blen {
            return false;
        }
        if i >= alen {
            return true;
        }
        if val_lt(&a[i], &b[i]) {
            return true;
        }
        if !val_eq(&a[i], &b[i]) {
            return false;
        }
        i = i + 1;
    }
}

} // verus!
