//! The runtime-tagged columnar buffer produced by plan execution, with its
//! physical and logical views, decoding, the order-preserving
//! reinterpretation, stable sort-index computation, and gather-then-decode.

use vstd::prelude::*;
use crate::codec::IntegerOffsetCodec;
use crate::column::EncodedVals;
use crate::vals::{LogVal, Val, idx_lt, lemma_idx_lt_connected, lemma_idx_lt_trans, str_lt};

verus! {

/// A physical columnar value: a boolean mask, plain integers, strings, or an
/// encoded buffer together with the codec that decodes it.
pub enum TypedVec {
    Boolean(Vec<bool>),
    Integer(Vec<i64>),
    Str(Vec<String>),
    Encoded(EncodedVals, IntegerOffsetCodec),
}

impl TypedVec {
    /// The physical values as stored, without decoding.
    pub open spec fn phys(&self) -> Seq<LogVal> {
        match self {
            TypedVec::Boolean(v) => Seq::new(v@.len(), |k: int| LogVal::Bool(v@[k])),
            TypedVec::Integer(v) => Seq::new(v@.len(), |k: int| LogVal::Int(v@[k] as int)),
            TypedVec::Str(v) => Seq::new(v@.len(), |k: int| LogVal::Str(v@[k]@)),
            TypedVec::Encoded(e, _) => Seq::new(e.raws().len(), |k: int| LogVal::Int(e.raws()[k])),
        }
    }

    /// The logical values: the physical values run through the codec.
    pub open spec fn lgcl(&self) -> Seq<LogVal> {
        match self {
            TypedVec::Encoded(e, c) => Seq::new(
                e.raws().len(),
                |k: int| LogVal::Int(e.raws()[k] + c.offset as int),
            ),
            _ => self.phys(),
        }
    }

    pub open spec fn wf(&self) -> bool {
        match self {
            TypedVec::Encoded(e, c) => {
                &&& c.width == e.spec_width()
                &&& forall|k: int|
                    0 <= k < e.raws().len() ==> i64::MIN <= #[trigger] e.raws()[k]
                        + c.offset as int <= i64::MAX
            },
            _ => true,
        }
    }

    /// Kinds whose physical values are integers.
    pub open spec fn is_int_phys(&self) -> bool {
        self is Integer || self is Encoded
    }

    /// Kinds that sort-index computation accepts.
    pub open spec fn sortable(&self) -> bool {
        self is Integer || self is Str
    }

    pub fn len(&self) -> (r: usize)
        ensures
            r == self.phys().len(),
    {
        match self {
            TypedVec::Boolean(v) => v.len(),
            TypedVec::Integer(v) => v.len(),
            TypedVec::Str(v) => v.len(),
            TypedVec::Encoded(e, _) => e.len(),
        }
    }

    /// Applies the owning codec (identity for plain kinds), yielding the
    /// logical value sequence.
    pub fn decode(self) -> (r: TypedVec)
        requires
            self.wf(),
        ensures
            r.wf(),
            !(r is Encoded),
            r.phys() == self.lgcl(),
            r is Boolean <==> self is Boolean,
            r is Str <==> self is Str,
    {
        match self {
            TypedVec::Encoded(e, c) => {
                let r = TypedVec::Integer(decode_raws(&e, c.offset));
                assert(r.phys() =~= TypedVec::Encoded(e, c).lgcl());
                r
            },
            other => other,
        }
    }

    /// A cheap reinterpretation that is safe to sort without decoding: for an
    /// encoded buffer it returns the physical values unchanged, which order
    /// exactly as the logical values do because the codec is a monotonic
    /// shift. Callers decode separately after sorting.
    pub fn order_preserving(self) -> (r: TypedVec)
        requires
            self.wf(),
            !(self is Boolean),
        ensures
            r.wf(),
            r.sortable(),
            !(self is Encoded) ==> r == self,
            r.phys().len() == self.lgcl().len(),
            forall|i: int, j: int|
                0 <= i < r.phys().len() && 0 <= j < r.phys().len() ==> (crate::vals::log_lt(
                    #[trigger] r.phys()[i],
                    #[trigger] r.phys()[j],
                ) <==> crate::vals::log_lt(self.lgcl()[i], self.lgcl()[j])),
            forall|i: int, j: int|
                0 <= i < r.phys().len() && 0 <= j < r.phys().len() ==> ((#[trigger] r.phys()[i]
                    == #[trigger] r.phys()[j]) <==> self.lgcl()[i] == self.lgcl()[j]),
    {
        match self {
            TypedVec::Encoded(e, c) => TypedVec::Integer(raws_to_i64(&e)),
            other => other,
        }
    }

    /// Applies the given row positions in order, then decodes: the gather
    /// used to materialize sorted or grouped results.
    pub fn index_decode(&self, indices: &Vec<usize>) -> (r: TypedVec)
        requires
            self.wf(),
            forall|k: int| 0 <= k < indices@.len() ==> #[trigger] indices@[k] < self.phys().len(),
        ensures
            r.wf(),
            !(r is Encoded),
            r.phys() == Seq::new(indices@.len(), |k: int| self.lgcl()[indices@[k] as int]),
            r is Boolean <==> self is Boolean,
            r is Str <==> self is Str,
    {
        let n = indices.len();
        match self {
            TypedVec::Boolean(v) => {
                let mut out: Vec<bool> = Vec::new();
                let mut i: usize = 0;
                while i < n
                    invariant
                        i <= n,
                        n == indices@.len(),
                        out@.len() == i,
                        forall|k: int| 0 <= k < indices@.len() ==> #[trigger] indices@[k] < v@.len(),
                        forall|k: int| 0 <= k < i ==> out@[k] == v@[indices@[k] as int],
                    decreases n - i,
                {
                    out.push(v[indices[i]]);
                    i = i + 1;
                }
                let r = TypedVec::Boolean(out);
                assert(r.phys() =~= Seq::new(
                    indices@.len(),
                    |k: int| self.lgcl()[indices@[k] as int],
                ));
                r
            },
            TypedVec::Integer(v) => {
                let mut out: Vec<i64> = Vec::new();
                let mut i: usize = 0;
                while i < n
                    invariant
                        i <= n,
                        n == indices@.len(),
                        out@.len() == i,
                        forall|k: int| 0 <= k < indices@.len() ==> #[trigger] indices@[k] < v@.len(),
                        forall|k: int| 0 <= k < i ==> out@[k] == v@[indices@[k] as int],
                    decreases n - i,
                {
                    out.push(v[indices[i]]);
                    i = i + 1;
                }
                let r = TypedVec::Integer(out);
                assert(r.phys() =~= Seq::new(
                    indices@.len(),
                    |k: int| self.lgcl()[indices@[k] as int],
                ));
                r
            },
            TypedVec::Str(v) => {
                let mut out: Vec<String> = Vec::new();
                let mut i: usize = 0;
                while i < n
                    invariant
                        i <= n,
                        n == indices@.len(),
                        out@.len() == i,
                        forall|k: int| 0 <= k < indices@.len() ==> #[trigger] indices@[k] < v@.len(),
                        forall|k: int| 0 <= k < i ==> out@[k]@ == v@[indices@[k] as int]@,
                    decreases n - i,
                {
                    out.push(v[indices[i]].clone());
                    i = i + 1;
                }
                let r = TypedVec::Str(out);
                assert(r.phys() =~= Seq::new(
                    indices@.len(),
                    |k: int| self.lgcl()[indices@[k] as int],
                ));
                r
            },
            TypedVec::Encoded(e, c) => {
                let raw = decode_raws(e, c.offset);
                let mut out: Vec<i64> = Vec::new();
                let mut i: usize = 0;
                while i < n
                    invariant
                        i <= n,
                        n == indices@.len(),
                        out@.len() == i,
                        raw@.len() == e.raws().len(),
                        forall|k: int|
                            0 <= k < raw@.len() ==> #[trigger] raw@[k] as int == e.raws()[k]
                                + c.offset as int,
                        forall|k: int|
                            0 <= k < indices@.len() ==> #[trigger] indices@[k] < raw@.len(),
                        forall|k: int| 0 <= k < i ==> out@[k] == raw@[indices@[k] as int],
                    decreases n - i,
                {
                    out.push(raw[indices[i]]);
                    i = i + 1;
                }
                let r = TypedVec::Integer(out);
                assert(r.phys() =~= Seq::new(
                    indices@.len(),
                    |k: int| self.lgcl()[indices@[k] as int],
                ));
                r
            },
        }
    }

    /// Extracts the physical values of an integer-valued buffer.
    pub fn into_ints(self) -> (r: Vec<i64>)
        requires
            self.is_int_phys(),
        ensures
            r@.len() == self.phys().len(),
            forall|k: int|
                0 <= k < r@.len() ==> self.phys()[k] == LogVal::Int((#[trigger] r@[k]) as int),
    {
        match self {
            TypedVec::Integer(v) => v,
            TypedVec::Encoded(e, _) => raws_to_i64(&e),
            _ => Vec::new(),
        }
    }

    /// Extracts a boolean mask.
    pub fn into_bools(self) -> (r: Vec<bool>)
        requires
            self is Boolean,
        ensures
            r@.len() == self.phys().len(),
            forall|k: int|
                0 <= k < r@.len() ==> self.phys()[k] == LogVal::Bool(#[trigger] r@[k]),
    {
        match self {
            TypedVec::Boolean(v) => v,
            _ => Vec::new(),
        }
    }

    /// The value at one row, as an owned `Val`.
    pub fn val_at(&self, i: usize) -> (r: Val)
        requires
            i < self.phys().len(),
        ensures
            r@ == self.phys()[i as int],
    {
        match self {
            TypedVec::Boolean(v) => Val::Bool(v[i]),
            TypedVec::Integer(v) => Val::Int(v[i]),
            TypedVec::Str(v) => Val::Str(v[i].clone()),
            TypedVec::Encoded(e, _) => match e {
                EncodedVals::B8(v) => Val::Int(v[i] as i64),
                EncodedVals::B16(v) => Val::Int(v[i] as i64),
                EncodedVals::B32(v) => Val::Int(v[i] as i64),
            },
        }
    }

    /// Compares the keys at two row positions in the order used by the
    /// sort-index computation.
    fn pos_lt(&self, a: usize, b: usize, desc: bool) -> (r: bool)
        requires
            self.sortable(),
            a < self.phys().len(),
            b < self.phys().len(),
        ensures
            r == idx_lt(self.phys(), a as int, b as int, desc),
    {
        match self {
            TypedVec::Integer(v) => {
                if v[a] == v[b] {
                    a < b
                } else if desc {
                    v[b] < v[a]
                } else {
                    v[a] < v[b]
                }
            },
            TypedVec::Str(v) => {
                if v[a].eq(&v[b]) {
                    a < b
                } else if desc {
                    str_lt(v[b].as_str(), v[a].as_str())
                } else {
                    str_lt(v[a].as_str(), v[b].as_str())
                }
            },
            _ => false,
        }
    }

    /// Stable ascending sort-index computation: reorders the given distinct
    /// row positions so that their keys ascend, equal keys keeping the
    /// smaller position first.
    pub fn sort_indices_asc(&self, indices: &mut Vec<usize>)
        requires
            self.sortable(),
            forall|k: int|
                0 <= k < old(indices)@.len() ==> #[trigger] old(indices)@[k] < self.phys().len(),
            forall|p: int, q: int|
                0 <= p < q < old(indices)@.len() ==> old(indices)@[p] != old(indices)@[q],
        ensures
            final(indices)@.len() == old(indices)@.len(),
            forall|x: usize| final(indices)@.contains(x) <==> old(indices)@.contains(x),
            forall|p: int, q: int|
                0 <= p < q < final(indices)@.len() ==> idx_lt(
                    self.phys(),
                    (#[trigger] final(indices)@[p]) as int,
                    (#[trigger] final(indices)@[q]) as int,
                    false,
                ),
    {
        self.sort_indices_by(indices, false)
    }

    /// Stable descending sort-index computation.
    pub fn sort_indices_desc(&self, indices: &mut Vec<usize>)
        requires
            self.sortable(),
            forall|k: int|
                0 <= k < old(indices)@.len() ==> #[trigger] old(indices)@[k] < self.phys().len(),
            forall|p: int, q: int|
                0 <= p < q < old(indices)@.len() ==> old(indices)@[p] != old(indices)@[q],
        ensures
            final(indices)@.len() == old(indices)@.len(),
            forall|x: usize| final(indices)@.contains(x) <==> old(indices)@.contains(x),
            forall|p: int, q: int|
                0 <= p < q < final(indices)@.len() ==> idx_lt(
                    self.phys(),
                    (#[trigger] final(indices)@[p]) as int,
                    (#[trigger] final(indices)@[q]) as int,
                    true,
                ),
    {
        self.sort_indices_by(indices, true)
    }

    /// Insertion sort of row positions into a fresh list. The order
    /// `idx_lt` is strict and total on distinct positions, so the sorted
    /// output is unique.
    fn sort_indices_by(&self, indices: &mut Vec<usize>, desc: bool)
        requires
            self.sortable(),
            forall|k: int|
                0 <= k < old(indices)@.len() ==> #[trigger] old(indices)@[k] < self.phys().len(),
            forall|p: int, q: int|
                0 <= p < q < old(indices)@.len() ==> old(indices)@[p] != old(indices)@[q],
        ensures
            final(indices)@.len() == old(indices)@.len(),
            forall|x: usize| final(indices)@.contains(x) <==> old(indices)@.contains(x),
            forall|p: int, q: int|
                0 <= p < q < final(indices)@.len() ==> idx_lt(
                    self.phys(),
                    (#[trigger] final(indices)@[p]) as int,
                    (#[trigger] final(indices)@[q]) as int,
                    desc,
                ),
    {
        let ghost orig = indices@;
        let ghost keys = self.phys();
        let mut out: Vec<usize> = Vec::new();
        let n = indices.len();
        let mut i: usize = 0;
        while i < n
            invariant
                indices@ == orig,
                n == orig.len(),
                i <= n,
                self.sortable(),
                keys == self.phys(),
                forall|k: int| 0 <= k < orig.len() ==> #[trigger] orig[k] < keys.len(),
                forall|p: int, q: int| 0 <= p < q < orig.len() ==> orig[p] != orig[q],
                out@.len() == i,
                forall|k: int| 0 <= k < out@.len() ==> #[trigger] out@[k] < keys.len(),
                forall|x: usize| out@.contains(x) ==> orig.take(i as int).contains(x),
                forall|x: usize| orig.take(i as int).contains(x) ==> out@.contains(x),
                forall|p: int, q: int|
                    0 <= p < q < out@.len() ==> idx_lt(
                        keys,
                        (#[trigger] out@[p]) as int,
                        (#[trigger] out@[q]) as int,
                        desc,
                    ),
            decreases n - i,
        {
            let e = indices[i];
            proof {
                // `e` is not yet in `out`: it sits at position `i` of the
                // distinct original list, and `out` holds earlier entries.
                assert(!out@.contains(e)) by {
                    if out@.contains(e) {
                        assert(orig.take(i as int).contains(e));
                        let j = choose|j: int|
                            0 <= j < orig.take(i as int).len() && #[trigger] orig.take(
                                i as int,
                            )[j] == e;
                        assert(orig[j] == e);
                        assert(orig[i as int] == e);
                        assert(false);
                    }
                }
            }
            let mut p: usize = 0;
            while p < out.len() && self.pos_lt(out[p], e, desc)
                invariant
                    p <= out@.len(),
                    e < keys.len(),
                    self.sortable(),
                    keys == self.phys(),
                    forall|k: int| 0 <= k < out@.len() ==> #[trigger] out@[k] < keys.len(),
                    forall|q: int|
                        0 <= q < p ==> idx_lt(keys, (#[trigger] out@[q]) as int, e as int, desc),
                decreases out@.len() - p,
            {
                p = p + 1;
            }
            proof {
                if p < out@.len() {
                    assert(out@.contains(out@[p as int]));
                    assert(out@[p as int] != e);
                    lemma_idx_lt_connected(keys, e as int, out@[p as int] as int, desc);
                }
            }
            let ghost before = out@;
            out.insert(p, e);
            proof {
                let s = before.insert(p as int, e);
                assert(out@ == s);
                assert forall|a: int, b: int| 0 <= a < b < s.len() implies idx_lt(
                    keys,
                    s[a] as int,
                    s[b] as int,
                    desc,
                ) by {
                    if b < p {
                        assert(s[a] == before[a] && s[b] == before[b]);
                    } else if a > p {
                        assert(s[a] == before[a - 1] && s[b] == before[b - 1]);
                    } else if a < p && b == p {
                        assert(s[a] == before[a] && s[b] == e);
                    } else if a == p && b > p {
                        assert(s[a] == e && s[b] == before[b - 1]);
                        if p < before.len() {
                            assert(idx_lt(keys, e as int, before[p as int] as int, desc));
                            if b - 1 > p {
                                lemma_idx_lt_trans(
                                    keys,
                                    e as int,
                                    before[p as int] as int,
                                    before[b - 1] as int,
                                    desc,
                                );
                            }
                        }
                    } else if a < p && b > p {
                        assert(s[a] == before[a] && s[b] == before[b - 1]);
                        if b - 1 == a {
                            assert(false);
                        }
                    }
                }
                assert forall|x: usize| out@.contains(x) implies orig.take(
                    i as int + 1,
                ).contains(x) by {
                    let j = choose|j: int| 0 <= j < out@.len() && #[trigger] out@[j] == x;
                    if x == e {
                        assert(orig.take(i as int + 1)[i as int] == e);
                    } else {
                        if j < p {
                            assert(before[j] == x);
                        } else {
                            assert(before[j - 1] == x);
                        }
                        assert(before.contains(x));
                        let m = choose|m: int| 0 <= m < i && #[trigger] orig.take(i as int)[m] == x;
                        assert(orig.take(i as int + 1)[m] == x);
                    }
                }
                assert forall|x: usize| orig.take(i as int + 1).contains(x) implies out@.contains(
                    x,
                ) by {
                    let j = choose|j: int| 0 <= j <= i && #[trigger] orig.take(i as int + 1)[j] == x;
                    if j == i {
                        assert(out@[p as int] == x);
                    } else {
                        assert(orig.take(i as int)[j] == x);
                        assert(before.contains(x));
                        let m = choose|m: int| 0 <= m < before.len() && #[trigger] before[m] == x;
                        if m < p {
                            assert(out@[m] == x);
                        } else {
                            assert(out@[m + 1] == x);
                        }
                    }
                }
            }
            i = i + 1;
        }
        proof {
            assert(orig.take(n as int) =~= orig);
        }
        *indices = out;
    }
}

/// Decodes an encoded buffer by adding the codec offset to every physical
/// value.
fn decode_raws(e: &EncodedVals, offset: i64) -> (r: Vec<i64>)
    requires
        forall|k: int|
            0 <= k < e.raws().len() ==> i64::MIN <= #[trigger] e.raws()[k] + offset as int
                <= i64::MAX,
    ensures
        r@.len() == e.raws().len(),
        forall|k: int| 0 <= k < r@.len() ==> #[trigger] r@[k] as int == e.raws()[k] + offset as int,
{
    let n = e.len();
    let mut out: Vec<i64> = Vec::new();
    let mut i: usize = 0;
    while i < n
        invariant
            i <= n,
            n == e.raws().len(),
            out@.len() == i,
            forall|k: int|
                0 <= k < e.raws().len() ==> i64::MIN <= #[trigger] e.raws()[k] + offset as int
                    <= i64::MAX,
            forall|k: int|
                0 <= k < i ==> #[trigger] out@[k] as int == e.raws()[k] + offset as int,
        decreases n - i,
    {
        let raw: i64 = match e {
            EncodedVals::B8(v) => v[i] as i64,
            EncodedVals::B16(v) => v[i] as i64,
            EncodedVals::B32(v) => v[i] as i64,
        };
        assert(raw as int == e.raws()[i as int]);
        out.push(raw + offset);
        i = i + 1;
    }
    out
}

/// Widens an encoded buffer's physical values to 64 bits without decoding.
fn raws_to_i64(e: &EncodedVals) -> (r: Vec<i64>)
    ensures
        r@.len() == e.raws().len(),
        forall|k: int| 0 <= k < r@.len() ==> #[trigger] r@[k] as int == e.raws()[k],
{
    let n = e.len();
    let mut out: Vec<i64> = Vec::new();
    let mut i: usize = 0;
    while i < n
        invariant
            i <= n,
            n == e.raws().len(),
            out@.len() == i,
            forall|k: int| 0 <= k < i ==> #[trigger] out@[k] as int == e.raws()[k],
        decreases n - i,
    {
        let raw: i64 = match e {
            EncodedVals::B8(v) => v[i] as i64,
            EncodedVals::B16(v) => v[i] as i64,
            EncodedVals::B32(v) => v[i] as i64,
        };
        assert(raw as int == e.raws()[i as int]);
        out.push(raw);
        i = i + 1;
    }
    out
}

/// Sorting without decoding agrees with sorting after decoding: when a view
/// preserves the order and the equalities of the decoded values, the sort
/// order of any two positions is the same under either key sequence. The
/// hypotheses are exactly what `order_preserving` ensures.
pub proof fn lemma_sort_on_view_agrees(
    pv: Seq<LogVal>,
    lv: Seq<LogVal>,
    a: int,
    b: int,
    desc: bool,
)
    requires
        pv.len() == lv.len(),
        0 <= a < pv.len(),
        0 <= b < pv.len(),
        forall|i: int, j: int|
            0 <= i < pv.len() && 0 <= j < pv.len() ==> (crate::vals::log_lt(
                #[trigger] pv[i],
                #[trigger] pv[j],
            ) <==> crate::vals::log_lt(lv[i], lv[j])),
        forall|i: int, j: int|
            0 <= i < pv.len() && 0 <= j < pv.len() ==> ((#[trigger] pv[i] == #[trigger] pv[j])
                <==> lv[i] == lv[j]),
    ensures
        idx_lt(pv, a, b, desc) == idx_lt(lv, a, b, desc),
{
}

} // verus!
