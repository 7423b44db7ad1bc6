//! The row-restriction context threaded through plan compilation: no
//! restriction, a shared boolean mask, or a shared explicit position list.
//! Cloning shares the underlying buffer and is O(1).

use vstd::prelude::*;
use std::rc::Rc;

verus! {

/// A row restriction. The underlying buffers are reference-counted and
/// immutable, so every expression compiled in one query sees an identical
/// restriction without the buffer ever being copied.
pub enum Filter {
    All,
    BitVec(Rc<Vec<bool>>),
    Indices(Rc<Vec<usize>>),
}

/// The mathematical content of a `Filter`.
pub enum FilterRep {
    All,
    Mask(Seq<bool>),
    Positions(Seq<usize>),
}

impl View for Filter {
    type V = FilterRep;

    open spec fn view(&self) -> FilterRep {
        match self {
            Filter::All => FilterRep::All,
            Filter::BitVec(m) => FilterRep::Mask((*m)@),
            Filter::Indices(p) => FilterRep::Positions((*p)@),
        }
    }
}

/// The positions of the rows a mask includes, in ascending order.
pub open spec fn mask_positions(m: Seq<bool>) -> Seq<int>
    decreases m.len(),
{
    if m.len() == 0 {
        Seq::empty()
    } else if m.last() {
        mask_positions(m.drop_last()).push(m.len() - 1)
    } else {
        mask_positions(m.drop_last())
    }
}

/// The row positions a filter includes over `n` underlying rows, in the
/// order a read produces them.
pub open spec fn included(f: FilterRep, n: int) -> Seq<int> {
    match f {
        FilterRep::All => Seq::new(n as nat, |k: int| k),
        FilterRep::Mask(m) => mask_positions(m),
        FilterRep::Positions(p) => Seq::new(p.len(), |k: int| p[k] as int),
    }
}

/// Whether a filter fits a column set of `n` rows: a mask covers every row
/// exactly once and explicit positions stay in range.
pub open spec fn filter_wf(f: FilterRep, n: int) -> bool {
    match f {
        FilterRep::All => true,
        FilterRep::Mask(m) => m.len() == n,
        FilterRep::Positions(p) => forall|k: int| 0 <= k < p.len() ==> #[trigger] p[k] < n,
    }
}

pub proof fn lemma_mask_positions_in_range(m: Seq<bool>)
    ensures
        forall|k: int|
            0 <= k < mask_positions(m).len() ==> 0 <= #[trigger] mask_positions(m)[k] < m.len(),
    decreases m.len(),
{
    if m.len() > 0 {
        lemma_mask_positions_in_range(m.drop_last());
        assert forall|k: int|
            0 <= k < mask_positions(m).len() implies 0 <= #[trigger] mask_positions(m)[k]
            < m.len() by {
            if !m.last() || k < mask_positions(m).len() - 1 {
                assert(mask_positions(m)[k] == mask_positions(m.drop_last())[k]);
            }
        }
    }
}

/// The positions of a mask come out in strictly ascending order.
pub proof fn lemma_mask_positions_increasing(m: Seq<bool>)
    ensures
        forall|p: int, q: int|
            0 <= p < q < mask_positions(m).len() ==> #[trigger] mask_positions(m)[p]
                < #[trigger] mask_positions(m)[q],
    decreases m.len(),
{
    if m.len() > 0 {
        lemma_mask_positions_increasing(m.drop_last());
        lemma_mask_positions_in_range(m.drop_last());
        assert forall|p: int, q: int|
            0 <= p < q < mask_positions(m).len() implies #[trigger] mask_positions(m)[p]
            < #[trigger] mask_positions(m)[q] by {
            if !m.last() || q < mask_positions(m).len() - 1 {
                assert(mask_positions(m)[p] == mask_positions(m.drop_last())[p]);
                assert(mask_positions(m)[q] == mask_positions(m.drop_last())[q]);
            } else {
                assert(mask_positions(m)[p] == mask_positions(m.drop_last())[p]);
                assert(mask_positions(m.drop_last())[p] < m.len() - 1);
            }
        }
    }
}

pub proof fn lemma_included_in_range(f: FilterRep, n: int)
    requires
        0 <= n,
        filter_wf(f, n),
    ensures
        forall|k: int|
            0 <= k < included(f, n).len() ==> 0 <= #[trigger] included(f, n)[k] < n,
{
    match f {
        FilterRep::Mask(m) => {
            lemma_mask_positions_in_range(m);
            assert forall|k: int|
                0 <= k < included(f, n).len() implies 0 <= #[trigger] included(f, n)[k] < n by {
                assert(included(f, n) == mask_positions(m));
                assert(0 <= mask_positions(m)[k] < m.len());
                assert(m.len() == n);
            }
        },
        FilterRep::All => {
            assert forall|k: int|
                0 <= k < included(f, n).len() implies 0 <= #[trigger] included(f, n)[k] < n by {
                assert(included(f, n).len() == n as nat);
                assert(included(f, n)[k] == k);
            }
        },
        FilterRep::Positions(p) => {
            assert forall|k: int|
                0 <= k < included(f, n).len() implies 0 <= #[trigger] included(f, n)[k] < n by {
                assert(included(f, n)[k] == p[k] as int);
                assert(p[k] < n);
            }
        },
    }
}

/// Filter idempotence: which rows a filter includes depends on its content
/// alone, so a clone, which holds the same content, restricts to exactly
/// the rows of the original however often it is applied.
pub proof fn lemma_filter_reuse(f1: FilterRep, f2: FilterRep, n: int)
    requires
        f1 == f2,
    ensures
        included(f1, n) == included(f2, n),
{
}

/// Relies on std's `Rc::clone`: the returned handle shares the same
/// allocation, so it holds the very same mask.
#[verifier::external_body]
fn rc_clone_mask(v: &Rc<Vec<bool>>) -> (r: Rc<Vec<bool>>)
    ensures
        r == *v,
{
    Rc::clone(v)
}

/// Relies on std's `Rc::clone`: the returned handle shares the same
/// allocation, so it holds the very same position list.
#[verifier::external_body]
fn rc_clone_positions(v: &Rc<Vec<usize>>) -> (r: Rc<Vec<usize>>)
    ensures
        r == *v,
{
    Rc::clone(v)
}

impl Clone for Filter {
    /// An O(1) clone that shares the underlying buffer: the clone restricts
    /// to exactly the same rows.
    fn clone(&self) -> (r: Self)
        ensures
            r@ == self@,
    {
        match self {
            Filter::All => Filter::All,
            Filter::BitVec(m) => Filter::BitVec(rc_clone_mask(m)),
            Filter::Indices(p) => Filter::Indices(rc_clone_positions(p)),
        }
    }
}

impl Filter {
    /// Materializes the included row positions over `n` underlying rows, in
    /// read order.
    pub fn positions(&self, n: usize) -> (r: Vec<usize>)
        requires
            filter_wf(self@, n as int),
        ensures
            r@.len() == included(self@, n as int).len(),
            forall|k: int|
                0 <= k < r@.len() ==> #[trigger] r@[k] as int == included(self@, n as int)[k],
            forall|k: int| 0 <= k < r@.len() ==> #[trigger] r@[k] < n,
    {
        proof {
            lemma_included_in_range(self@, n as int);
        }
        match self {
            Filter::All => {
                let mut out: Vec<usize> = Vec::new();
                let mut i: usize = 0;
                while i < n
                    invariant
                        i <= n,
                        out@.len() == i,
                        forall|k: int| 0 <= k < i ==> #[trigger] out@[k] == k,
                    decreases n - i,
                {
                    out.push(i);
                    i = i + 1;
                }
                out
            },
            Filter::BitVec(m) => {
                let mut out: Vec<usize> = Vec::new();
                let mut i: usize = 0;
                let len = m.len();
                while i < len
                    invariant
                        i <= len,
                        len == (*m)@.len(),
                        out@.len() == mask_positions((*m)@.take(i as int)).len(),
                        forall|k: int|
                            0 <= k < out@.len() ==> #[trigger] out@[k] as int == mask_positions(
                                (*m)@.take(i as int),
                            )[k],
                        forall|k: int| 0 <= k < out@.len() ==> #[trigger] out@[k] < i,
                    decreases len - i,
                {
                    proof {
                        assert((*m)@.take(i as int + 1).drop_last() =~= (*m)@.take(i as int));
                        assert((*m)@.take(i as int + 1).last() == (*m)@[i as int]);
                    }
                    if m[i] {
                        out.push(i);
                    }
                    i = i + 1;
                }
                proof {
                    assert((*m)@.take(len as int) =~= (*m)@);
                }
                out
            },
            Filter::Indices(p) => {
                let mut out: Vec<usize> = Vec::new();
                let mut i: usize = 0;
                let len = p.len();
                while i < len
                    invariant
                        i <= len,
                        len == (*p)@.len(),
                        out@.len() == i,
                        forall|k: int| 0 <= k < i ==> #[trigger] out@[k] == (*p)@[k],
                    decreases len - i,
                {
                    out.push(p[i]);
                    i = i + 1;
                }
                out
            },
        }
    }
}

} // verus!
