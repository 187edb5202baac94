//! Row and column index bookkeeping for table views.
//!
//! A selection is a list of (row, column) positions.  These helpers order
//! a selection for copying, thin it to one position per row for row-wise
//! operations, and step a column's sort indicator; the view layer around
//! this crate hands positions in and takes positions back.

use vstd::prelude::*;

verus! {

/// Row-major order on positions: by row, and inside a row by column.
pub open spec fn index_le(a: (i32, i32), b: (i32, i32)) -> bool {
    a.0 < b.0 || (a.0 == b.0 && a.1 <= b.1)
}

/// True when `perm` maps the positions of `sorted` injectively onto
/// `orig`, position by position carrying the same pair.
pub open spec fn indexes_permuted(sorted: Seq<(i32, i32)>, orig: Seq<(i32, i32)>, perm: Seq<int>) -> bool {
    &&& perm.len() == sorted.len()
    &&& sorted.len() == orig.len()
    &&& forall|k: int| 0 <= k < perm.len() ==> 0 <= #[trigger] perm[k] < orig.len()
    &&& forall|k1: int, k2: int|
        0 <= k1 < k2 < perm.len() ==> #[trigger] perm[k1] != #[trigger] perm[k2]
    &&& forall|k: int| 0 <= k < sorted.len() ==> orig[#[trigger] perm[k]] == sorted[k]
}

/// Orders a selection row-major, so that copied cells come out in the
/// order they stand in the model.  The result is a rearrangement of the
/// input in non-decreasing row-major order.
pub fn sort_indexes_by_model(indexes_sorted: &mut Vec<(i32, i32)>)
    ensures
        final(indexes_sorted)@.len() == old(indexes_sorted)@.len(),
        exists|perm: Seq<int>|
            #[trigger] indexes_permuted(final(indexes_sorted)@, old(indexes_sorted)@, perm),
        forall|k: int|
            0 <= k < final(indexes_sorted)@.len() - 1 ==> index_le(
                #[trigger] final(indexes_sorted)@[k],
                final(indexes_sorted)@[k + 1],
            ),
{
    let n = indexes_sorted.len();
    let mut out: Vec<(i32, i32)> = Vec::new();
    let mut idx: Vec<usize> = Vec::new();
    let mut i: usize = 0;
    while i < n
        invariant
            i <= n,
            n == old(indexes_sorted)@.len(),
            indexes_sorted@ == old(indexes_sorted)@,
            out@.len() == i,
            idx@.len() == i,
            forall|k: int| 0 <= k < i ==> 0 <= (#[trigger] idx@[k]) < i,
            forall|k1: int, k2: int|
                0 <= k1 < k2 < i ==> (#[trigger] idx@[k1]) != (#[trigger] idx@[k2]),
            forall|k: int|
                0 <= k < i ==> old(indexes_sorted)@[(#[trigger] idx@[k]) as int] == out@[k],
            forall|k: int| 0 <= k < i - 1 ==> index_le(#[trigger] out@[k], out@[k + 1]),
        decreases n - i,
    {
        let p = indexes_sorted[i];
        let mut j: usize = out.len();
        while j > 0 && (p.0 < out[j - 1].0 || (p.0 == out[j - 1].0 && p.1 < out[j - 1].1))
            invariant
                j <= out@.len(),
                forall|k: int|
                    j <= k < out@.len() ==> (p.0 < (#[trigger] out@[k]).0 || (p.0 == out@[k].0
                        && p.1 < out@[k].1)),
            decreases j,
        {
            j -= 1;
        }
        let ghost oldout = out@;
        let ghost oldidx = idx@;
        out.insert(j, p);
        idx.insert(j, i);
        proof {
            oldout.insert_ensures(j as int, p);
            oldidx.insert_ensures(j as int, i);
            assert forall|k: int| 0 <= k < i + 1 - 1 implies index_le(
                #[trigger] out@[k],
                out@[k + 1],
            ) by {
                if k + 1 < j {
                    assert(out@[k] == oldout[k] && out@[k + 1] == oldout[k + 1]);
                } else if k + 1 == j {
                    assert(out@[k] == oldout[k] && out@[k + 1] == p);
                } else if k == j {
                    assert(out@[k] == p && out@[k + 1] == oldout[k]);
                } else {
                    assert(out@[k] == oldout[k - 1] && out@[k + 1] == oldout[k]);
                }
            }
        }
        i += 1;
    }
    proof {
        let perm = Seq::new(idx@.len(), |k: int| idx@[k] as int);
        assert(indexes_permuted(out@, old(indexes_sorted)@, perm));
    }
    *indexes_sorted = out;
}

/// The positions kept when a selection is thinned to one per row: each
/// position whose row was not seen earlier in the list.
pub open spec fn spec_dedup_rows(s: Seq<(i32, i32)>, seen: Set<i32>) -> Seq<(i32, i32)>
    decreases s.len(),
{
    if s.len() == 0 {
        seq![]
    } else if seen.contains(s[0].0) {
        spec_dedup_rows(s.drop_first(), seen)
    } else {
        seq![s[0]] + spec_dedup_rows(s.drop_first(), seen.insert(s[0].0))
    }
}

/// Thins a selection to its first position in each row, keeping order:
/// what row-wise operations iterate over.
pub fn dedup_indexes_per_row(indexes: &mut Vec<(i32, i32)>)
    ensures
        final(indexes)@ == spec_dedup_rows(old(indexes)@, Set::<i32>::empty()),
{
    let mut out: Vec<(i32, i32)> = Vec::new();
    let mut rows_done: Vec<i32> = Vec::new();
    let ghost mut seen: Set<i32> = Set::empty();
    let mut i: usize = 0;
    proof {
        assert(indexes@.subrange(0, indexes@.len() as int) =~= indexes@);
    }
    while i < indexes.len()
        invariant
            i <= indexes@.len(),
            indexes@ == old(indexes)@,
            forall|r: i32| seen.contains(r) <==> rows_done@.contains(r),
            spec_dedup_rows(old(indexes)@, Set::<i32>::empty()) == out@ + spec_dedup_rows(
                indexes@.subrange(i as int, indexes@.len() as int),
                seen,
            ),
        decreases indexes@.len() - i,
    {
        let ghost suffix = indexes@.subrange(i as int, indexes@.len() as int);
        proof {
            assert(suffix[0] == indexes@[i as int]);
            assert(suffix.drop_first() =~= indexes@.subrange(i + 1, indexes@.len() as int));
        }
        let p = indexes[i];
        let mut done = false;
        let mut k: usize = 0;
        while k < rows_done.len()
            invariant
                k <= rows_done@.len(),
                done <==> exists|m: int| 0 <= m < k && rows_done@[m] == p.0,
            decreases rows_done@.len() - k,
        {
            if rows_done[k] == p.0 {
                done = true;
            }
            k += 1;
        }
        proof {
            if done {
                assert(rows_done@.contains(p.0));
            } else {
                assert(!rows_done@.contains(p.0)) by {
                    if rows_done@.contains(p.0) {
                        let m = choose|m: int|
                            0 <= m < rows_done@.len() && rows_done@[m] == p.0;
                        assert(done);
                    }
                }
            }
        }
        if !done {
            let ghost oldout = out@;
            let ghost oldseen = seen;
            let ghost oldrows = rows_done@;
            out.push(p);
            rows_done.push(p.0);
            proof {
                seen = oldseen.insert(p.0);
                assert(oldout + (seq![p] + spec_dedup_rows(suffix.drop_first(), seen)) =~= out@
                    + spec_dedup_rows(suffix.drop_first(), seen));
                assert(rows_done@.drop_last() =~= oldrows);
                assert forall|r: i32| seen.contains(r) <==> rows_done@.contains(r) by {
                    if r != p.0 {
                        assert(oldseen.contains(r) <==> oldrows.contains(r));
                        if rows_done@.contains(r) {
                            let m = choose|m: int|
                                0 <= m < rows_done@.len() && rows_done@[m] == r;
                            assert(oldrows[m] == r);
                            assert(oldrows.contains(r));
                        }
                        if oldrows.contains(r) {
                            let m = choose|m: int| 0 <= m < oldrows.len() && oldrows[m] == r;
                            assert(rows_done@[m] == r);
                            assert(rows_done@.contains(r));
                        }
                    } else {
                        assert(rows_done@.last() == p.0);
                        assert(rows_done@.contains(p.0));
                    }
                }
            }
        }
        i += 1;
    }
    proof {
        assert(indexes@.subrange(indexes@.len() as int, indexes@.len() as int)
            =~= Seq::<(i32, i32)>::empty());
        assert(out@ + Seq::<(i32, i32)>::empty() =~= out@);
    }
    *indexes = out;
}

/// Steps a column's sort state when that column's header is clicked: the
/// first two clicks cycle the order, the third clears it; the flag says
/// when the view must drop its sort indicator.
pub fn sort_column(column: i32, sort_data: (i32, i8)) -> (r: ((i32, i8), bool))
    ensures
        ({
            let old_order: i8 = if sort_data.0 == column {
                sort_data.1
            } else {
                0
            };
            if old_order < 2 {
                r == ((if old_order + 1 == 0 {
                    (-1i32, (old_order + 1) as i8)
                } else {
                    (column, (old_order + 1) as i8)
                }), false)
            } else {
                r == ((-1i32, -1i8), true)
            }
        }),
{
    let old_order: i8 = if sort_data.0 == column {
        sort_data.1
    } else {
        0
    };
    if old_order < 2 {
        let new_order = old_order + 1;
        if new_order == 0 {
            ((-1, new_order), false)
        } else {
            ((column, new_order), false)
        }
    } else {
        ((-1, -1), true)
    }
}

} // verus!
