//! Windowed kernel helpers shared by the brush appliers: sums and
//! gathers over rectangular grid regions, an ascending sort, and the
//! lower-middle median the median applier blends toward.

use vstd::prelude::*;
use vstd::relations::{sorted_by, total_ordering};
use crate::{elev_ok, idx_of, tdiv, ELEV_LIMIT, MAX_DIM};
use crate::field::{lemma_idx_in_grid, HeightField};

verus! {

/// Ascending order on elevation samples.
pub open spec fn i64_le() -> spec_fn(i64, i64) -> bool {
    |x: i64, y: i64| x <= y
}

/// The lower-middle element of `s` after an ascending sort: for an
/// even-sized `s` this is the lower of the two middle elements.
pub open spec fn median_low_spec(s: Seq<i64>) -> int {
    s.sort_by(i64_le())[s.len() as int / 2] as int
}

/// The samples of row `j`, columns `i0..=i1`, in ascending column order.
pub open spec fn row_seq(t: Seq<i64>, w: int, j: int, i0: int, i1: int) -> Seq<i64>
    decreases i1 - i0 + 1,
{
    if i1 < i0 {
        Seq::empty()
    } else {
        row_seq(t, w, j, i0, i1 - 1).push(t[idx_of(i1, j, w)])
    }
}

/// The samples of the rectangle `[i0, i1] x [j0, j1]`, rows concatenated
/// top to bottom.
pub open spec fn rect_seq(t: Seq<i64>, w: int, i0: int, i1: int, j0: int, j1: int) -> Seq<i64>
    decreases j1 - j0 + 1,
{
    if j1 < j0 {
        Seq::empty()
    } else {
        rect_seq(t, w, i0, i1, j0, j1 - 1) + row_seq(t, w, j1, i0, i1)
    }
}

/// Sum of the samples of row `j`, columns `i0..=i1`.
pub open spec fn row_sum(t: Seq<i64>, w: int, j: int, i0: int, i1: int) -> int
    decreases i1 - i0 + 1,
{
    if i1 < i0 {
        0
    } else {
        row_sum(t, w, j, i0, i1 - 1) + t[idx_of(i1, j, w)]
    }
}

/// Sum of the samples of the rectangle `[i0, i1] x [j0, j1]`.
pub open spec fn rect_sum(t: Seq<i64>, w: int, i0: int, i1: int, j0: int, j1: int) -> int
    decreases j1 - j0 + 1,
{
    if j1 < j0 {
        0
    } else {
        rect_sum(t, w, i0, i1, j0, j1 - 1) + row_sum(t, w, j1, i0, i1)
    }
}

/// Ascending sample order is a total ordering.
pub proof fn lemma_i64_le_total()
    ensures
        total_ordering(i64_le()),
{
    assert forall|x: i64, y: i64| #[trigger] i64_le()(x, y) || i64_le()(y, x) by {}
}

/// The magnitude of a product is bounded by the product of the bounds.
pub proof fn lemma_mul_abs_bound(a: int, b: int, ma: int, mb: int)
    requires
        -ma <= a <= ma,
        -mb <= b <= mb,
        0 <= ma,
        0 <= mb,
    ensures
        -(ma * mb) <= a * b <= ma * mb,
{
    assert(-(ma * mb) <= a * b <= ma * mb) by (nonlinear_arith)
        requires
            -ma <= a <= ma,
            -mb <= b <= mb,
            0 <= ma,
            0 <= mb,
    ;
}

/// Truncating division cannot grow the magnitude past the quotient of
/// the bounds.
pub proof fn lemma_tdiv_bound(a: int, b: int, m: int)
    requires
        b >= 1,
        m >= 0,
        -(m * b) <= a <= m * b,
    ensures
        -m <= tdiv(a, b) <= m,
{
    if a >= 0 {
        vstd::arithmetic::div_mod::lemma_div_is_ordered(a, m * b, b);
        vstd::arithmetic::div_mod::lemma_div_by_multiple(m, b);
        vstd::arithmetic::div_mod::lemma_div_pos_is_pos(a, b);
    } else {
        vstd::arithmetic::div_mod::lemma_div_is_ordered(-a, m * b, b);
        vstd::arithmetic::div_mod::lemma_div_by_multiple(m, b);
        vstd::arithmetic::div_mod::lemma_div_pos_is_pos(-a, b);
    }
}

/// Two ascending sequences that hold the same samples are the same
/// sequence.
pub proof fn lemma_sorted_unique(a: Seq<i64>, b: Seq<i64>)
    requires
        sorted_by(a, i64_le()),
        sorted_by(b, i64_le()),
        a.to_multiset() == b.to_multiset(),
    ensures
        a == b,
    decreases a.len(),
{
    broadcast use vstd::seq_lib::group_to_multiset_ensures;
    broadcast use vstd::multiset::group_multiset_axioms;

    if a.len() == 0 {
        assert(b.to_multiset().len() == 0);
        assert(a =~= b);
    } else {
        assert(a.to_multiset().count(a[0]) > 0);
        assert(b.contains(a[0]));
        assert(b.to_multiset().count(b[0]) > 0);
        assert(a.contains(b[0]));
        let ka = choose|k: int| 0 <= k < a.len() && a[k] == b[0];
        let kb = choose|k: int| 0 <= k < b.len() && b[k] == a[0];
        assert(i64_le()(a[0], a[ka]) || ka == 0);
        assert(i64_le()(b[0], b[kb]) || kb == 0);
        assert(a[0] == b[0]);
        let ar = a.remove(0);
        let br = b.remove(0);
        assert(ar.to_multiset() =~= a.to_multiset().remove(a[0]));
        assert(br.to_multiset() =~= b.to_multiset().remove(b[0]));
        assert(ar.to_multiset() == br.to_multiset());
        assert(sorted_by(ar, i64_le())) by {
            assert forall|p: int, q: int| 0 <= p < q < ar.len() implies #[trigger] i64_le()(
                ar[p],
                ar[q],
            ) by {
                assert(ar[p] == a[p + 1]);
                assert(ar[q] == a[q + 1]);
                assert(i64_le()(a[p + 1], a[q + 1]));
            }
        }
        assert(sorted_by(br, i64_le())) by {
            assert forall|p: int, q: int| 0 <= p < q < br.len() implies #[trigger] i64_le()(
                br[p],
                br[q],
            ) by {
                assert(br[p] == b[p + 1]);
                assert(br[q] == b[q + 1]);
                assert(i64_le()(b[p + 1], b[q + 1]));
            }
        }
        lemma_sorted_unique(ar, br);
        assert(a =~= b) by {
            assert(a.len() == b.len());
            assert forall|k: int| 0 <= k < a.len() implies a[k] == b[k] by {
                if k > 0 {
                    assert(a[k] == ar[k - 1]);
                    assert(b[k] == br[k - 1]);
                }
            }
        }
    }
}

/// Sort the samples ascending; the result is exactly `sort_by` of the
/// input under the ascending order.
pub fn sort_ascending(vals: Vec<i64>) -> (out: Vec<i64>)
    ensures
        out@ == vals@.sort_by(i64_le()),
        out@.to_multiset() == vals@.to_multiset(),
        sorted_by(out@, i64_le()),
        out@.len() == vals@.len(),
    decreases vals.len(),
{
    broadcast use vstd::seq_lib::group_to_multiset_ensures;
    broadcast use vstd::multiset::group_multiset_axioms;

    let mut rem = vals;
    let mut out: Vec<i64> = Vec::new();
    let ghost orig: Seq<i64> = rem@;
    proof {
        assert(out@.to_multiset().add(rem@.to_multiset()) =~= orig.to_multiset());
    }
    while rem.len() > 0
        invariant
            out@.to_multiset().add(rem@.to_multiset()) == orig.to_multiset(),
            sorted_by(out@, i64_le()),
            forall|p: int, q: int|
                0 <= p < out@.len() && 0 <= q < rem@.len() ==> #[trigger] out@[p]
                    <= #[trigger] rem@[q],
        decreases rem.len(),
    {
        let mut min_at: usize = 0;
        let mut k: usize = 1;
        while k < rem.len()
            invariant
                min_at < k <= rem.len(),
                rem.len() > 0,
                forall|q: int| 0 <= q < k ==> rem@[min_at as int] <= #[trigger] rem@[q],
            decreases rem.len() - k,
        {
            if rem[k] < rem[min_at] {
                min_at = k;
            }
            k = k + 1;
        }
        let ghost rem_old: Seq<i64> = rem@;
        let m: i64 = rem.remove(min_at);
        let ghost out_old: Seq<i64> = out@;
        out.push(m);
        proof {
            broadcast use vstd::seq_lib::group_to_multiset_ensures;
            broadcast use vstd::multiset::group_multiset_axioms;

            assert(rem@ == rem_old.remove(min_at as int));
            assert(rem_old.remove(min_at as int).to_multiset() =~= rem_old.to_multiset().remove(
                rem_old[min_at as int],
            ));
            assert(rem@.to_multiset() =~= rem_old.to_multiset().remove(m));
            assert(out@ == out_old.push(m));
            assert(out_old.push(m).to_multiset() =~= out_old.to_multiset().insert(m));
            assert(out@.to_multiset() =~= out_old.to_multiset().insert(m));
            assert(out@.to_multiset().add(rem@.to_multiset()) =~= out_old.to_multiset().add(
                rem_old.to_multiset(),
            )) by {
                assert(rem_old.to_multiset().count(m) > 0);
            }
            assert(sorted_by(out@, i64_le())) by {
                assert forall|p: int, q: int| 0 <= p < q < out@.len() implies #[trigger] i64_le()(
                    out@[p],
                    out@[q],
                ) by {
                    if q < out@.len() - 1 {
                        assert(i64_le()(out_old[p], out_old[q]));
                    } else {
                        assert(out@[q] == m);
                        assert(rem_old.contains(m));
                    }
                }
            }
            assert forall|p: int, q: int|
                0 <= p < out@.len() && 0 <= q < rem@.len() implies #[trigger] out@[p]
                <= #[trigger] rem@[q] by {
                assert(rem@[q] == rem_old[if q < min_at {
                    q
                } else {
                    q + 1
                }]);
                assert(rem@[q] >= m);
                if p < out@.len() - 1 {
                    assert(out@[p] == out_old[p]);
                }
            }
        }
    }
    proof {
        broadcast use vstd::seq_lib::group_to_multiset_ensures;
        broadcast use vstd::multiset::group_multiset_axioms;

        assert(rem@.to_multiset().len() == 0);
        assert(out@.to_multiset() =~= orig.to_multiset()) by {
            assert(out@.to_multiset().add(rem@.to_multiset()) =~= out@.to_multiset());
        }
        assert(out@.len() == out@.to_multiset().len());
        assert(orig.len() == orig.to_multiset().len());
        assert(out@.len() == orig.len());
        lemma_i64_le_total();
        orig.lemma_sort_by_ensures(i64_le());
        lemma_sorted_unique(out@, orig.sort_by(i64_le()));
    }
    out
}

/// Sum the samples of the rectangle `[a0, a1] x [b0, b1]` of the field.
pub fn sum_rect(field: &HeightField, a0: usize, a1: usize, b0: usize, b1: usize) -> (s: i64)
    requires
        field.wf(),
        a0 <= a1 < field.width,
        b0 <= b1 < field.height,
    ensures
        s == rect_sum(field.texels@, field.width as int, a0 as int, a1 as int, b0 as int, b1 as int),
        -((a1 - a0 + 1) * (b1 - b0 + 1) * ELEV_LIMIT) <= s
            <= (a1 - a0 + 1) * (b1 - b0 + 1) * ELEV_LIMIT,
{
    let ghost t: Seq<i64> = field.texels@;
    let ghost w: int = field.width as int;
    let sa: usize = a1 - a0 + 1;
    let mut acc: i64 = 0;
    let mut b: usize = b0;
    proof {
        lemma_cells_times_limit_bounds(sa as int, (b1 - b0 + 1) as int);
    }
    while b <= b1
        invariant
            field.wf(),
            a0 <= a1 < field.width,
            b0 <= b <= b1 + 1,
            b1 < field.height,
            sa == a1 - a0 + 1,
            t == field.texels@,
            w == field.width as int,
            acc == rect_sum(t, w, a0 as int, a1 as int, b0 as int, b - 1),
            -((b - b0) * sa * ELEV_LIMIT) <= acc <= (b - b0) * sa * ELEV_LIMIT,
        decreases b1 + 1 - b,
    {
        let mut a: usize = a0;
        while a <= a1
            invariant
                field.wf(),
                a0 <= a <= a1 + 1,
                a1 < field.width,
                b0 <= b <= b1,
                b1 < field.height,
                sa == a1 - a0 + 1,
                t == field.texels@,
                w == field.width as int,
                acc == rect_sum(t, w, a0 as int, a1 as int, b0 as int, b - 1) + row_sum(
                    t,
                    w,
                    b as int,
                    a0 as int,
                    a - 1,
                ),
                -(((b - b0) * sa + (a - a0)) * ELEV_LIMIT) <= acc
                    <= ((b - b0) * sa + (a - a0)) * ELEV_LIMIT,
            decreases a1 + 1 - a,
        {
            proof {
                lemma_partial_cells_bounded(
                    (b - b0) as int,
                    (a - a0) as int,
                    sa as int,
                    (b1 - b0 + 1) as int,
                );
            }
            let v: i64 = field.get(a, b);
            proof {
                lemma_idx_in_grid(a as int, b as int, w, field.height as int);
                assert(elev_ok(v as int));
                assert(v == t[idx_of(a as int, b as int, w)]);
                assert(row_sum(t, w, b as int, a0 as int, a as int) == row_sum(
                    t,
                    w,
                    b as int,
                    a0 as int,
                    a - 1,
                ) + t[idx_of(a as int, b as int, w)]);
                assert(((b - b0) * sa + (a + 1 - a0)) * ELEV_LIMIT == ((b - b0) * sa + (a - a0))
                    * ELEV_LIMIT + ELEV_LIMIT) by (nonlinear_arith);
            }
            acc = acc + v;
            a = a + 1;
        }
        proof {
            assert(rect_sum(t, w, a0 as int, a1 as int, b0 as int, b as int) == rect_sum(
                t,
                w,
                a0 as int,
                a1 as int,
                b0 as int,
                b - 1,
            ) + row_sum(t, w, b as int, a0 as int, a1 as int));
            assert(((b - b0) * sa + (a1 + 1 - a0)) * ELEV_LIMIT == ((b + 1 - b0) * sa)
                * ELEV_LIMIT) by (nonlinear_arith)
                requires
                    sa == a1 - a0 + 1,
            ;
        }
        b = b + 1;
    }
    proof {
        assert(((b1 - b0 + 1) * sa) * ELEV_LIMIT == (sa * (b1 - b0 + 1)) * ELEV_LIMIT)
            by (nonlinear_arith);
    }
    acc
}

/// Collect the samples of the rectangle `[a0, a1] x [b0, b1]` of the
/// field, rows concatenated top to bottom.
pub fn gather_rect(field: &HeightField, a0: usize, a1: usize, b0: usize, b1: usize) -> (vals: Vec<
    i64,
>)
    requires
        field.wf(),
        a0 <= a1 < field.width,
        b0 <= b1 < field.height,
    ensures
        vals@ == rect_seq(
            field.texels@,
            field.width as int,
            a0 as int,
            a1 as int,
            b0 as int,
            b1 as int,
        ),
        vals@.len() == (a1 - a0 + 1) * (b1 - b0 + 1),
        forall|k: int| 0 <= k < vals@.len() ==> elev_ok(#[trigger] vals@[k] as int),
{
    let ghost t: Seq<i64> = field.texels@;
    let ghost w: int = field.width as int;
    let sa: usize = a1 - a0 + 1;
    let mut vals: Vec<i64> = Vec::new();
    let mut b: usize = b0;
    while b <= b1
        invariant
            field.wf(),
            a0 <= a1 < field.width,
            b0 <= b <= b1 + 1,
            b1 < field.height,
            sa == a1 - a0 + 1,
            t == field.texels@,
            w == field.width as int,
            vals@ == rect_seq(t, w, a0 as int, a1 as int, b0 as int, b - 1),
            vals@.len() == (b - b0) * sa,
            forall|k: int| 0 <= k < vals@.len() ==> elev_ok(#[trigger] vals@[k] as int),
        decreases b1 + 1 - b,
    {
        let mut a: usize = a0;
        while a <= a1
            invariant
                field.wf(),
                a0 <= a <= a1 + 1,
                a1 < field.width,
                b0 <= b <= b1,
                b1 < field.height,
                sa == a1 - a0 + 1,
                t == field.texels@,
                w == field.width as int,
                vals@ == rect_seq(t, w, a0 as int, a1 as int, b0 as int, b - 1) + row_seq(
                    t,
                    w,
                    b as int,
                    a0 as int,
                    a - 1,
                ),
                vals@.len() == (b - b0) * sa + (a - a0),
                forall|k: int| 0 <= k < vals@.len() ==> elev_ok(#[trigger] vals@[k] as int),
            decreases a1 + 1 - a,
        {
            proof {
                lemma_partial_cells_bounded(
                    (b - b0) as int,
                    (a - a0) as int,
                    sa as int,
                    (b1 - b0 + 1) as int,
                );
            }
            let v: i64 = field.get(a, b);
            proof {
                lemma_idx_in_grid(a as int, b as int, w, field.height as int);
                assert(elev_ok(v as int));
                assert(row_seq(t, w, b as int, a0 as int, a as int) == row_seq(
                    t,
                    w,
                    b as int,
                    a0 as int,
                    a - 1,
                ).push(t[idx_of(a as int, b as int, w)]));
            }
            vals.push(v);
            proof {
                assert(vals@ =~= rect_seq(t, w, a0 as int, a1 as int, b0 as int, b - 1) + row_seq(
                    t,
                    w,
                    b as int,
                    a0 as int,
                    a as int,
                ));
            }
            a = a + 1;
        }
        proof {
            assert(rect_seq(t, w, a0 as int, a1 as int, b0 as int, b as int) == rect_seq(
                t,
                w,
                a0 as int,
                a1 as int,
                b0 as int,
                b - 1,
            ) + row_seq(t, w, b as int, a0 as int, a1 as int));
            assert((b - b0) * sa + (a1 + 1 - a0) == (b + 1 - b0) * sa) by (nonlinear_arith)
                requires
                    sa == a1 - a0 + 1,
            ;
        }
        b = b + 1;
    }
    proof {
        assert((b1 + 1 - b0) * sa == sa * (b1 - b0 + 1)) by (nonlinear_arith);
    }
    vals
}

/// A partially walked rectangle never holds more cells than the whole
/// one, and the whole one stays within the grid cell bound.
proof fn lemma_partial_cells_bounded(rows: int, cols: int, sa: int, sb: int)
    requires
        0 <= rows,
        0 <= cols < sa,
        rows < sb,
        sa <= MAX_DIM,
        sb <= MAX_DIM,
    ensures
        0 <= rows * sa + cols < sa * sb,
        (rows * sa + cols) * ELEV_LIMIT + ELEV_LIMIT <= i64::MAX,
{
    assert(0 <= rows * sa + cols < sa * sb) by (nonlinear_arith)
        requires
            0 <= rows,
            0 <= cols < sa,
            rows < sb,
    ;
    assert(sa * sb <= MAX_DIM * MAX_DIM) by (nonlinear_arith)
        requires
            0 < sa <= MAX_DIM,
            0 < sb <= MAX_DIM,
    ;
    assert((rows * sa + cols) * ELEV_LIMIT < (MAX_DIM * MAX_DIM) * ELEV_LIMIT) by (nonlinear_arith)
        requires
            0 <= rows * sa + cols < MAX_DIM * MAX_DIM,
    ;
}

/// The cell count of a grid-sized rectangle times the elevation bound
/// stays far inside the i64 range.
proof fn lemma_cells_times_limit_bounds(sa: int, sb: int)
    requires
        0 < sa <= MAX_DIM,
        0 < sb <= MAX_DIM,
    ensures
        sa * sb * ELEV_LIMIT <= MAX_DIM * MAX_DIM * ELEV_LIMIT,
{
    assert(sa * sb * ELEV_LIMIT <= MAX_DIM * MAX_DIM * ELEV_LIMIT) by (nonlinear_arith)
        requires
            0 < sa <= MAX_DIM,
            0 < sb <= MAX_DIM,
            ELEV_LIMIT > 0,
    ;
}

} // verus!
