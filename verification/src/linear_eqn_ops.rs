//! The elimination engine: forward elimination to upper-triangular form,
//! back substitution to diagonal form, row normalization, and the kernels
//! built on them — linear-system solve and rank.
//!
//! Both passes walk the pivot rows strictly in order, since each pivot step
//! depends on the fully updated result of the previous one, but within one
//! pivot step every affected row is updated independently and in parallel.
//! Division by a zero pivot is not checked, exactly as the design prescribes:
//! it produces undefined (zero-denominator) entries that propagate silently,
//! and the contracts promise exact values only when every pivot along the way
//! denotes a nonzero quantity.

use rayon::iter::{IndexedParallelIterator, IntoParallelRefIterator, ParallelIterator};
use vstd::prelude::*;

use crate::error::MatError;
use crate::frac::{
    frac_div, frac_div_ok, frac_mul, frac_mul_ok, frac_sub, frac_sub_ok, Frac,
};
use crate::my_util::{
    augment, copy_mat, copy_row, is_square_matrix, mat_def, mat_eq, mat_pos, mat_square,
    mat_view, mat_wf, row_def, row_eq, row_pos, row_wf, split_last_col, vec_view,
};
use crate::rat::{
    lemma_div_lift, lemma_mul_lift, lemma_rat_div_congr, lemma_rat_eq_nonzero,
    lemma_rat_eq_trans, lemma_rat_eq_zero_iff, lemma_rat_mul_congr, lemma_rat_sub_congr,
    lemma_sub_lift, rat_div, rat_eq, rat_mul, rat_nonzero, rat_proper, rat_sub, Rat,
};

verus! {

/// One elimination update of a row against a pivot row: the entry in the
/// pivot column and everything to its right has `factor` times the pivot row
/// subtracted, where `factor` is the row's own entry in the pivot column
/// divided by the pivot; entries left of the pivot column are untouched.
pub open spec fn elim_row_upd(row: Seq<Rat>, pivot: Seq<Rat>, piv: int) -> Seq<Rat> {
    Seq::new(
        row.len(),
        |j: int|
            if j < piv {
                row[j]
            } else {
                rat_sub(row[j], rat_mul(rat_div(row[piv], pivot[piv]), pivot[j]))
            },
    )
}

/// One forward pivot step: every row strictly below the pivot row is updated
/// against it.
pub open spec fn fwd_step(s: Seq<Seq<Rat>>, i: int) -> Seq<Seq<Rat>> {
    Seq::new(
        s.len(),
        |r: int|
            if r <= i {
                s[r]
            } else {
                elim_row_upd(s[r], s[i], i)
            },
    )
}

/// The first `k` forward pivot steps, in pivot order.
pub open spec fn fwd_upto(s: Seq<Seq<Rat>>, k: int) -> Seq<Seq<Rat>>
    decreases k,
{
    if k <= 0 {
        s
    } else {
        fwd_step(fwd_upto(s, k - 1), k - 1)
    }
}

/// Full forward elimination: one pivot step for every row.
pub open spec fn fwd_spec(s: Seq<Seq<Rat>>) -> Seq<Seq<Rat>> {
    fwd_upto(s, s.len() as int)
}

/// Whether the first `k` forward pivots each denote a definite nonzero
/// quantity at the moment they are used.
pub open spec fn fwd_ok_upto(s: Seq<Seq<Rat>>, k: int) -> bool {
    forall|i: int| 0 <= i < k ==> rat_nonzero(#[trigger] fwd_upto(s, i)[i][i])
}

/// Whether every forward pivot denotes a definite nonzero quantity.
pub open spec fn fwd_ok(s: Seq<Seq<Rat>>) -> bool {
    fwd_ok_upto(s, s.len() as int)
}

/// One backward pivot step: every row strictly above the pivot row is
/// updated against it.
pub open spec fn bwd_step(s: Seq<Seq<Rat>>, i: int) -> Seq<Seq<Rat>> {
    Seq::new(
        s.len(),
        |r: int|
            if r >= i {
                s[r]
            } else {
                elim_row_upd(s[r], s[i], i)
            },
    )
}

/// The backward pivot steps from the last row down to row `k`.
pub open spec fn bwd_from(s: Seq<Seq<Rat>>, k: int) -> Seq<Seq<Rat>>
    decreases s.len() - k,
{
    if k >= s.len() {
        s
    } else {
        bwd_step(bwd_from(s, k + 1), k)
    }
}

/// Full back substitution: one pivot step for every row, from the bottom up.
pub open spec fn bwd_spec(s: Seq<Seq<Rat>>) -> Seq<Seq<Rat>> {
    bwd_from(s, 0)
}

/// Whether the backward pivots from the last row down to row `k` each denote
/// a definite nonzero quantity at the moment they are used.
pub open spec fn bwd_ok_from(s: Seq<Seq<Rat>>, k: int) -> bool {
    forall|i: int| k <= i < s.len() ==> rat_nonzero(#[trigger] bwd_from(s, i + 1)[i][i])
}

/// Whether every backward pivot denotes a definite nonzero quantity.
pub open spec fn bwd_ok(s: Seq<Seq<Rat>>) -> bool {
    bwd_ok_from(s, 0)
}

/// Row normalization: every entry of row `i` is divided by the diagonal
/// entry of row `i`.
pub open spec fn simp_spec(s: Seq<Seq<Rat>>) -> Seq<Seq<Rat>> {
    Seq::new(s.len(), |i: int| Seq::new(s[i].len(), |j: int| rat_div(s[i][j], s[i][i])))
}

/// Whether every diagonal entry denotes a definite nonzero quantity.
pub open spec fn simp_ok(s: Seq<Seq<Rat>>) -> bool {
    forall|i: int| 0 <= i < s.len() ==> rat_nonzero(#[trigger] s[i][i])
}

/// The full reduction pipeline: forward elimination, back substitution, row
/// normalization.
pub open spec fn gauss_spec(s: Seq<Seq<Rat>>) -> Seq<Seq<Rat>> {
    simp_spec(bwd_spec(fwd_spec(s)))
}

/// Whether every pivot and every diagonal divisor along the full reduction
/// pipeline denotes a definite nonzero quantity.
pub open spec fn gauss_ok(s: Seq<Seq<Rat>>) -> bool {
    fwd_ok(s) && bwd_ok(fwd_spec(s)) && simp_ok(bwd_spec(fwd_spec(s)))
}

/// Row equality is transitive through a row of proper values.
proof fn lemma_row_eq_trans(a: Seq<Rat>, b: Seq<Rat>, c: Seq<Rat>)
    requires
        row_eq(a, b),
        row_eq(b, c),
        forall|j: int| 0 <= j < b.len() ==> rat_proper(#[trigger] b[j]),
    ensures
        row_eq(a, c),
{
    assert forall|j: int| 0 <= j < a.len() implies rat_eq(#[trigger] a[j], c[j]) by {
        lemma_rat_eq_trans(a[j], b[j], c[j]);
    }
}

/// The elimination update respects value equality of its row and pivot row.
proof fn lemma_elim_row_upd_congr(r1: Seq<Rat>, p1: Seq<Rat>, r2: Seq<Rat>, p2: Seq<Rat>, piv: int)
    requires
        row_eq(r1, r2),
        row_eq(p1, p2),
        0 <= piv < r1.len(),
        p1.len() == r1.len(),
    ensures
        row_eq(elim_row_upd(r1, p1, piv), elim_row_upd(r2, p2, piv)),
{
    assert forall|j: int|
        0 <= j < r1.len() implies rat_eq(
        #[trigger] elim_row_upd(r1, p1, piv)[j],
        elim_row_upd(r2, p2, piv)[j],
    ) by {
        if j < piv {
        } else {
            assert(rat_eq(r1[piv], r2[piv]) && rat_eq(p1[piv], p2[piv]));
            assert(rat_eq(r1[j], r2[j]) && rat_eq(p1[j], p2[j]));
            lemma_rat_div_congr(r1[piv], r2[piv], p1[piv], p2[piv]);
            lemma_rat_mul_congr(
                rat_div(r1[piv], p1[piv]),
                rat_div(r2[piv], p2[piv]),
                p1[j],
                p2[j],
            );
            lemma_rat_sub_congr(
                r1[j],
                r2[j],
                rat_mul(rat_div(r1[piv], p1[piv]), p1[j]),
                rat_mul(rat_div(r2[piv], p2[piv]), p2[j]),
            );
        }
    }
}

/// Against a definite nonzero pivot, the elimination update of a definite
/// row yields proper values in every column.
proof fn lemma_elim_row_upd_proper(row: Seq<Rat>, pivot: Seq<Rat>, piv: int)
    requires
        row_pos(row),
        row_pos(pivot),
        0 <= piv < row.len(),
        row.len() == pivot.len(),
        pivot[piv].n != 0,
    ensures
        forall|j: int| 0 <= j < row.len() ==> rat_proper(#[trigger] elim_row_upd(row, pivot, piv)[j]),
{
    assert forall|j: int|
        0 <= j < row.len() implies rat_proper(#[trigger] elim_row_upd(row, pivot, piv)[j]) by {
        if j >= piv {
            assert(row[j].d * ((row[piv].d * pivot[piv].n) * pivot[j].d) != 0)
                by (nonlinear_arith)
                requires
                    row[j].d > 0,
                    row[piv].d > 0,
                    pivot[piv].n != 0,
                    pivot[j].d > 0,
            ;
        }
    }
}

/// Forward pivot steps preserve the dimensions of the matrix.
pub proof fn lemma_fwd_upto_is_mat(s: Seq<Seq<Rat>>, k: int, m: int, n: int)
    requires
        crate::my_util::is_mat(s, m, n),
    ensures
        crate::my_util::is_mat(fwd_upto(s, k), m, n),
    decreases
            (if k > 0 {
                k
            } else {
                0
            }),
{
    if k > 0 {
        lemma_fwd_upto_is_mat(s, k - 1, m, n);
    }
}

/// Backward pivot steps preserve the dimensions of the matrix.
pub proof fn lemma_bwd_from_is_mat(s: Seq<Seq<Rat>>, k: int, m: int, n: int)
    requires
        crate::my_util::is_mat(s, m, n),
    ensures
        crate::my_util::is_mat(bwd_from(s, k), m, n),
    decreases
            (if s.len() - k > 0 {
                s.len() - k
            } else {
                0
            }),
{
    if k < s.len() {
        lemma_bwd_from_is_mat(s, k + 1, m, n);
    }
}

/// The first `j` cells of one row update as the machine performs it, with
/// the elimination factor already computed: cells left of the pivot column
/// are copied, the rest have the factor times the pivot row subtracted over
/// canonical values; `None` from the first intermediate whose reduced form
/// leaves the machine range.
pub open spec fn elim_cells_acc(
    row: Seq<Rat>,
    pivot: Seq<Rat>,
    piv: int,
    f: Rat,
    j: int,
) -> Option<Seq<Rat>>
    decreases j,
{
    if j <= 0 {
        Some(Seq::empty())
    } else {
        match elim_cells_acc(row, pivot, piv, f, j - 1) {
            Option::None => Option::None,
            Option::Some(pre) => if j - 1 < piv {
                Option::Some(pre.push(row[j - 1]))
            } else if !frac_mul_ok(f, pivot[j - 1]) {
                Option::None
            } else if !frac_sub_ok(row[j - 1], frac_mul(f, pivot[j - 1])) {
                Option::None
            } else {
                Option::Some(pre.push(frac_sub(row[j - 1], frac_mul(f, pivot[j - 1]))))
            },
        }
    }
}

/// A row update that fails on some prefix fails on every longer one.
proof fn lemma_elim_cells_acc_mono(row: Seq<Rat>, pivot: Seq<Rat>, piv: int, f: Rat, k: int, j: int)
    requires
        0 <= k <= j,
        elim_cells_acc(row, pivot, piv, f, k) is None,
    ensures
        elim_cells_acc(row, pivot, piv, f, j) is None,
    decreases j - k,
{
    if j > k {
        lemma_elim_cells_acc_mono(row, pivot, piv, f, k, j - 1);
    }
}

/// One full row update as the machine performs it: the elimination factor is
/// the row's pivot-column entry divided by the pivot, then every cell is
/// updated.
pub open spec fn elim_row_acc(row: Seq<Rat>, pivot: Seq<Rat>, piv: int) -> Option<Seq<Rat>> {
    if !frac_div_ok(row[piv], pivot[piv]) {
        Option::None
    } else {
        elim_cells_acc(row, pivot, piv, frac_div(row[piv], pivot[piv]), row.len() as int)
    }
}

/// What one updated row satisfies: it exists exactly when the machine row
/// update completes, it then holds that update's canonical values, it always
/// stays well formed with the length of its source, and when the source row,
/// the pivot row and the pivot itself are definite (the pivot nonzero), it
/// holds, cell for cell, a value of the elimination update.
pub open spec fn elim_post(row: Seq<Rat>, pivot: Seq<Rat>, piv: int, r: Option<Vec<Frac>>) -> bool {
    &&& (r is Some <==> elim_row_acc(row, pivot, piv) is Some)
    &&& (r is Some ==> vec_view(r.unwrap()) == elim_row_acc(row, pivot, piv).unwrap())
    &&& (r is Some ==> {
        let v = vec_view(r.unwrap());
        v.len() == row.len() && row_wf(v) && ((row_pos(row) && row_pos(pivot) && pivot[piv].n != 0)
            ==> (row_pos(v) && row_eq(v, elim_row_upd(row, pivot, piv))))
    })
}

/// The elimination update of one row against a pivot row; `None` reports
/// that an intermediate value had no machine representative.
fn elim_row(row: &Vec<Frac>, pivot: &Vec<Frac>, piv: usize) -> (r: Option<Vec<Frac>>)
    requires
        row@.len() == pivot@.len(),
        piv < row@.len(),
        row_wf(vec_view(*row)),
        row_wf(vec_view(*pivot)),
    ensures
        elim_post(vec_view(*row), vec_view(*pivot), piv as int, r),
{
    let ghost grow = vec_view(*row);
    let ghost gpiv = vec_view(*pivot);
    let ghost good = row_pos(grow) && row_pos(gpiv) && gpiv[piv as int].n != 0;
    proof {
        assert(grow[piv as int] == row@[piv as int]@);
        assert(gpiv[piv as int] == pivot@[piv as int]@);
    }
    let factor = match row[piv].div(&pivot[piv]) {
        Some(factor) => factor,
        None => {
            proof {
                assert(!frac_div_ok(grow[piv as int], gpiv[piv as int]));
                assert(elim_row_acc(grow, gpiv, piv as int) is None);
            }
            return None;
        },
    };
    let ghost gfac = rat_div(grow[piv as int], gpiv[piv as int]);
    let ghost gcf = frac_div(grow[piv as int], gpiv[piv as int]);
    proof {
        assert(factor@ == gcf);
    }
    let mut out: Vec<Frac> = Vec::new();
    let mut j: usize = 0;
    while j < row.len()
        invariant
            j <= row@.len(),
            row@.len() == pivot@.len(),
            piv < row@.len(),
            grow == vec_view(*row),
            gpiv == vec_view(*pivot),
            row_wf(grow),
            row_wf(gpiv),
            good == (row_pos(grow) && row_pos(gpiv) && gpiv[piv as int].n != 0),
            factor.wf(),
            rat_eq(factor@, gfac),
            gfac == rat_div(grow[piv as int], gpiv[piv as int]),
            factor@ == gcf,
            frac_div_ok(grow[piv as int], gpiv[piv as int]),
            gcf == frac_div(grow[piv as int], gpiv[piv as int]),
            good ==> factor.pos(),
            out@.len() == j,
            elim_cells_acc(grow, gpiv, piv as int, gcf, j as int) == Some(vec_view(out)),
            forall|l: int| 0 <= l < j ==> (#[trigger] out@[l])@.d >= 0,
            good ==> forall|l: int|
                0 <= l < j ==> (#[trigger] out@[l])@.d > 0 && rat_eq(
                    out@[l]@,
                    elim_row_upd(grow, gpiv, piv as int)[l],
                ),
        decreases row@.len() - j,
    {
        proof {
            assert(grow[j as int] == row@[j as int]@);
            assert(gpiv[j as int] == pivot@[j as int]@);
        }
        let ghost vold = vec_view(out);
        if j < piv {
            out.push(row[j]);
            proof {
                assert(vec_view(out) =~= vold.push(grow[j as int]));
                assert(elim_cells_acc(grow, gpiv, piv as int, gcf, j as int + 1) == Some(
                    vold.push(grow[j as int]),
                ));
            }
        } else {
            let d = match factor.mul(&pivot[j]) {
                Some(d) => d,
                None => {
                    proof {
                        assert(!frac_mul_ok(gcf, gpiv[j as int]));
                        assert(elim_cells_acc(grow, gpiv, piv as int, gcf, j as int + 1) is None);
                        lemma_elim_cells_acc_mono(
                            grow,
                            gpiv,
                            piv as int,
                            gcf,
                            j as int + 1,
                            grow.len() as int,
                        );
                    }
                    return None;
                },
            };
            let nv = match row[j].sub(&d) {
                Some(nv) => nv,
                None => {
                    proof {
                        assert(d@ == frac_mul(gcf, gpiv[j as int]));
                        assert(!frac_sub_ok(grow[j as int], frac_mul(gcf, gpiv[j as int])));
                        assert(elim_cells_acc(grow, gpiv, piv as int, gcf, j as int + 1) is None);
                        lemma_elim_cells_acc_mono(
                            grow,
                            gpiv,
                            piv as int,
                            gcf,
                            j as int + 1,
                            grow.len() as int,
                        );
                    }
                    return None;
                },
            };
            proof {
                assert(d@ == frac_mul(gcf, gpiv[j as int]));
                assert(nv@ == frac_sub(grow[j as int], frac_mul(gcf, gpiv[j as int])));
                if good {
                    lemma_mul_lift(d@, factor@, gpiv[j as int], gfac, gpiv[j as int]);
                    lemma_sub_lift(
                        nv@,
                        grow[j as int],
                        d@,
                        grow[j as int],
                        rat_mul(gfac, gpiv[j as int]),
                    );
                }
            }
            out.push(nv);
            proof {
                assert(vec_view(out) =~= vold.push(
                    frac_sub(grow[j as int], frac_mul(gcf, gpiv[j as int])),
                ));
                assert(elim_cells_acc(grow, gpiv, piv as int, gcf, j as int + 1) == Some(
                    vold.push(frac_sub(grow[j as int], frac_mul(gcf, gpiv[j as int]))),
                ));
            }
        }
        j = j + 1;
    }
    proof {
        assert(row_wf(vec_view(out)));
        if good {
            assert forall|l: int|
                0 <= l < row@.len() implies (#[trigger] vec_view(out)[l]).d > 0 && rat_eq(
                vec_view(out)[l],
                elim_row_upd(grow, gpiv, piv as int)[l],
            ) by {
                assert(vec_view(out)[l] == out@[l]@);
            }
            assert(row_pos(vec_view(out)));
            assert(row_eq(vec_view(out), elim_row_upd(grow, gpiv, piv as int)));
        }
    }
    Some(out)
}

/// Relies on rayon's `par_iter().map(..).collect()` over an indexed parallel
/// iterator: the closure, which only calls [`elim_row`], runs once for every
/// row of `m` with index in `lo..hi` and the results are collected in row
/// order.
#[verifier::external_body]
fn par_elim_rows(m: &Vec<Vec<Frac>>, pivot: &Vec<Frac>, piv: usize, lo: usize, hi: usize) -> (r:
    Vec<Option<Vec<Frac>>>)
    requires
        lo <= hi,
        hi <= m@.len(),
        piv < pivot@.len(),
        forall|k: int| lo <= k < hi ==> (#[trigger] m@[k])@.len() == pivot@.len(),
        forall|k: int| lo <= k < hi ==> row_wf(vec_view(#[trigger] m@[k])),
        row_wf(vec_view(*pivot)),
    ensures
        r@.len() == hi - lo,
        forall|k: int|
            0 <= k < hi - lo ==> elim_post(
                vec_view(m@[lo + k]),
                vec_view(*pivot),
                piv as int,
                #[trigger] r@[k],
            ),
{
    m[lo..hi].par_iter().map(|row| elim_row(row, pivot, piv)).collect()
}

/// One forward pivot step as the machine performs it: every row strictly
/// below the pivot row is updated against it, `None` when any row update
/// fails.
pub open spec fn fwd_step_acc(s: Seq<Seq<Rat>>, i: int) -> Option<Seq<Seq<Rat>>> {
    if forall|r: int| i < r < s.len() ==> (#[trigger] elim_row_acc(s[r], s[i], i)) is Some {
        Option::Some(
            Seq::new(
                s.len(),
                |r: int|
                    if r <= i {
                        s[r]
                    } else {
                        elim_row_acc(s[r], s[i], i).unwrap()
                    },
            ),
        )
    } else {
        Option::None
    }
}

/// The first `k` forward pivot steps as the machine performs them.
pub open spec fn fwd_acc(s: Seq<Seq<Rat>>, k: int) -> Option<Seq<Seq<Rat>>>
    decreases k,
{
    if k <= 0 {
        Option::Some(s)
    } else {
        match fwd_acc(s, k - 1) {
            Option::None => Option::None,
            Option::Some(p) => fwd_step_acc(p, k - 1),
        }
    }
}

/// A forward pass that fails at some pivot fails from there on.
proof fn lemma_fwd_acc_mono(s: Seq<Seq<Rat>>, k: int, e: int)
    requires
        0 <= k <= e,
        fwd_acc(s, k) is None,
    ensures
        fwd_acc(s, e) is None,
    decreases e - k,
{
    if e > k {
        lemma_fwd_acc_mono(s, k, e - 1);
    }
}

/// Forward elimination relative to a ghost reference matrix `g` that the
/// input denotes cell for cell: the result, when it exists, denotes the
/// forward elimination of `g` whenever every forward pivot of `g` is a
/// definite nonzero quantity.
pub(crate) fn fwd_pass(a: &Vec<Vec<Frac>>, g: Ghost<Seq<Seq<Rat>>>) -> (r: Option<Vec<Vec<Frac>>>)
    requires
        a@.len() >= 1,
        forall|i: int| 0 <= i < a@.len() ==> (#[trigger] a@[i])@.len() == a@[0]@.len(),
        a@.len() <= a@[0]@.len(),
        mat_wf(mat_view(*a)),
        g@.len() == a@.len(),
        forall|i: int| 0 <= i < g@.len() ==> (#[trigger] g@[i]).len() == a@[0]@.len(),
    ensures
        r is Some <==> fwd_acc(mat_view(*a), a@.len() as int) is Some,
        r is Some ==> mat_view(r.unwrap()) == fwd_acc(mat_view(*a), a@.len() as int).unwrap(),
        r is Some ==> {
            let v = mat_view(r.unwrap());
            v.len() == a@.len() && (forall|i: int|
                0 <= i < v.len() ==> (#[trigger] v[i]).len() == a@[0]@.len()) && mat_wf(v) && ((
            mat_pos(mat_view(*a)) && mat_eq(mat_view(*a), g@) && fwd_ok(g@)) ==> (mat_pos(v)
                && mat_eq(v, fwd_spec(g@))))
        },
{
    let ghost va = mat_view(*a);
    let ghost gg = g@;
    let m = a.len();
    let n = a[0].len();
    let ghost hyp = mat_pos(va) && mat_eq(va, gg);
    let mut cur = copy_mat(a);
    let mut i: usize = 0;
    proof {
        if hyp {
            assert(mat_eq(mat_view(cur), fwd_upto(gg, 0)));
        }
        assert(fwd_acc(va, 0) == Some(mat_view(cur)));
    }
    while i < m
        invariant
            i <= m,
            m == a@.len(),
            n == a@[0]@.len(),
            1 <= m <= n,
            va == mat_view(*a),
            hyp == (mat_pos(va) && mat_eq(va, gg)),
            gg.len() == m,
            forall|k: int| 0 <= k < m ==> (#[trigger] gg[k]).len() == n,
            cur@.len() == m,
            forall|k: int| 0 <= k < m ==> (#[trigger] cur@[k])@.len() == n,
            mat_wf(mat_view(cur)),
            fwd_acc(va, i as int) == Some(mat_view(cur)),
            (hyp && fwd_ok_upto(gg, i as int)) ==> (mat_pos(mat_view(cur)) && mat_eq(
                mat_view(cur),
                fwd_upto(gg, i as int),
            )),
        decreases m - i,
    {
        let pivot = copy_row(&cur[i]);
        proof {
            assert(vec_view(pivot) =~= vec_view(cur@[i as int]));
            assert forall|k: int|
                (i as int) + 1 <= k < m implies row_wf(vec_view(#[trigger] cur@[k])) by {
                assert(mat_view(cur)[k] == vec_view(cur@[k]));
                assert(row_wf(mat_view(cur)[k]));
            }
            assert(mat_view(cur)[i as int] == vec_view(cur@[i as int]));
            assert(row_wf(mat_view(cur)[i as int]));
            assert(row_wf(vec_view(pivot)));
        }
        let upd = par_elim_rows(&cur, &pivot, i, i + 1, m);
        let ghost gpiv = vec_view(pivot);
        let mut next: Vec<Vec<Frac>> = Vec::new();
        let mut k: usize = 0;
        while k < i + 1
            invariant
                k <= i + 1,
                i < m,
                cur@.len() == m,
                next@.len() == k,
                forall|l: int| 0 <= l < k ==> (#[trigger] next@[l])@ == cur@[l]@,
            decreases i + 1 - k,
        {
            next.push(copy_row(&cur[k]));
            k = k + 1;
        }
        let mut k2: usize = 0;
        while k2 < upd.len()
            invariant
                k2 <= upd@.len(),
                upd@.len() == m - i - 1,
                i < m,
                m == a@.len(),
                va == mat_view(*a),
                cur@.len() == m,
                next@.len() == i + 1 + k2,
                gpiv == vec_view(pivot),
                pivot@ == cur@[i as int]@,
                fwd_acc(va, i as int) == Some(mat_view(cur)),
                forall|l: int|
                    0 <= l < upd@.len() ==> elim_post(
                        vec_view(cur@[i + 1 + l]),
                        gpiv,
                        i as int,
                        #[trigger] upd@[l],
                    ),
                forall|l: int| 0 <= l < i + 1 ==> (#[trigger] next@[l])@ == cur@[l]@,
                forall|l: int|
                    0 <= l < k2 ==> (#[trigger] upd@[l]) is Some && next@[i + 1 + l]@
                        == upd@[l].unwrap()@,
            decreases upd@.len() - k2,
        {
            match &upd[k2] {
                Some(rr) => {
                    next.push(copy_row(rr));
                },
                None => {
                    proof {
                        let gcur = mat_view(cur);
                        assert(elim_post(
                            vec_view(cur@[i + 1 + k2 as int]),
                            gpiv,
                            i as int,
                            upd@[k2 as int],
                        ));
                        assert(vec_view(cur@[i + 1 + k2 as int]) == gcur[i + 1 + k2 as int]);
                        assert(gpiv =~= gcur[i as int]);
                        assert(elim_row_acc(
                            gcur[i + 1 + k2 as int],
                            gcur[i as int],
                            i as int,
                        ) is None);
                        assert(fwd_step_acc(gcur, i as int) is None);
                        assert(fwd_acc(va, i as int + 1) is None);
                        lemma_fwd_acc_mono(va, i as int + 1, m as int);
                    }
                    return None;
                },
            }
            k2 = k2 + 1;
        }
        proof {
            let gcur = mat_view(cur);
            let gnext = mat_view(next);
            assert(gnext.len() == m);
            assert(gpiv =~= gcur[i as int]);
            assert forall|rr: int|
                (i as int) < rr < m implies (#[trigger] elim_row_acc(
                gcur[rr],
                gcur[i as int],
                i as int,
            )) is Some by {
                assert(elim_post(vec_view(cur@[rr]), gpiv, i as int, upd@[rr - i - 1]));
                assert(vec_view(cur@[rr]) == gcur[rr]);
                assert(upd@[rr - i - 1] is Some);
            }
            assert(fwd_step_acc(gcur, i as int) is Some);
            assert forall|rr: int|
                0 <= rr < m implies #[trigger] gnext[rr] == fwd_step_acc(
                gcur,
                i as int,
            ).unwrap()[rr] by {
                if rr <= i {
                    assert(next@[rr]@ == cur@[rr]@);
                    assert(vec_view(next@[rr]) =~= vec_view(cur@[rr]));
                } else {
                    assert(elim_post(vec_view(cur@[rr]), gpiv, i as int, upd@[rr - i - 1]));
                    assert(vec_view(cur@[rr]) == gcur[rr]);
                    assert(vec_view(upd@[rr - i - 1].unwrap()) == elim_row_acc(
                        gcur[rr],
                        gcur[i as int],
                        i as int,
                    ).unwrap());
                    assert(next@[rr]@ == upd@[rr - i - 1].unwrap()@);
                    assert(vec_view(next@[rr]) =~= vec_view(upd@[rr - i - 1].unwrap()));
                }
            }
            assert(gnext =~= fwd_step_acc(gcur, i as int).unwrap());
            assert(fwd_acc(va, i as int + 1) == Some(gnext));
            assert forall|l: int| 0 <= l < m implies (#[trigger] next@[l])@.len() == n by {
                if l <= i {
                    assert(next@[l]@ == cur@[l]@);
                    assert(mat_view(cur)[l].len() == n);
                } else {
                    assert(elim_post(vec_view(cur@[l]), gpiv, i as int, upd@[l - i - 1]));
                    assert(vec_view(upd@[l - i - 1].unwrap()).len() == vec_view(
                        cur@[l],
                    ).len());
                    assert(mat_view(cur)[l] == vec_view(cur@[l]));
                    assert(mat_view(cur)[l].len() == n);
                    assert(next@[l]@ == upd@[l - i - 1].unwrap()@);
                }
            }
            assert forall|l: int| 0 <= l < m implies (#[trigger] gnext[l]).len() == n by {
                assert(gnext[l] == vec_view(next@[l]));
            }
            assert forall|l: int| 0 <= l < m implies row_wf(#[trigger] gnext[l]) by {
                if l <= i {
                    assert(vec_view(next@[l]) =~= vec_view(cur@[l]));
                    assert(row_wf(gcur[l]));
                } else {
                    assert(elim_post(vec_view(cur@[l]), gpiv, i as int, upd@[l - i - 1]));
                    assert(vec_view(next@[l]) =~= vec_view(upd@[l - i - 1].unwrap()));
                }
            }
            if hyp && fwd_ok_upto(gg, i as int + 1) {
                assert(fwd_ok_upto(gg, i as int));
                assert(mat_pos(gcur) && mat_eq(gcur, fwd_upto(gg, i as int)));
                let si = fwd_upto(gg, i as int);
                lemma_fwd_upto_is_mat(gg, i as int, m as int, n as int);
                assert(rat_nonzero(fwd_upto(gg, i as int)[i as int][i as int]));
                assert(row_eq(gcur[i as int], si[i as int]));
                assert(rat_eq(gcur[i as int][i as int], si[i as int][i as int]));
                assert(row_pos(gcur[i as int]));
                lemma_rat_eq_nonzero(gcur[i as int][i as int], si[i as int][i as int]);
                assert(gpiv =~= gcur[i as int]);
                assert(fwd_upto(gg, i as int + 1) == fwd_step(si, i as int));
                assert forall|l: int|
                    0 <= l < m implies row_eq(#[trigger] gnext[l], fwd_step(si, i as int)[l])
                    && row_pos(gnext[l]) by {
                    if l <= i {
                        assert(vec_view(next@[l]) =~= vec_view(cur@[l]));
                        assert(row_eq(gcur[l], si[l]));
                        assert(row_pos(gcur[l]));
                    } else {
                        assert(elim_post(vec_view(cur@[l]), gpiv, i as int, upd@[l - i - 1]));
                        assert(vec_view(next@[l]) =~= vec_view(upd@[l - i - 1].unwrap()));
                        assert(row_pos(gcur[l]) && row_pos(gpiv) && gpiv[i as int].n != 0);
                        assert(row_eq(gnext[l], elim_row_upd(gcur[l], gpiv, i as int)));
                        assert(row_eq(gcur[l], si[l]) && row_eq(gpiv, si[i as int]));
                        lemma_elim_row_upd_congr(gcur[l], gpiv, si[l], si[i as int], i as int);
                        lemma_elim_row_upd_proper(gcur[l], gpiv, i as int);
                        lemma_row_eq_trans(
                            gnext[l],
                            elim_row_upd(gcur[l], gpiv, i as int),
                            elim_row_upd(si[l], si[i as int], i as int),
                        );
                        assert(fwd_step(si, i as int)[l] == elim_row_upd(si[l], si[i as int], i as int));
                    }
                }
                assert(mat_eq(gnext, fwd_upto(gg, i as int + 1)));
                assert(mat_pos(gnext));
            }
        }
        cur = next;
        i = i + 1;
    }
    proof {
        if mat_pos(va) && mat_eq(va, gg) && fwd_ok(gg) {
            assert(fwd_ok_upto(gg, m as int));
            assert(mat_eq(mat_view(cur), fwd_spec(gg)));
        }
    }
    Some(cur)
}

/// Forward elimination of a proper matrix with at least as many columns as
/// rows. When every pivot along the way denotes a definite nonzero quantity,
/// the result denotes, cell for cell, the forward elimination of the input;
/// `None` reports that an intermediate value had no machine representative.
pub fn fwd_elim(a: &Vec<Vec<Frac>>) -> (r: Option<Vec<Vec<Frac>>>)
    requires
        a@.len() >= 1,
        forall|i: int| 0 <= i < a@.len() ==> (#[trigger] a@[i])@.len() == a@[0]@.len(),
        a@.len() <= a@[0]@.len(),
        mat_pos(mat_view(*a)),
    ensures
        r is Some <==> fwd_acc(mat_view(*a), a@.len() as int) is Some,
        r is Some ==> mat_view(r.unwrap()) == fwd_acc(mat_view(*a), a@.len() as int).unwrap(),
        r is Some ==> {
            let v = mat_view(r.unwrap());
            v.len() == a@.len() && (forall|i: int|
                0 <= i < v.len() ==> (#[trigger] v[i]).len() == a@[0]@.len()) && mat_wf(v) && (
            fwd_ok(mat_view(*a)) ==> (mat_pos(v) && mat_eq(v, fwd_spec(mat_view(*a)))))
        },
{
    let ghost va = mat_view(*a);
    proof {
        assert forall|i: int| 0 <= i < va.len() implies (#[trigger] va[i]).len() == a@[0]@.len()
            by {}
        assert forall|i: int| 0 <= i < va.len() implies row_eq(#[trigger] va[i], va[i]) by {}
        assert(mat_eq(va, va));
    }
    fwd_pass(a, Ghost(va))
}

/// One backward pivot step as the machine performs it: every row strictly
/// above the pivot row is updated against it, `None` when any row update
/// fails.
pub open spec fn bwd_step_acc(s: Seq<Seq<Rat>>, i: int) -> Option<Seq<Seq<Rat>>> {
    if forall|r: int| 0 <= r < i ==> (#[trigger] elim_row_acc(s[r], s[i], i)) is Some {
        Option::Some(
            Seq::new(
                s.len(),
                |r: int|
                    if r >= i {
                        s[r]
                    } else {
                        elim_row_acc(s[r], s[i], i).unwrap()
                    },
            ),
        )
    } else {
        Option::None
    }
}

/// The backward pivot steps from the last row down to row `k`, as the
/// machine performs them.
pub open spec fn bwd_acc(s: Seq<Seq<Rat>>, k: int) -> Option<Seq<Seq<Rat>>>
    decreases s.len() - k,
{
    if k >= s.len() {
        Option::Some(s)
    } else {
        match bwd_acc(s, k + 1) {
            Option::None => Option::None,
            Option::Some(p) => bwd_step_acc(p, k),
        }
    }
}

/// A backward pass that fails at some pivot fails from there down.
proof fn lemma_bwd_acc_mono(s: Seq<Seq<Rat>>, k: int, e: int)
    requires
        0 <= e <= k,
        bwd_acc(s, k) is None,
    ensures
        bwd_acc(s, e) is None,
    decreases k - e,
{
    if e < k {
        lemma_bwd_acc_mono(s, k, e + 1);
    }
}

/// Back substitution relative to a ghost reference matrix `g` that the
/// input denotes cell for cell: the result, when it exists, denotes the
/// back substitution of `g` whenever every backward pivot of `g` is a
/// definite nonzero quantity.
pub(crate) fn bwd_pass(a: &Vec<Vec<Frac>>, g: Ghost<Seq<Seq<Rat>>>) -> (r: Option<Vec<Vec<Frac>>>)
    requires
        a@.len() >= 1,
        forall|i: int| 0 <= i < a@.len() ==> (#[trigger] a@[i])@.len() == a@[0]@.len(),
        a@.len() <= a@[0]@.len(),
        mat_wf(mat_view(*a)),
        g@.len() == a@.len(),
        forall|i: int| 0 <= i < g@.len() ==> (#[trigger] g@[i]).len() == a@[0]@.len(),
    ensures
        r is Some <==> bwd_acc(mat_view(*a), 0) is Some,
        r is Some ==> mat_view(r.unwrap()) == bwd_acc(mat_view(*a), 0).unwrap(),
        r is Some ==> {
            let v = mat_view(r.unwrap());
            v.len() == a@.len() && (forall|i: int|
                0 <= i < v.len() ==> (#[trigger] v[i]).len() == a@[0]@.len()) && mat_wf(v) && ((
            mat_pos(mat_view(*a)) && mat_eq(mat_view(*a), g@) && bwd_ok(g@)) ==> (mat_pos(v)
                && mat_eq(v, bwd_spec(g@))))
        },
{
    let ghost va = mat_view(*a);
    let ghost gg = g@;
    let m = a.len();
    let n = a[0].len();
    let ghost hyp = mat_pos(va) && mat_eq(va, gg);
    let mut cur = copy_mat(a);
    let mut i: usize = m;
    proof {
        if hyp {
            assert(mat_eq(mat_view(cur), bwd_from(gg, m as int)));
        }
        assert(bwd_acc(va, m as int) == Some(mat_view(cur)));
    }
    while i > 0
        invariant
            i <= m,
            m == a@.len(),
            n == a@[0]@.len(),
            1 <= m <= n,
            va == mat_view(*a),
            hyp == (mat_pos(va) && mat_eq(va, gg)),
            gg.len() == m,
            forall|k: int| 0 <= k < m ==> (#[trigger] gg[k]).len() == n,
            cur@.len() == m,
            forall|k: int| 0 <= k < m ==> (#[trigger] cur@[k])@.len() == n,
            mat_wf(mat_view(cur)),
            bwd_acc(va, i as int) == Some(mat_view(cur)),
            (hyp && bwd_ok_from(gg, i as int)) ==> (mat_pos(mat_view(cur)) && mat_eq(
                mat_view(cur),
                bwd_from(gg, i as int),
            )),
        decreases i,
    {
        let ip = i - 1;
        let pivot = copy_row(&cur[ip]);
        proof {
            assert(vec_view(pivot) =~= vec_view(cur@[ip as int]));
            assert forall|k: int| 0 <= k < ip implies row_wf(vec_view(#[trigger] cur@[k])) by {
                assert(mat_view(cur)[k] == vec_view(cur@[k]));
                assert(row_wf(mat_view(cur)[k]));
            }
            assert(mat_view(cur)[ip as int] == vec_view(cur@[ip as int]));
            assert(row_wf(mat_view(cur)[ip as int]));
            assert(row_wf(vec_view(pivot)));
        }
        let upd = par_elim_rows(&cur, &pivot, ip, 0, ip);
        let ghost gpiv = vec_view(pivot);
        let mut next: Vec<Vec<Frac>> = Vec::new();
        let mut k2: usize = 0;
        while k2 < upd.len()
            invariant
                k2 <= upd@.len(),
                upd@.len() == ip,
                ip < m,
                ip + 1 == i,
                m == a@.len(),
                va == mat_view(*a),
                cur@.len() == m,
                next@.len() == k2,
                gpiv == vec_view(pivot),
                pivot@ == cur@[ip as int]@,
                bwd_acc(va, i as int) == Some(mat_view(cur)),
                forall|l: int|
                    0 <= l < upd@.len() ==> elim_post(
                        vec_view(cur@[l]),
                        gpiv,
                        ip as int,
                        #[trigger] upd@[l],
                    ),
                forall|l: int|
                    0 <= l < k2 ==> (#[trigger] upd@[l]) is Some && next@[l]@
                        == upd@[l].unwrap()@,
            decreases upd@.len() - k2,
        {
            match &upd[k2] {
                Some(rr) => {
                    next.push(copy_row(rr));
                },
                None => {
                    proof {
                        let gcur = mat_view(cur);
                        assert(elim_post(
                            vec_view(cur@[k2 as int]),
                            gpiv,
                            ip as int,
                            upd@[k2 as int],
                        ));
                        assert(vec_view(cur@[k2 as int]) == gcur[k2 as int]);
                        assert(gpiv =~= gcur[ip as int]);
                        assert(elim_row_acc(gcur[k2 as int], gcur[ip as int], ip as int) is None);
                        assert(bwd_step_acc(gcur, ip as int) is None);
                        assert(bwd_acc(va, ip as int) is None);
                        lemma_bwd_acc_mono(va, ip as int, 0);
                    }
                    return None;
                },
            }
            k2 = k2 + 1;
        }
        let mut k: usize = ip;
        while k < m
            invariant
                ip <= k <= m,
                ip < m,
                cur@.len() == m,
                next@.len() == k,
                forall|l: int|
                    0 <= l < ip ==> (#[trigger] upd@[l]) is Some && next@[l]@
                        == upd@[l].unwrap()@,
                forall|l: int| ip <= l < k ==> (#[trigger] next@[l])@ == cur@[l]@,
            decreases m - k,
        {
            next.push(copy_row(&cur[k]));
            k = k + 1;
        }
        proof {
            let gcur = mat_view(cur);
            let gnext = mat_view(next);
            assert(gnext.len() == m);
            assert(gpiv =~= gcur[ip as int]);
            assert forall|rr: int|
                0 <= rr < ip implies (#[trigger] elim_row_acc(
                gcur[rr],
                gcur[ip as int],
                ip as int,
            )) is Some by {
                assert(elim_post(vec_view(cur@[rr]), gpiv, ip as int, upd@[rr]));
                assert(vec_view(cur@[rr]) == gcur[rr]);
                assert(upd@[rr] is Some);
            }
            assert(bwd_step_acc(gcur, ip as int) is Some);
            assert forall|rr: int|
                0 <= rr < m implies #[trigger] gnext[rr] == bwd_step_acc(
                gcur,
                ip as int,
            ).unwrap()[rr] by {
                if rr >= ip {
                    assert(next@[rr]@ == cur@[rr]@);
                    assert(vec_view(next@[rr]) =~= vec_view(cur@[rr]));
                } else {
                    assert(elim_post(vec_view(cur@[rr]), gpiv, ip as int, upd@[rr]));
                    assert(vec_view(cur@[rr]) == gcur[rr]);
                    assert(vec_view(upd@[rr].unwrap()) == elim_row_acc(
                        gcur[rr],
                        gcur[ip as int],
                        ip as int,
                    ).unwrap());
                    assert(next@[rr]@ == upd@[rr].unwrap()@);
                    assert(vec_view(next@[rr]) =~= vec_view(upd@[rr].unwrap()));
                }
            }
            assert(gnext =~= bwd_step_acc(gcur, ip as int).unwrap());
            assert(bwd_acc(va, ip as int) == Some(gnext));
            assert forall|l: int| 0 <= l < m implies (#[trigger] next@[l])@.len() == n by {
                if l >= ip {
                    assert(next@[l]@ == cur@[l]@);
                    assert(mat_view(cur)[l].len() == n);
                } else {
                    assert(elim_post(vec_view(cur@[l]), gpiv, ip as int, upd@[l]));
                    assert(vec_view(upd@[l].unwrap()).len() == vec_view(cur@[l]).len());
                    assert(mat_view(cur)[l] == vec_view(cur@[l]));
                    assert(mat_view(cur)[l].len() == n);
                    assert(next@[l]@ == upd@[l].unwrap()@);
                }
            }
            assert forall|l: int| 0 <= l < m implies (#[trigger] gnext[l]).len() == n by {
                assert(gnext[l] == vec_view(next@[l]));
            }
            assert forall|l: int| 0 <= l < m implies row_wf(#[trigger] gnext[l]) by {
                if l >= ip {
                    assert(vec_view(next@[l]) =~= vec_view(cur@[l]));
                    assert(row_wf(gcur[l]));
                } else {
                    assert(elim_post(vec_view(cur@[l]), gpiv, ip as int, upd@[l]));
                    assert(vec_view(next@[l]) =~= vec_view(upd@[l].unwrap()));
                }
            }
            if hyp && bwd_ok_from(gg, ip as int) {
                assert(bwd_ok_from(gg, i as int));
                assert(mat_pos(gcur) && mat_eq(gcur, bwd_from(gg, i as int)));
                let si = bwd_from(gg, i as int);
                lemma_bwd_from_is_mat(gg, i as int, m as int, n as int);
                assert(rat_nonzero(bwd_from(gg, ip as int + 1)[ip as int][ip as int]));
                assert(row_eq(gcur[ip as int], si[ip as int]));
                assert(rat_eq(gcur[ip as int][ip as int], si[ip as int][ip as int]));
                assert(row_pos(gcur[ip as int]));
                lemma_rat_eq_nonzero(gcur[ip as int][ip as int], si[ip as int][ip as int]);
                assert(gpiv =~= gcur[ip as int]);
                assert(bwd_from(gg, ip as int) == bwd_step(si, ip as int));
                assert forall|l: int|
                    0 <= l < m implies row_eq(#[trigger] gnext[l], bwd_step(si, ip as int)[l])
                    && row_pos(gnext[l]) by {
                    if l >= ip {
                        assert(vec_view(next@[l]) =~= vec_view(cur@[l]));
                        assert(row_eq(gcur[l], si[l]));
                        assert(row_pos(gcur[l]));
                    } else {
                        assert(elim_post(vec_view(cur@[l]), gpiv, ip as int, upd@[l]));
                        assert(vec_view(next@[l]) =~= vec_view(upd@[l].unwrap()));
                        assert(row_pos(gcur[l]) && row_pos(gpiv) && gpiv[ip as int].n != 0);
                        assert(row_eq(gnext[l], elim_row_upd(gcur[l], gpiv, ip as int)));
                        assert(row_eq(gcur[l], si[l]) && row_eq(gpiv, si[ip as int]));
                        lemma_elim_row_upd_congr(gcur[l], gpiv, si[l], si[ip as int], ip as int);
                        lemma_elim_row_upd_proper(gcur[l], gpiv, ip as int);
                        lemma_row_eq_trans(
                            gnext[l],
                            elim_row_upd(gcur[l], gpiv, ip as int),
                            elim_row_upd(si[l], si[ip as int], ip as int),
                        );
                        assert(bwd_step(si, ip as int)[l] == elim_row_upd(
                            si[l],
                            si[ip as int],
                            ip as int,
                        ));
                    }
                }
                assert(mat_eq(gnext, bwd_from(gg, ip as int)));
                assert(mat_pos(gnext));
            }
        }
        cur = next;
        i = ip;
    }
    Some(cur)
}

/// Back substitution of a proper matrix with at least as many columns as
/// rows: on an upper-triangular input it clears everything above the
/// diagonal. When every backward pivot denotes a definite nonzero quantity,
/// the result denotes, cell for cell, the back substitution of the input;
/// `None` reports that an intermediate value had no machine representative.
pub fn bwd_subs(a: &Vec<Vec<Frac>>) -> (r: Option<Vec<Vec<Frac>>>)
    requires
        a@.len() >= 1,
        forall|i: int| 0 <= i < a@.len() ==> (#[trigger] a@[i])@.len() == a@[0]@.len(),
        a@.len() <= a@[0]@.len(),
        mat_pos(mat_view(*a)),
    ensures
        r is Some <==> bwd_acc(mat_view(*a), 0) is Some,
        r is Some ==> mat_view(r.unwrap()) == bwd_acc(mat_view(*a), 0).unwrap(),
        r is Some ==> {
            let v = mat_view(r.unwrap());
            v.len() == a@.len() && (forall|i: int|
                0 <= i < v.len() ==> (#[trigger] v[i]).len() == a@[0]@.len()) && mat_wf(v) && (
            bwd_ok(mat_view(*a)) ==> (mat_pos(v) && mat_eq(v, bwd_spec(mat_view(*a)))))
        },
{
    let ghost va = mat_view(*a);
    proof {
        assert(mat_eq(va, va));
    }
    bwd_pass(a, Ghost(va))
}

/// Whether every division of the row normalization completes on the
/// machine.
pub open spec fn simp_all_ok(s: Seq<Seq<Rat>>) -> bool {
    forall|i: int, j: int|
        0 <= i < s.len() && 0 <= j < s[i].len() ==> #[trigger] frac_div_ok(s[i][j], s[i][i])
}

/// The machine value of the row normalization when it completes.
pub open spec fn simp_val_acc(s: Seq<Seq<Rat>>) -> Seq<Seq<Rat>> {
    Seq::new(s.len(), |i: int| Seq::new(s[i].len(), |j: int| frac_div(s[i][j], s[i][i])))
}

/// Row normalization relative to a ghost reference matrix `g` that the
/// input denotes cell for cell: every row is divided by its own diagonal
/// entry.
pub(crate) fn simp_pass(a: &Vec<Vec<Frac>>, g: Ghost<Seq<Seq<Rat>>>) -> (r: Option<
    Vec<Vec<Frac>>,
>)
    requires
        forall|i: int| 0 <= i < a@.len() ==> (#[trigger] a@[i])@.len() == a@[0]@.len(),
        a@.len() <= a@[0]@.len(),
        mat_wf(mat_view(*a)),
        g@.len() == a@.len(),
        forall|i: int| 0 <= i < g@.len() ==> (#[trigger] g@[i]).len() == a@[0]@.len(),
    ensures
        r is Some <==> simp_all_ok(mat_view(*a)),
        r is Some ==> mat_view(r.unwrap()) == simp_val_acc(mat_view(*a)),
        r is Some ==> {
            let v = mat_view(r.unwrap());
            v.len() == a@.len() && (forall|i: int|
                0 <= i < v.len() ==> (#[trigger] v[i]).len() == a@[0]@.len()) && mat_wf(v) && ((
            mat_pos(mat_view(*a)) && mat_eq(mat_view(*a), g@) && simp_ok(g@)) ==> (mat_pos(v)
                && mat_eq(v, simp_spec(g@))))
        },
{
    let ghost va = mat_view(*a);
    let ghost gg = g@;
    let ghost hyp = mat_pos(va) && mat_eq(va, gg) && simp_ok(gg);
    let m = a.len();
    let mut out: Vec<Vec<Frac>> = Vec::new();
    let mut i: usize = 0;
    while i < m
        invariant
            i <= m,
            m == a@.len(),
            m <= a@[0]@.len(),
            forall|k: int| 0 <= k < m ==> (#[trigger] a@[k])@.len() == a@[0]@.len(),
            va == mat_view(*a),
            mat_wf(va),
            hyp == (mat_pos(va) && mat_eq(va, gg) && simp_ok(gg)),
            out@.len() == i,
            forall|k: int| 0 <= k < i ==> (#[trigger] out@[k])@.len() == a@[0]@.len(),
            forall|k: int, j: int|
                0 <= k < i && 0 <= j < a@[0]@.len() ==> (#[trigger] out@[k]@[j])@.d >= 0,
            forall|k: int, j: int|
                0 <= k < i && 0 <= j < a@[0]@.len() ==> #[trigger] frac_div_ok(
                    va[k][j],
                    va[k][k],
                ),
            forall|k: int, j: int|
                0 <= k < i && 0 <= j < a@[0]@.len() ==> (#[trigger] out@[k]@[j])@ == frac_div(
                    va[k][j],
                    va[k][k],
                ),
            hyp ==> forall|k: int, j: int|
                0 <= k < i && 0 <= j < a@[0]@.len() ==> (#[trigger] out@[k]@[j])@.d > 0
                    && rat_eq(out@[k]@[j]@, simp_spec(gg)[k][j]),
        decreases m - i,
    {
        let row = &a[i];
        let ghost grow = vec_view(*row);
        proof {
            assert(grow == va[i as int]);
            assert(row_wf(va[i as int]));
            if hyp {
                assert(row_pos(va[i as int]));
                assert(row_eq(va[i as int], gg[i as int]));
                assert(rat_nonzero(gg[i as int][i as int]));
                lemma_rat_eq_nonzero(va[i as int][i as int], gg[i as int][i as int]);
            }
        }
        let mut orow: Vec<Frac> = Vec::new();
        let mut j: usize = 0;
        while j < row.len()
            invariant
                j <= row@.len(),
                0 <= i < m,
                m == a@.len(),
                i < row@.len(),
                row == &a@[i as int],
                grow == vec_view(*row),
                va == mat_view(*a),
                row_wf(grow),
                hyp == (mat_pos(va) && mat_eq(va, gg) && simp_ok(gg)),
                hyp ==> row_pos(grow) && row_eq(grow, gg[i as int]) && grow[i as int].n != 0,
                orow@.len() == j,
                forall|l: int| 0 <= l < j ==> (#[trigger] orow@[l])@.d >= 0,
                grow == va[i as int],
                forall|l: int| 0 <= l < j ==> #[trigger] frac_div_ok(grow[l], grow[i as int]),
                forall|l: int|
                    0 <= l < j ==> (#[trigger] orow@[l])@ == frac_div(grow[l], grow[i as int]),
                hyp ==> forall|l: int|
                    0 <= l < j ==> (#[trigger] orow@[l])@.d > 0 && rat_eq(
                        orow@[l]@,
                        rat_div(gg[i as int][l], gg[i as int][i as int]),
                    ),
            decreases row@.len() - j,
        {
            proof {
                assert(grow[j as int] == row@[j as int]@);
                assert(grow[i as int] == row@[i as int]@);
            }
            let cell = match row[j].div(&row[i]) {
                Some(cell) => cell,
                None => {
                    proof {
                        assert(!frac_div_ok(va[i as int][j as int], va[i as int][i as int]));
                        assert(!simp_all_ok(va));
                    }
                    return None;
                },
            };
            proof {
                if hyp {
                    assert(rat_eq(grow[j as int], gg[i as int][j as int]));
                    assert(rat_eq(grow[i as int], gg[i as int][i as int]));
                    lemma_div_lift(
                        cell@,
                        grow[j as int],
                        grow[i as int],
                        gg[i as int][j as int],
                        gg[i as int][i as int],
                    );
                }
            }
            orow.push(cell);
            j = j + 1;
        }
        out.push(orow);
        proof {
            if hyp {
                assert forall|j2: int|
                    0 <= j2 < a@[0]@.len() implies (#[trigger] out@[i as int]@[j2])@.d > 0
                    && rat_eq(out@[i as int]@[j2]@, simp_spec(gg)[i as int][j2]) by {
                    assert(gg[i as int].len() == a@[0]@.len());
                    assert(simp_spec(gg)[i as int][j2] == rat_div(
                        gg[i as int][j2],
                        gg[i as int][i as int],
                    ));
                }
            }
        }
        i = i + 1;
    }
    proof {
        let v = mat_view(out);
        assert forall|k: int| 0 <= k < m implies (#[trigger] v[k]).len() == a@[0]@.len()
            && row_wf(v[k]) by {
            assert(v[k] == vec_view(out@[k]));
        }
        assert forall|k: int, j: int|
            0 <= k < m && 0 <= j < va[k].len() implies #[trigger] frac_div_ok(
            va[k][j],
            va[k][k],
        ) by {
            assert(va[k].len() == a@[0]@.len());
        }
        assert(simp_all_ok(va));
        assert forall|k: int| 0 <= k < m implies #[trigger] v[k] == simp_val_acc(va)[k] by {
            assert(v[k] == vec_view(out@[k]));
            assert(va[k].len() == a@[0]@.len());
            assert forall|j: int|
                0 <= j < va[k].len() implies #[trigger] v[k][j] == simp_val_acc(va)[k][j] by {
                assert(v[k][j] == out@[k]@[j]@);
            }
            assert(v[k] =~= simp_val_acc(va)[k]);
        }
        assert(v =~= simp_val_acc(va));
        if hyp {
            assert forall|k: int| 0 <= k < m implies row_pos(#[trigger] v[k]) && row_eq(
                v[k],
                simp_spec(gg)[k],
            ) by {
                assert(v[k] == vec_view(out@[k]));
                assert(gg[k].len() == a@[0]@.len());
                assert forall|j2: int| 0 <= j2 < a@[0]@.len() implies (#[trigger] v[k][j2]).d > 0
                    && rat_eq(v[k][j2], simp_spec(gg)[k][j2]) by {
                    assert(v[k][j2] == out@[k]@[j2]@);
                }
            }
            assert(mat_eq(v, simp_spec(gg)));
        }
    }
    Some(out)
}

/// Row normalization of a matrix with at least as many columns as rows:
/// every row is divided by its own diagonal entry, turning the left block of
/// a diagonal matrix into the identity and scaling the carried right-hand
/// side into the solution. Exact whenever every diagonal entry denotes a
/// definite nonzero quantity.
pub fn simplify_soln(a: &Vec<Vec<Frac>>) -> (r: Option<Vec<Vec<Frac>>>)
    requires
        forall|i: int| 0 <= i < a@.len() ==> (#[trigger] a@[i])@.len() == a@[0]@.len(),
        a@.len() <= a@[0]@.len(),
        mat_pos(mat_view(*a)),
    ensures
        r is Some <==> simp_all_ok(mat_view(*a)),
        r is Some ==> mat_view(r.unwrap()) == simp_val_acc(mat_view(*a)),
        r is Some ==> {
            let v = mat_view(r.unwrap());
            v.len() == a@.len() && (forall|i: int|
                0 <= i < v.len() ==> (#[trigger] v[i]).len() == a@[0]@.len()) && mat_wf(v) && (
            simp_ok(mat_view(*a)) ==> (mat_pos(v) && mat_eq(v, simp_spec(mat_view(*a)))))
        },
{
    let ghost va = mat_view(*a);
    proof {
        assert(mat_eq(va, va));
    }
    simp_pass(a, Ghost(va))
}

/// The full reduction pipeline as the machine performs it: forward
/// elimination, back substitution, row normalization, `None` as soon as any
/// intermediate canonical value leaves the machine range.
pub open spec fn gauss_acc(s: Seq<Seq<Rat>>) -> Option<Seq<Seq<Rat>>> {
    match fwd_acc(s, s.len() as int) {
        Option::None => Option::None,
        Option::Some(f) => match bwd_acc(f, 0) {
            Option::None => Option::None,
            Option::Some(b) => if simp_all_ok(b) {
                Option::Some(simp_val_acc(b))
            } else {
                Option::None
            },
        },
    }
}

/// A square system augmented with its right-hand side as one extra column.
pub open spec fn solve_aug(a: Seq<Seq<Rat>>, b: Seq<Rat>) -> Seq<Seq<Rat>> {
    Seq::new(a.len(), |i: int| a[i].push(b[i]))
}

/// Solves the square system `A x = b` by augmenting `A` with `b`, running
/// forward elimination, back substitution and row normalization, and
/// splitting off the solution column. When every pivot and diagonal divisor
/// along the pipeline denotes a definite nonzero quantity, the result is,
/// entry for entry, the exact solution column of the reduced system; a
/// singular system instead propagates undefined entries silently. `None`
/// reports that an intermediate value had no machine representative.
pub fn rust_solve(a: &Vec<Vec<Frac>>, b: &Vec<Frac>) -> (r: Option<Vec<Frac>>)
    requires
        mat_square(mat_view(*a)),
        b@.len() == a@.len(),
        mat_pos(mat_view(*a)),
        row_pos(vec_view(*b)),
    ensures
        r is Some <==> gauss_acc(solve_aug(mat_view(*a), vec_view(*b))) is Some,
        r is Some ==> {
            let x = vec_view(r.unwrap());
            let aug = solve_aug(mat_view(*a), vec_view(*b));
            x.len() == a@.len() && (forall|i: int|
                0 <= i < x.len() ==> #[trigger] x[i] == gauss_acc(aug).unwrap()[i][mat_view(
                    *a,
                )[0].len() as int]) && row_wf(x) && (gauss_ok(aug) ==> (row_pos(x) && forall|
                i: int,
            |
                0 <= i < x.len() ==> rat_eq(
                    #[trigger] x[i],
                    gauss_spec(aug)[i][mat_view(*a)[0].len() as int],
                )))
        },
{
    let ghost va = mat_view(*a);
    let ghost vb = vec_view(*b);
    let ghost gaug = solve_aug(va, vb);
    let m = a.len();
    let n = a[0].len();
    let mut bcol: Vec<Vec<Frac>> = Vec::new();
    let mut i: usize = 0;
    while i < m
        invariant
            i <= m,
            m == a@.len(),
            b@.len() == m,
            vb == vec_view(*b),
            bcol@.len() == i,
            forall|k: int| 0 <= k < i ==> (#[trigger] bcol@[k])@.len() == 1,
            forall|k: int| 0 <= k < i ==> (#[trigger] bcol@[k])@[0]@ == vb[k],
        decreases m - i,
    {
        let mut one: Vec<Frac> = Vec::new();
        one.push(b[i]);
        bcol.push(one);
        i = i + 1;
    }
    let aug = augment(a, &bcol);
    proof {
        assert forall|k: int| 0 <= k < m implies #[trigger] mat_view(aug)[k] == gaug[k] by {
            assert(mat_view(aug)[k] == mat_view(*a)[k] + mat_view(bcol)[k]);
            assert(mat_view(bcol)[k] == vec_view(bcol@[k]));
            assert(vec_view(bcol@[k]).len() == 1);
            assert(vec_view(bcol@[k])[0] == vb[k]);
            assert(va[k] + vec_view(bcol@[k]) =~= va[k].push(vb[k]));
        }
        assert(mat_view(aug).len() == m);
        assert forall|k: int| 0 <= k < m implies (#[trigger] aug@[k])@.len() == n + 1 by {
            assert(mat_view(aug)[k] == gaug[k]);
            assert(va[k].len() == va[0].len());
        }
        assert(aug@[0]@.len() == n + 1);
        assert forall|k: int| 0 <= k < m implies row_wf(vec_view(#[trigger] aug@[k]))
            && row_pos(vec_view(aug@[k])) by {
            assert(mat_view(aug)[k] == gaug[k]);
            assert(row_pos(va[k]));
            assert forall|j: int| 0 <= j < n + 1 implies (#[trigger] vec_view(aug@[k])[j]).d > 0
                by {
                assert(vec_view(aug@[k])[j] == gaug[k][j]);
                if j < n {
                    assert(gaug[k][j] == va[k][j]);
                } else {
                    assert(gaug[k][j] == vb[k]);
                }
            }
        }
        assert(mat_pos(mat_view(aug)));
        assert(mat_wf(mat_view(aug)));
        assert(mat_eq(mat_view(aug), gaug));
        assert forall|k: int| 0 <= k < m implies (#[trigger] gaug[k]).len() == n + 1 by {
            assert(va[k].len() == va[0].len());
        }
        assert(mat_view(aug) =~= gaug);
    }
    let w1 = match fwd_pass(&aug, Ghost(gaug)) {
        Some(w1) => w1,
        None => {
            proof {
                assert(fwd_acc(gaug, m as int) is None);
                assert(gauss_acc(gaug) is None);
            }
            return None;
        },
    };
    proof {
        lemma_fwd_upto_is_mat(gaug, m as int, m as int, n as int + 1);
        assert forall|k: int| 0 <= k < w1@.len() implies (#[trigger] w1@[k])@.len()
            == w1@[0]@.len() by {
            assert(mat_view(w1)[k] == vec_view(w1@[k]));
            assert(mat_view(w1)[0] == vec_view(w1@[0]));
            assert(mat_view(w1)[k].len() == n + 1 && mat_view(w1)[0].len() == n + 1);
        }
        assert(mat_view(w1).len() > 0);
        assert(mat_view(w1)[0] == vec_view(w1@[0]));
        assert(mat_view(w1)[0].len() == n + 1);
        assert(w1@[0]@.len() == n + 1);
    }
    proof {
        assert(mat_view(w1) == fwd_acc(gaug, m as int).unwrap());
    }
    let w2 = match bwd_pass(&w1, Ghost(fwd_spec(gaug))) {
        Some(w2) => w2,
        None => {
            proof {
                assert(bwd_acc(fwd_acc(gaug, m as int).unwrap(), 0) is None);
                assert(gauss_acc(gaug) is None);
            }
            return None;
        },
    };
    proof {
        assert(mat_view(w2) == bwd_acc(fwd_acc(gaug, m as int).unwrap(), 0).unwrap());
        lemma_bwd_from_is_mat(fwd_spec(gaug), 0, m as int, n as int + 1);
        assert forall|k: int| 0 <= k < w2@.len() implies (#[trigger] w2@[k])@.len()
            == w2@[0]@.len() by {
            assert(mat_view(w2)[k] == vec_view(w2@[k]));
            assert(mat_view(w2)[0] == vec_view(w2@[0]));
            assert(mat_view(w2)[k].len() == n + 1 && mat_view(w2)[0].len() == n + 1);
        }
        assert(mat_view(w2).len() > 0);
        assert(mat_view(w2)[0] == vec_view(w2@[0]));
        assert(mat_view(w2)[0].len() == n + 1);
        assert(w2@[0]@.len() == n + 1);
    }
    let w3 = match simp_pass(&w2, Ghost(bwd_spec(fwd_spec(gaug)))) {
        Some(w3) => w3,
        None => {
            proof {
                assert(!simp_all_ok(bwd_acc(fwd_acc(gaug, m as int).unwrap(), 0).unwrap()));
                assert(gauss_acc(gaug) is None);
            }
            return None;
        },
    };
    proof {
        assert(mat_view(w3) == simp_val_acc(bwd_acc(fwd_acc(gaug, m as int).unwrap(), 0).unwrap()));
        assert(gauss_acc(gaug) == Some(mat_view(w3)));
        assert forall|k: int| 0 <= k < m implies (#[trigger] w3@[k])@.len() >= 1 by {
            assert(mat_view(w3)[k] == vec_view(w3@[k]));
            assert(mat_view(w3)[k].len() == n + 1);
        }
    }
    let pair = split_last_col(&w3);
    let x = pair.1;
    proof {
        if gauss_ok(gaug) {
            assert(mat_pos(mat_view(aug)) && mat_eq(mat_view(aug), gaug) && fwd_ok(gaug));
            assert(mat_pos(mat_view(w1)) && mat_eq(mat_view(w1), fwd_spec(gaug)));
            assert(mat_pos(mat_view(w2)) && mat_eq(mat_view(w2), bwd_spec(fwd_spec(gaug))));
            assert(mat_pos(mat_view(w3)) && mat_eq(mat_view(w3), gauss_spec(gaug)));
            assert forall|k: int| 0 <= k < m implies (#[trigger] vec_view(x)[k]).d > 0 && rat_eq(
                vec_view(x)[k],
                gauss_spec(gaug)[k][n as int],
            ) by {
                assert(vec_view(x)[k] == mat_view(w3)[k].last());
                assert(mat_view(w3)[k].len() == n + 1);
                assert(mat_view(w3)[k].last() == mat_view(w3)[k][n as int]);
                assert(row_pos(mat_view(w3)[k]));
                assert(row_eq(mat_view(w3)[k], gauss_spec(gaug)[k]));
            }
            assert(row_pos(vec_view(x)));
        }
        assert forall|k: int| 0 <= k < m implies (#[trigger] vec_view(x)[k]).d >= 0 by {
            assert(vec_view(x)[k] == mat_view(w3)[k].last());
            assert(mat_view(w3)[k].len() == n + 1);
            assert(mat_view(w3)[k].last() == mat_view(w3)[k][n as int]);
            assert(row_wf(mat_view(w3)[k]));
        }
        assert forall|k: int|
            0 <= k < m implies #[trigger] vec_view(x)[k] == gauss_acc(gaug).unwrap()[k][n as int]
            by {
            assert(vec_view(x)[k] == mat_view(w3)[k].last());
            assert(mat_view(w3)[k].len() == n + 1);
            assert(mat_view(w3)[k].last() == mat_view(w3)[k][n as int]);
        }
    }
    Some(x)
}

/// Linear-system solve at the kernel boundary: `A` must be square and `b`
/// must have one entry per row of `A`, else the input is refused as a shape
/// violation.
pub fn solve(a: &Vec<Vec<Frac>>, b: &Vec<Frac>) -> (r: Result<Vec<Frac>, MatError>)
    requires
        mat_pos(mat_view(*a)),
        row_pos(vec_view(*b)),
    ensures
        !(mat_square(mat_view(*a)) && b@.len() == a@.len()) <==> (r matches Err(e)
            && e is ShapeViolation),
        r is Ok <==> (mat_square(mat_view(*a)) && b@.len() == a@.len() && gauss_acc(
            solve_aug(mat_view(*a), vec_view(*b)),
        ) is Some),
        r is Ok ==> {
            let x = vec_view(r.unwrap());
            let aug = solve_aug(mat_view(*a), vec_view(*b));
            x.len() == a@.len() && (forall|i: int|
                0 <= i < x.len() ==> #[trigger] x[i] == gauss_acc(aug).unwrap()[i][mat_view(
                    *a,
                )[0].len() as int]) && (gauss_ok(aug) ==> forall|i: int|
                0 <= i < x.len() ==> rat_eq(
                    #[trigger] x[i],
                    gauss_spec(aug)[i][mat_view(*a)[0].len() as int],
                ))
        },
{
    if !is_square_matrix(a) {
        return Err(MatError::ShapeViolation);
    }
    if b.len() != a.len() {
        return Err(MatError::ShapeViolation);
    }
    match rust_solve(a, b) {
        Some(x) => Ok(x),
        None => Err(MatError::Overflow),
    }
}

/// Whether a row holds a definite nonzero entry at or after column `from`.
pub open spec fn row_rank_flag(row: Seq<Rat>, from: int) -> int {
    if exists|j: int| from <= j < row.len() && (#[trigger] row[j]).n != 0 {
        1
    } else {
        0
    }
}

/// How many of the first `k` rows hold a nonzero entry at or after their own
/// diagonal column.
pub open spec fn rank_upto(s: Seq<Seq<Rat>>, k: int) -> int
    decreases k,
{
    if k <= 0 {
        0
    } else {
        rank_upto(s, k - 1) + row_rank_flag(s[k - 1], k - 1)
    }
}

/// The rank count of a reduced matrix: rows that kept a nonzero coefficient
/// at or after their own diagonal column.
pub open spec fn rank_spec(s: Seq<Seq<Rat>>) -> int {
    rank_upto(s, s.len() as int)
}

/// The last coefficient of the row from column `b` on that denotes a
/// nonzero quantity, or zero when there is none.
fn first_non_zero(a: &Vec<Frac>, b: usize) -> (r: Frac)
    requires
        b <= a@.len(),
        row_wf(vec_view(*a)),
    ensures
        r.wf(),
        (r@.n != 0) <==> (exists|j: int|
            b <= j < a@.len() && (#[trigger] vec_view(*a)[j]).n != 0),
        r@.n != 0 ==> (exists|j: int| b <= j < a@.len() && (#[trigger] vec_view(*a)[j]) == r@),
{
    let ghost ga = vec_view(*a);
    let mut acc: Frac = Frac::from_int(0);
    let mut j: usize = b;
    while j < a.len()
        invariant
            b <= j <= a@.len(),
            ga == vec_view(*a),
            row_wf(ga),
            acc.wf(),
            (acc@.n != 0) <==> (exists|l: int| b <= l < j && (#[trigger] ga[l]).n != 0),
            acc@.n != 0 ==> (exists|l: int| b <= l < j && (#[trigger] ga[l]) == acc@),
        decreases a@.len() - j,
    {
        proof {
            assert(ga[j as int] == a@[j as int]@);
        }
        if !a[j].is_zero() {
            acc = a[j];
            proof {
                assert(ga[j as int].n != 0);
            }
        } else {
            proof {
                if exists|l: int| b <= l < j + 1 && (#[trigger] ga[l]).n != 0 {
                    let l = choose|l: int| b <= l < j + 1 && (#[trigger] ga[l]).n != 0;
                    assert(l < j || l == j);
                    if l == j {
                        assert(ga[j as int].n == 0);
                    }
                }
            }
        }
        j = j + 1;
    }
    acc
}

/// The rank of a square matrix: run the full reduction pipeline, then count
/// the rows that kept a nonzero coefficient at or after their own diagonal
/// column. Exact whenever the pipeline's pivots and the reduced matrix are
/// definite; `None` reports that an intermediate value had no machine
/// representative.
pub fn rust_mat_rank(a: &Vec<Vec<Frac>>) -> (r: Option<usize>)
    requires
        mat_square(mat_view(*a)),
        mat_pos(mat_view(*a)),
    ensures
        r is Some <==> gauss_acc(mat_view(*a)) is Some,
        r is Some ==> r.unwrap() as int == rank_upto(
            gauss_acc(mat_view(*a)).unwrap(),
            a@.len() as int,
        ),
        r is Some ==> r.unwrap() <= a@.len() && ((gauss_ok(mat_view(*a)) && mat_def(
            gauss_spec(mat_view(*a)),
        )) ==> r.unwrap() as int == rank_spec(gauss_spec(mat_view(*a)))),
{
    let ghost va = mat_view(*a);
    let ghost gsp = gauss_spec(va);
    let ghost hyp = gauss_ok(va) && mat_def(gsp);
    let m = a.len();
    proof {
        assert forall|k: int| 0 <= k < a@.len() implies (#[trigger] a@[k])@.len()
            == a@[0]@.len() by {
            assert(mat_view(*a)[k] == vec_view(a@[k]));
            assert(mat_view(*a)[0] == vec_view(a@[0]));
            assert(mat_view(*a)[k].len() == mat_view(*a)[0].len());
        }
        assert(a@[0]@.len() == m);
        assert(mat_wf(va));
        assert forall|k: int| 0 <= k < va.len() implies (#[trigger] va[k]).len() == m by {}
    }
    let w1 = match fwd_pass(a, Ghost(va)) {
        Some(w1) => w1,
        None => {
            proof {
                assert(fwd_acc(va, m as int) is None);
                assert(gauss_acc(va) is None);
            }
            return None;
        },
    };
    proof {
        assert(mat_view(w1) == fwd_acc(va, m as int).unwrap());
        lemma_fwd_upto_is_mat(va, m as int, m as int, m as int);
        assert forall|k: int| 0 <= k < w1@.len() implies (#[trigger] w1@[k])@.len()
            == w1@[0]@.len() by {
            assert(mat_view(w1)[k] == vec_view(w1@[k]));
            assert(mat_view(w1)[0] == vec_view(w1@[0]));
            assert(mat_view(w1)[k].len() == m && mat_view(w1)[0].len() == m);
        }
        assert(mat_view(w1).len() > 0);
        assert(mat_view(w1)[0] == vec_view(w1@[0]));
        assert(mat_view(w1)[0].len() == m);
        assert(w1@[0]@.len() == m);
    }
    let w2 = match bwd_pass(&w1, Ghost(fwd_spec(va))) {
        Some(w2) => w2,
        None => {
            proof {
                assert(bwd_acc(fwd_acc(va, m as int).unwrap(), 0) is None);
                assert(gauss_acc(va) is None);
            }
            return None;
        },
    };
    proof {
        assert(mat_view(w2) == bwd_acc(fwd_acc(va, m as int).unwrap(), 0).unwrap());
        lemma_bwd_from_is_mat(fwd_spec(va), 0, m as int, m as int);
        assert forall|k: int| 0 <= k < w2@.len() implies (#[trigger] w2@[k])@.len()
            == w2@[0]@.len() by {
            assert(mat_view(w2)[k] == vec_view(w2@[k]));
            assert(mat_view(w2)[0] == vec_view(w2@[0]));
            assert(mat_view(w2)[k].len() == m && mat_view(w2)[0].len() == m);
        }
        assert(mat_view(w2).len() > 0);
        assert(mat_view(w2)[0] == vec_view(w2@[0]));
        assert(mat_view(w2)[0].len() == m);
        assert(w2@[0]@.len() == m);
    }
    let w3 = match simp_pass(&w2, Ghost(bwd_spec(fwd_spec(va)))) {
        Some(w3) => w3,
        None => {
            proof {
                assert(!simp_all_ok(bwd_acc(fwd_acc(va, m as int).unwrap(), 0).unwrap()));
                assert(gauss_acc(va) is None);
            }
            return None;
        },
    };
    proof {
        assert(mat_view(w3) == simp_val_acc(bwd_acc(fwd_acc(va, m as int).unwrap(), 0).unwrap()));
        assert(gauss_acc(va) == Some(mat_view(w3)));
        assert forall|k: int| 0 <= k < m implies (#[trigger] w3@[k])@.len() == m by {
            assert(mat_view(w3)[k] == vec_view(w3@[k]));
            assert(mat_view(w3)[k].len() == m);
        }
        if hyp {
            assert(mat_eq(va, va));
            assert(mat_pos(mat_view(w1)) && mat_eq(mat_view(w1), fwd_spec(va)));
            assert(mat_pos(mat_view(w2)) && mat_eq(mat_view(w2), bwd_spec(fwd_spec(va))));
            assert(mat_pos(mat_view(w3)) && mat_eq(mat_view(w3), gsp));
        }
    }
    let mut count: usize = 0;
    let mut i: usize = 0;
    while i < m
        invariant
            i <= m,
            m == a@.len(),
            count <= i,
            va == mat_view(*a),
            gsp == gauss_spec(va),
            hyp == (gauss_ok(va) && mat_def(gsp)),
            w3@.len() == m,
            forall|k: int| 0 <= k < m ==> (#[trigger] w3@[k])@.len() == m,
            mat_wf(mat_view(w3)),
            gauss_acc(va) == Some(mat_view(w3)),
            count as int == rank_upto(mat_view(w3), i as int),
            hyp ==> mat_pos(mat_view(w3)) && mat_eq(mat_view(w3), gsp),
            hyp ==> count as int == rank_upto(gsp, i as int),
        decreases m - i,
    {
        proof {
            assert(mat_view(w3)[i as int] == vec_view(w3@[i as int]));
            assert(row_wf(mat_view(w3)[i as int]));
        }
        let fnz = first_non_zero(&w3[i], i);
        proof {
            assert(vec_view(w3@[i as int]) == mat_view(w3)[i as int]);
            if fnz@.n != 0 {
                assert(row_rank_flag(mat_view(w3)[i as int], i as int) == 1);
            } else {
                assert(row_rank_flag(mat_view(w3)[i as int], i as int) == 0);
            }
            if hyp {
                let erow = vec_view(w3@[i as int]);
                let srow = gsp[i as int];
                assert(row_pos(erow) && row_eq(erow, srow) && row_def(srow));
                if fnz@.n != 0 {
                    let j = choose|j: int|
                        i <= j < erow.len() && (#[trigger] erow[j]).n != 0;
                    lemma_rat_eq_zero_iff(erow[j], srow[j]);
                    assert(i <= j < srow.len() && srow[j].n != 0);
                    assert(row_rank_flag(srow, i as int) == 1);
                } else {
                    if exists|j: int| i <= j < srow.len() && (#[trigger] srow[j]).n != 0 {
                        let j = choose|j: int|
                            i <= j < srow.len() && (#[trigger] srow[j]).n != 0;
                        lemma_rat_eq_zero_iff(erow[j], srow[j]);
                        assert(erow[j].n != 0);
                        assert(fnz@.n != 0);
                    }
                    assert(row_rank_flag(srow, i as int) == 0);
                }
            }
        }
        if !fnz.is_zero() {
            count = count + 1;
        }
        i = i + 1;
    }
    Some(count)
}

/// Matrix rank at the kernel boundary: the matrix must be square, else the
/// input is refused as a shape violation.
pub fn matrix_rank(a: &Vec<Vec<Frac>>) -> (r: Result<usize, MatError>)
    requires
        mat_pos(mat_view(*a)),
    ensures
        !mat_square(mat_view(*a)) <==> (r matches Err(e) && e is ShapeViolation),
        r is Ok <==> (mat_square(mat_view(*a)) && gauss_acc(mat_view(*a)) is Some),
        r is Ok ==> r.unwrap() as int == rank_upto(
            gauss_acc(mat_view(*a)).unwrap(),
            a@.len() as int,
        ),
        r is Ok ==> r.unwrap() <= a@.len() && ((gauss_ok(mat_view(*a)) && mat_def(
            gauss_spec(mat_view(*a)),
        )) ==> r.unwrap() as int == rank_spec(gauss_spec(mat_view(*a)))),
{
    if !is_square_matrix(a) {
        return Err(MatError::ShapeViolation);
    }
    match rust_mat_rank(a) {
        Some(c) => Ok(c),
        None => Err(MatError::Overflow),
    }
}

/// Eliminating a row against any pivot cancels the pivot-column entry
/// outright: the formal numerator vanishes.
proof fn lemma_elim_cancels(x: Rat, p: Rat)
    ensures
        rat_sub(x, rat_mul(rat_div(x, p), p)).n == 0,
{
    assert(x.n * ((x.d * p.n) * p.d) - ((x.n * p.d) * p.n) * x.d == 0) by (nonlinear_arith);
}

/// Subtracting any multiple of a zero-numerator value keeps a zero
/// numerator at zero.
proof fn lemma_zero_stays(x: Rat, f: Rat, q: Rat)
    requires
        q.n == 0,
        x.n == 0,
    ensures
        rat_sub(x, rat_mul(f, q)).n == 0,
{
    assert(x.n * (f.d * q.d) - (f.n * q.n) * x.d == 0) by (nonlinear_arith)
        requires
            q.n == 0,
            x.n == 0,
    ;
}

/// The first `k` forward pivot steps leave zero numerators everywhere below
/// the diagonal in the first `k` columns, whatever the pivots are.
proof fn lemma_fwd_tri_upto(s: Seq<Seq<Rat>>, k: int, m: int, n: int)
    requires
        crate::my_util::is_mat(s, m, n),
        m <= n,
        0 <= k <= m,
    ensures
        forall|i: int, j: int| 0 <= j < k && j < i < m ==> fwd_upto(s, k)[i][j].n == 0,
    decreases k,
{
    if k > 0 {
        lemma_fwd_tri_upto(s, k - 1, m, n);
        lemma_fwd_upto_is_mat(s, k - 1, m, n);
        let prev = fwd_upto(s, k - 1);
        let cur = fwd_upto(s, k);
        assert(cur == fwd_step(prev, k - 1));
        assert forall|i: int, j: int|
            0 <= j < k && j < i < m implies #[trigger] cur[i][j].n == 0 by {
            if i <= k - 1 {
                assert(cur[i] == prev[i]);
                assert(prev[i][j].n == 0);
            } else {
                assert(cur[i] == elim_row_upd(prev[i], prev[k - 1], k - 1));
                if j < k - 1 {
                    assert(cur[i][j] == prev[i][j]);
                    assert(prev[i][j].n == 0);
                } else {
                    assert(j == k - 1);
                    assert(cur[i][j] == rat_sub(
                        prev[i][j],
                        rat_mul(rat_div(prev[i][j], prev[k - 1][k - 1]), prev[k - 1][j]),
                    ));
                    assert(prev[k - 1][j] == prev[k - 1][k - 1]);
                    lemma_elim_cancels(prev[i][j], prev[k - 1][k - 1]);
                }
            }
        }
    }
}

/// Forward elimination produces a matrix that is upper triangular in its
/// first block of columns: every entry below the diagonal has a vanishing
/// numerator, whatever the pivots are.
pub proof fn lemma_fwd_makes_triangular(s: Seq<Seq<Rat>>, m: int, n: int)
    requires
        crate::my_util::is_mat(s, m, n),
        m <= n,
    ensures
        forall|i: int, j: int| 0 <= j < i < m ==> fwd_spec(s)[i][j].n == 0,
{
    lemma_fwd_tri_upto(s, m, m, n);
}

/// The backward pivot steps from the bottom down to row `k` clear the
/// numerators above the diagonal in the columns from `k` on, and keep the
/// zeros below the diagonal, whatever the pivots are.
proof fn lemma_bwd_diag_from(s: Seq<Seq<Rat>>, k: int, m: int, n: int)
    requires
        crate::my_util::is_mat(s, m, n),
        m <= n,
        0 <= k <= m,
        forall|i: int, j: int| 0 <= j < i < m ==> (#[trigger] s[i][j]).n == 0,
    ensures
        forall|i: int, j: int| 0 <= j < i < m ==> bwd_from(s, k)[i][j].n == 0,
        forall|i: int, j: int| 0 <= i < j < m && k <= j ==> bwd_from(s, k)[i][j].n == 0,
    decreases m - k,
{
    if k < m {
        lemma_bwd_diag_from(s, k + 1, m, n);
        lemma_bwd_from_is_mat(s, k + 1, m, n);
        let prev = bwd_from(s, k + 1);
        let cur = bwd_from(s, k);
        assert(cur == bwd_step(prev, k));
        assert forall|i: int, j: int|
            0 <= j < i < m implies #[trigger] cur[i][j].n == 0 by {
            if i >= k {
                assert(cur[i] == prev[i]);
                assert(prev[i][j].n == 0);
            } else {
                assert(cur[i] == elim_row_upd(prev[i], prev[k], k));
                assert(j < i < k);
                assert(cur[i][j] == prev[i][j]);
                assert(prev[i][j].n == 0);
            }
        }
        assert forall|i: int, j: int|
            0 <= i < j < m && k <= j implies #[trigger] cur[i][j].n == 0 by {
            if i >= k {
                assert(cur[i] == prev[i]);
                assert(k + 1 <= j);
                assert(prev[i][j].n == 0);
            } else {
                assert(cur[i] == elim_row_upd(prev[i], prev[k], k));
                if j == k {
                    assert(cur[i][j] == rat_sub(
                        prev[i][j],
                        rat_mul(rat_div(prev[i][k], prev[k][k]), prev[k][j]),
                    ));
                    assert(prev[k][j] == prev[k][k]);
                    lemma_elim_cancels(prev[i][j], prev[k][k]);
                } else {
                    assert(k < j);
                    assert(cur[i][j] == rat_sub(
                        prev[i][j],
                        rat_mul(rat_div(prev[i][k], prev[k][k]), prev[k][j]),
                    ));
                    assert(prev[k][j].n == 0);
                    assert(prev[i][j].n == 0);
                    lemma_zero_stays(
                        prev[i][j],
                        rat_div(prev[i][k], prev[k][k]),
                        prev[k][j],
                    );
                }
            }
        }
    }
}

/// On an input that is upper triangular in values, back substitution clears
/// everything above the diagonal as well: its net effect is a diagonal
/// matrix in the first block of columns, whatever the pivots are.
pub proof fn lemma_bwd_makes_diagonal(s: Seq<Seq<Rat>>, m: int, n: int)
    requires
        crate::my_util::is_mat(s, m, n),
        m <= n,
        forall|i: int, j: int| 0 <= j < i < m ==> (#[trigger] s[i][j]).n == 0,
    ensures
        forall|i: int, j: int|
            0 <= i < m && 0 <= j < m && i != j ==> bwd_spec(s)[i][j].n == 0,
{
    lemma_bwd_diag_from(s, 0, m, n);
    assert forall|i: int, j: int|
        0 <= i < m && 0 <= j < m && i != j implies #[trigger] bwd_spec(s)[i][j].n == 0 by {
        if j < i {
            assert(bwd_from(s, 0)[i][j].n == 0);
        } else {
            assert(bwd_from(s, 0)[i][j].n == 0);
        }
    }
}

} // verus!
