//! Vector kernels: dot product, outer product, and the squared Euclidean
//! norm, the primitives the matrix multiply engine is built on.

use vstd::prelude::*;

use crate::error::MatError;
use crate::frac::{frac_add, frac_add_ok, frac_mul, frac_mul_ok, Frac};
use crate::my_util::{is_mat, mat_pos, mat_view, row_pos, vec_view};
use crate::rat::{rat_add, rat_dot, rat_eq, rat_int, rat_mul, Rat};

verus! {

/// The unbounded values of a sequence of machine integers.
pub open spec fn iseq(s: Seq<i64>) -> Seq<int> {
    Seq::new(s.len(), |i: int| s[i] as int)
}

/// The exact integer dot product, accumulated left to right.
pub open spec fn dot_i_val(x: Seq<int>, y: Seq<int>) -> int
    decreases x.len(),
{
    if x.len() == 0 || y.len() == 0 {
        0
    } else {
        dot_i_val(x.drop_last(), y.drop_last()) + x.last() * y.last()
    }
}

/// Whether every elementwise product and every running partial sum of the
/// integer dot product stays within the machine range.
pub open spec fn dot_i_fits(x: Seq<int>, y: Seq<int>) -> bool
    decreases x.len(),
{
    if x.len() == 0 || y.len() == 0 {
        true
    } else {
        dot_i_fits(x.drop_last(), y.drop_last()) && i64::MIN <= x.last() * y.last() <= i64::MAX
            && i64::MIN <= dot_i_val(x.drop_last(), y.drop_last()) + x.last() * y.last()
            <= i64::MAX
    }
}

/// A dot product that fits also fits on every prefix.
proof fn lemma_dot_i_fits_prefix(x: Seq<int>, y: Seq<int>, k: int)
    requires
        x.len() == y.len(),
        0 <= k <= x.len(),
        dot_i_fits(x, y),
    ensures
        dot_i_fits(x.take(k), y.take(k)),
    decreases x.len() - k,
{
    if k == x.len() {
        assert(x.take(k) =~= x);
        assert(y.take(k) =~= y);
    } else {
        assert(x.drop_last().take(k) =~= x.take(k));
        assert(y.drop_last().take(k) =~= y.take(k));
        lemma_dot_i_fits_prefix(x.drop_last(), y.drop_last(), k);
    }
}

/// The parallel integer dot product. Returns the exact value, or `None`
/// exactly when some elementwise product or running sum leaves the machine
/// range.
pub fn dot_int(xs: &Vec<i64>, ys: &Vec<i64>) -> (r: Option<i64>)
    requires
        xs@.len() == ys@.len(),
    ensures
        r is Some <==> dot_i_fits(iseq(xs@), iseq(ys@)),
        r is Some ==> r.unwrap() as int == dot_i_val(iseq(xs@), iseq(ys@)),
{
    let ghost gx = iseq(xs@);
    let ghost gy = iseq(ys@);
    let mut acc: i64 = 0;
    let mut k: usize = 0;
    while k < xs.len()
        invariant
            k <= xs@.len(),
            xs@.len() == ys@.len(),
            gx == iseq(xs@),
            gy == iseq(ys@),
            acc as int == dot_i_val(gx.take(k as int), gy.take(k as int)),
            dot_i_fits(gx.take(k as int), gy.take(k as int)),
        decreases xs@.len() - k,
    {
        proof {
            assert(gx.take(k as int + 1).drop_last() =~= gx.take(k as int));
            assert(gy.take(k as int + 1).drop_last() =~= gy.take(k as int));
        }
        proof {
            crate::frac::lemma_prod_bound(xs@[k as int] as int, ys@[k as int] as int);
        }
        let p: i128 = xs[k] as i128 * ys[k] as i128;
        if p < i64::MIN as i128 || p > i64::MAX as i128 {
            proof {
                if dot_i_fits(gx, gy) {
                    lemma_dot_i_fits_prefix(gx, gy, k as int + 1);
                }
            }
            return None;
        }
        let s: i128 = acc as i128 + p;
        if s < i64::MIN as i128 || s > i64::MAX as i128 {
            proof {
                if dot_i_fits(gx, gy) {
                    lemma_dot_i_fits_prefix(gx, gy, k as int + 1);
                }
            }
            return None;
        }
        acc = s as i64;
        k = k + 1;
    }
    proof {
        assert(gx.take(k as int) =~= gx);
        assert(gy.take(k as int) =~= gy);
    }
    Some(acc)
}

/// The dot-product computation as the machine performs it: canonical
/// reduced values accumulated left to right, `None` from the first
/// intermediate whose reduced form leaves the machine range.
pub open spec fn dot_acc(x: Seq<Rat>, y: Seq<Rat>) -> Option<Rat>
    decreases x.len(),
{
    if x.len() == 0 || y.len() == 0 {
        Some(rat_int(0))
    } else {
        match dot_acc(x.drop_last(), y.drop_last()) {
            Option::None => Option::None,
            Option::Some(acc) => if !frac_mul_ok(x.last(), y.last()) {
                Option::None
            } else if !frac_add_ok(acc, frac_mul(x.last(), y.last())) {
                Option::None
            } else {
                Option::Some(frac_add(acc, frac_mul(x.last(), y.last()))) 
            },
        }
    }
}

/// A dot product that completes also completes on every prefix.
pub proof fn lemma_dot_acc_prefix(x: Seq<Rat>, y: Seq<Rat>, k: int)
    requires
        x.len() == y.len(),
        0 <= k <= x.len(),
        dot_acc(x, y) is Some,
    ensures
        dot_acc(x.take(k), y.take(k)) is Some,
    decreases x.len() - k,
{
    if k == x.len() {
        assert(x.take(k) =~= x);
        assert(y.take(k) =~= y);
    } else {
        assert(x.drop_last().take(k) =~= x.take(k));
        assert(y.drop_last().take(k) =~= y.take(k));
        lemma_dot_acc_prefix(x.drop_last(), y.drop_last(), k);
    }
}

/// The exact dot product of two equally long vectors of fractions; `None`
/// reports that an intermediate value had no machine representative.
pub fn rust_dot(xs: &Vec<Frac>, ys: &Vec<Frac>) -> (r: Option<Frac>)
    requires
        xs@.len() == ys@.len(),
        row_pos(vec_view(*xs)),
        row_pos(vec_view(*ys)),
    ensures
        r is Some <==> dot_acc(vec_view(*xs), vec_view(*ys)) is Some,
        r is Some ==> r.unwrap()@ == dot_acc(vec_view(*xs), vec_view(*ys)).unwrap(),
        r is Some ==> r.unwrap().pos() && rat_eq(
            r.unwrap()@,
            rat_dot(vec_view(*xs), vec_view(*ys)),
        ),
{
    let ghost gx = vec_view(*xs);
    let ghost gy = vec_view(*ys);
    let mut acc: Frac = Frac::from_int(0);
    let mut k: usize = 0;
    while k < xs.len()
        invariant
            k <= xs@.len(),
            xs@.len() == ys@.len(),
            gx == vec_view(*xs),
            gy == vec_view(*ys),
            row_pos(gx),
            row_pos(gy),
            acc.pos(),
            rat_eq(acc@, rat_dot(gx.take(k as int), gy.take(k as int))),
            dot_acc(gx.take(k as int), gy.take(k as int)) == Some(acc@),
        decreases xs@.len() - k,
    {
        proof {
            assert(gx[k as int] == xs@[k as int]@ && gx[k as int].d > 0);
            assert(gy[k as int] == ys@[k as int]@ && gy[k as int].d > 0);
            assert(gx.take(k as int + 1).drop_last() =~= gx.take(k as int));
            assert(gy.take(k as int + 1).drop_last() =~= gy.take(k as int));
            assert(gx.take(k as int + 1).last() == gx[k as int]);
            assert(gy.take(k as int + 1).last() == gy[k as int]);
        }
        let p = match xs[k].mul(&ys[k]) {
            Some(p) => p,
            None => {
                proof {
                    assert(dot_acc(gx.take(k as int + 1), gy.take(k as int + 1)) is None);
                    if dot_acc(gx, gy) is Some {
                        lemma_dot_acc_prefix(gx, gy, k as int + 1);
                    }
                }
                return None;
            },
        };
        let next = match acc.add(&p) {
            Some(next) => next,
            None => {
                proof {
                    assert(dot_acc(gx.take(k as int + 1), gy.take(k as int + 1)) is None);
                    if dot_acc(gx, gy) is Some {
                        lemma_dot_acc_prefix(gx, gy, k as int + 1);
                    }
                }
                return None;
            },
        };
        proof {
            assert(gx.take(k as int + 1).drop_last() =~= gx.take(k as int));
            assert(gy.take(k as int + 1).drop_last() =~= gy.take(k as int));
            assert(gx.take(k as int + 1).last() == gx[k as int]);
            let partial = rat_dot(gx.take(k as int), gy.take(k as int));
            let cell = rat_mul(gx[k as int], gy[k as int]);
            crate::rat::lemma_rat_add_congr(acc@, partial, p@, cell);
            assert(rat_add(acc@, p@).d > 0) by (nonlinear_arith)
                requires
                    acc@.d > 0,
                    p@.d > 0,
            ;
            crate::rat::lemma_rat_eq_trans(next@, rat_add(acc@, p@), rat_add(partial, cell));
        }
        acc = next;
        k = k + 1;
    }
    proof {
        assert(gx.take(k as int) =~= gx);
        assert(gy.take(k as int) =~= gy);
    }
    Some(acc)
}

/// The dot product at the kernel boundary: rejects vectors whose lengths
/// differ, otherwise hands the exact value through.
pub fn dot(xs: &Vec<Frac>, ys: &Vec<Frac>) -> (r: Result<Frac, MatError>)
    requires
        row_pos(vec_view(*xs)),
        row_pos(vec_view(*ys)),
    ensures
        (r matches Err(e) && e is ShapeViolation) <==> xs@.len() != ys@.len(),
        r is Ok <==> (xs@.len() == ys@.len() && dot_acc(vec_view(*xs), vec_view(*ys)) is Some),
        r is Ok ==> r.unwrap()@ == dot_acc(vec_view(*xs), vec_view(*ys)).unwrap(),
        r is Ok ==> rat_eq(r.unwrap()@, rat_dot(vec_view(*xs), vec_view(*ys))) && r.unwrap().pos(),
{
    if xs.len() != ys.len() {
        return Err(MatError::ShapeViolation);
    }
    match rust_dot(xs, ys) {
        Some(v) => Ok(v),
        None => Err(MatError::Overflow),
    }
}

/// The squared Euclidean norm, an exact value; the square root itself has no
/// exact representative and is left to the caller's approximate domain.
pub fn norm_sq(xs: &Vec<Frac>) -> (r: Result<Frac, MatError>)
    requires
        row_pos(vec_view(*xs)),
    ensures
        r is Ok <==> dot_acc(vec_view(*xs), vec_view(*xs)) is Some,
        r is Ok ==> r.unwrap()@ == dot_acc(vec_view(*xs), vec_view(*xs)).unwrap(),
        r is Ok ==> rat_eq(r.unwrap()@, rat_dot(vec_view(*xs), vec_view(*xs)))
            && r.unwrap().pos(),
{
    match rust_dot(xs, xs) {
        Some(v) => Ok(v),
        None => Err(MatError::Overflow),
    }
}

/// The exact outer product: row `i`, column `j` of the result is
/// `xs[i] * ys[j]`.
pub fn rust_outer(xs: &Vec<Frac>, ys: &Vec<Frac>) -> (r: Option<Vec<Vec<Frac>>>)
    requires
        row_pos(vec_view(*xs)),
        row_pos(vec_view(*ys)),
    ensures
        r is Some <==> (forall|i: int, j: int|
            0 <= i < xs@.len() && 0 <= j < ys@.len() ==> #[trigger] frac_mul_ok(
                vec_view(*xs)[i],
                vec_view(*ys)[j],
            )),
        r is Some ==> is_mat(mat_view(r.unwrap()), xs@.len() as int, ys@.len() as int) && mat_pos(
            mat_view(r.unwrap()),
        ) && forall|i: int, j: int|
            0 <= i < xs@.len() && 0 <= j < ys@.len() ==> #[trigger] mat_view(r.unwrap())[i][j]
                == frac_mul(vec_view(*xs)[i], vec_view(*ys)[j]) && rat_eq(
                mat_view(r.unwrap())[i][j],
                rat_mul(vec_view(*xs)[i], vec_view(*ys)[j]),
            ),
{
    let ghost gx = vec_view(*xs);
    let ghost gy = vec_view(*ys);
    let mut out: Vec<Vec<Frac>> = Vec::new();
    let mut i: usize = 0;
    while i < xs.len()
        invariant
            i <= xs@.len(),
            gx == vec_view(*xs),
            gy == vec_view(*ys),
            row_pos(gx),
            row_pos(gy),
            out@.len() == i,
            forall|k: int| 0 <= k < i ==> (#[trigger] out@[k])@.len() == ys@.len(),
            forall|k: int, j: int|
                0 <= k < i && 0 <= j < ys@.len() ==> #[trigger] frac_mul_ok(gx[k], gy[j]),
            forall|k: int, j: int|
                0 <= k < i && 0 <= j < ys@.len() ==> (#[trigger] out@[k]@[j])@.d > 0
                    && out@[k]@[j]@ == frac_mul(gx[k], gy[j]) && rat_eq(
                    out@[k]@[j]@,
                    rat_mul(gx[k], gy[j]),
                ),
        decreases xs@.len() - i,
    {
        let mut row: Vec<Frac> = Vec::new();
        let mut j: usize = 0;
        while j < ys.len()
            invariant
                j <= ys@.len(),
                0 <= i < xs@.len(),
                gx == vec_view(*xs),
                gy == vec_view(*ys),
                row_pos(gx),
                row_pos(gy),
                row@.len() == j,
                forall|l: int| 0 <= l < j ==> #[trigger] frac_mul_ok(gx[i as int], gy[l]),
                forall|l: int|
                    0 <= l < j ==> (#[trigger] row@[l])@.d > 0 && row@[l]@ == frac_mul(
                        gx[i as int],
                        gy[l],
                    ) && rat_eq(row@[l]@, rat_mul(gx[i as int], gy[l])),
            decreases ys@.len() - j,
        {
            proof {
                assert(gx[i as int] == xs@[i as int]@ && gx[i as int].d > 0);
                assert(gy[j as int] == ys@[j as int]@ && gy[j as int].d > 0);
            }
            let p = match xs[i].mul(&ys[j]) {
                Some(p) => p,
                None => {
                    proof {
                        assert(!frac_mul_ok(gx[i as int], gy[j as int]));
                    }
                    return None;
                },
            };
            row.push(p);
            j = j + 1;
        }
        out.push(row);
        i = i + 1;
    }
    proof {
        assert forall|i2: int, j: int|
            0 <= i2 < xs@.len() && 0 <= j < ys@.len() implies #[trigger] mat_view(out)[i2][j]
            == frac_mul(gx[i2], gy[j]) && mat_view(out)[i2][j].d > 0 && rat_eq(
            mat_view(out)[i2][j],
            rat_mul(gx[i2], gy[j]),
        ) by {
            assert(mat_view(out)[i2] == vec_view(out@[i2]));
            assert(mat_view(out)[i2][j] == out@[i2]@[j]@);
        }
        assert forall|i2: int|
            0 <= i2 < xs@.len() implies row_pos(#[trigger] mat_view(out)[i2]) by {
            assert forall|j: int|
                0 <= j < mat_view(out)[i2].len() implies (#[trigger] mat_view(out)[i2][j]).d > 0
                by {
                assert(mat_view(out)[i2] == vec_view(out@[i2]));
                assert(mat_view(out)[i2][j] == out@[i2]@[j]@);
            }
        }
    }
    Some(out)
}

/// The outer product at the kernel boundary; it has no shape requirement.
pub fn outer(xs: &Vec<Frac>, ys: &Vec<Frac>) -> (r: Result<Vec<Vec<Frac>>, MatError>)
    requires
        row_pos(vec_view(*xs)),
        row_pos(vec_view(*ys)),
    ensures
        r is Ok <==> (forall|i: int, j: int|
            0 <= i < xs@.len() && 0 <= j < ys@.len() ==> #[trigger] frac_mul_ok(
                vec_view(*xs)[i],
                vec_view(*ys)[j],
            )),
        r is Ok ==> is_mat(mat_view(r.unwrap()), xs@.len() as int, ys@.len() as int) && forall|
            i: int,
            j: int,
        |
            0 <= i < xs@.len() && 0 <= j < ys@.len() ==> #[trigger] mat_view(r.unwrap())[i][j]
                == frac_mul(vec_view(*xs)[i], vec_view(*ys)[j]) && rat_eq(
                mat_view(r.unwrap())[i][j],
                rat_mul(vec_view(*xs)[i], vec_view(*ys)[j]),
            ),
{
    match rust_outer(xs, ys) {
        Some(m) => Ok(m),
        None => Err(MatError::Overflow),
    }
}

} // verus!
