//! The matrix multiply and matrix power engines.
//!
//! The product is computed by transposing the right operand and taking the
//! dot product of a left row with a transposed row for every output cell;
//! all output rows are independent and are computed in parallel.

use rayon::iter::{IndexedParallelIterator, IntoParallelRefIterator, ParallelIterator};
use vstd::prelude::*;

use crate::error::MatError;
use crate::frac::Frac;
use crate::vector_ops::{dot_acc, rust_dot};
use crate::my_util::{
    col_spec, generate_identity_matrix, ident_spec, is_mat, mat_eq, mat_pos, mat_proper,
    mat_square, mat_view, row_eq, row_pos, vec_view,
};
use crate::rat::{
    lemma_rat_add_congr, lemma_rat_dot_add_left, lemma_rat_dot_congr, lemma_rat_dot_pos,
    lemma_rat_dot_scale, lemma_rat_dot_zero_left, lemma_rat_dot_zero_right, lemma_rat_eq_trans,
    rat_add, rat_dot, rat_eq, rat_int, rat_mul, Rat,
};

verus! {

/// The exact matrix product: cell `(i, j)` is the dot product of row `i` of
/// `a` with column `j` of `b`.
pub open spec fn mat_mul_spec(a: Seq<Seq<Rat>>, b: Seq<Seq<Rat>>) -> Seq<Seq<Rat>> {
    Seq::new(a.len(), |i: int| Seq::new(b[0].len(), |j: int| rat_dot(a[i], col_spec(b, j))))
}

/// Whether every cell dot product of the multiply completes on the machine.
pub open spec fn mm_ok(a: Seq<Seq<Rat>>, b: Seq<Seq<Rat>>) -> bool {
    forall|i: int, j: int|
        0 <= i < a.len() && 0 <= j < b[0].len() ==> (#[trigger] dot_acc(a[i], col_spec(b, j))) is Some
}

/// The machine value of the product when it completes: every cell is the
/// canonical accumulated dot product.
pub open spec fn mm_val(a: Seq<Seq<Rat>>, b: Seq<Seq<Rat>>) -> Seq<Seq<Rat>> {
    Seq::new(
        a.len(),
        |i: int| Seq::new(b[0].len(), |j: int| dot_acc(a[i], col_spec(b, j)).unwrap()),
    )
}

/// What one computed product row satisfies: it exists exactly when every
/// cell dot product against the transposed rows completes, and then it holds
/// the canonical accumulated values, which denote the exact dot products.
pub open spec fn mm_row_post(row: Seq<Rat>, bt: Seq<Seq<Rat>>, r: Option<Vec<Frac>>) -> bool {
    &&& (r is Some <==> (forall|j: int|
        0 <= j < bt.len() ==> (#[trigger] dot_acc(row, bt[j])) is Some))
    &&& (r is Some ==> {
        let v = vec_view(r.unwrap());
        v.len() == bt.len() && row_pos(v) && forall|j: int|
            0 <= j < bt.len() ==> (#[trigger] v[j]) == dot_acc(row, bt[j]).unwrap() && rat_eq(
                v[j],
                rat_dot(row, bt[j]),
            )
    })
}

/// One row of the product: the dot product of `row` with every row of the
/// transposed right operand.
fn mm_row(row: &Vec<Frac>, bt: &Vec<Vec<Frac>>) -> (r: Option<Vec<Frac>>)
    requires
        row_pos(vec_view(*row)),
        mat_pos(mat_view(*bt)),
        forall|k: int| 0 <= k < bt@.len() ==> (#[trigger] bt@[k])@.len() == row@.len(),
    ensures
        mm_row_post(vec_view(*row), mat_view(*bt), r),
{
    let ghost grow = vec_view(*row);
    let ghost gbt = mat_view(*bt);
    let mut out: Vec<Frac> = Vec::new();
    let mut j: usize = 0;
    while j < bt.len()
        invariant
            j <= bt@.len(),
            grow == vec_view(*row),
            gbt == mat_view(*bt),
            row_pos(grow),
            mat_pos(gbt),
            forall|k: int| 0 <= k < bt@.len() ==> (#[trigger] bt@[k])@.len() == row@.len(),
            out@.len() == j,
            forall|l: int| 0 <= l < j ==> (#[trigger] dot_acc(grow, gbt[l])) is Some,
            forall|l: int|
                0 <= l < j ==> (#[trigger] out@[l])@.d > 0 && out@[l]@ == dot_acc(
                    grow,
                    gbt[l],
                ).unwrap() && rat_eq(out@[l]@, rat_dot(grow, gbt[l])),
        decreases bt@.len() - j,
    {
        proof {
            assert(row_pos(gbt[j as int]));
            assert(vec_view(bt@[j as int]) == gbt[j as int]);
        }
        let cell = match rust_dot(row, &bt[j]) {
            Some(cell) => cell,
            None => {
                proof {
                    assert(!(dot_acc(grow, gbt[j as int]) is Some));
                }
                return None;
            },
        };
        out.push(cell);
        j = j + 1;
    }
    proof {
        assert forall|l: int|
            0 <= l < bt@.len() implies (#[trigger] vec_view(out)[l]) == dot_acc(
            grow,
            gbt[l],
        ).unwrap() && rat_eq(vec_view(out)[l], rat_dot(grow, gbt[l])) && vec_view(out)[l].d > 0
            by {
            assert(vec_view(out)[l] == out@[l]@);
        }
        assert(row_pos(vec_view(out)));
    }
    Some(out)
}

/// Relies on rayon's `par_iter().map(..).collect()` over an indexed parallel
/// iterator: the closure, which only calls [`mm_row`], runs once for every
/// row of `a` and the results are collected in row order.
#[verifier::external_body]
fn par_rows_matmul(a: &Vec<Vec<Frac>>, bt: &Vec<Vec<Frac>>) -> (r: Vec<Option<Vec<Frac>>>)
    requires
        mat_pos(mat_view(*a)),
        mat_pos(mat_view(*bt)),
        forall|i: int, k: int|
            0 <= i < a@.len() && 0 <= k < bt@.len() ==> (#[trigger] bt@[k])@.len() == (
            #[trigger] a@[i])@.len(),
    ensures
        r@.len() == a@.len(),
        forall|i: int|
            0 <= i < a@.len() ==> mm_row_post(vec_view(a@[i]), mat_view(*bt), #[trigger] r@[i]),
{
    a.par_iter().map(|row| mm_row(row, bt)).collect()
}

/// The exact matrix product of two proper matrices with matching inner
/// dimensions, computed in parallel over the output rows; `None` reports
/// that an intermediate value had no machine representative.
pub fn rust_matmul2(a: &Vec<Vec<Frac>>, b: &Vec<Vec<Frac>>) -> (r: Option<Vec<Vec<Frac>>>)
    requires
        mat_proper(mat_view(*a)),
        mat_proper(mat_view(*b)),
        mat_view(*a)[0].len() == mat_view(*b).len(),
        mat_pos(mat_view(*a)),
        mat_pos(mat_view(*b)),
    ensures
        r is Some <==> mm_ok(mat_view(*a), mat_view(*b)),
        r is Some ==> mat_view(r.unwrap()) == mm_val(mat_view(*a), mat_view(*b)),
        r is Some ==> is_mat(
            mat_view(r.unwrap()),
            mat_view(*a).len() as int,
            mat_view(*b)[0].len() as int,
        ) && mat_pos(mat_view(r.unwrap())) && forall|i: int, j: int|
            0 <= i < mat_view(*a).len() && 0 <= j < mat_view(*b)[0].len() ==> rat_eq(
                #[trigger] mat_view(r.unwrap())[i][j],
                rat_dot(mat_view(*a)[i], col_spec(mat_view(*b), j)),
            ),
{
    let ghost ga = mat_view(*a);
    let ghost gb = mat_view(*b);
    let bt = crate::matrix_ops::rust_transpose(b);
    let ghost gbt = mat_view(bt);
    proof {
        assert(gbt.len() == gb[0].len());
        assert forall|k: int| 0 <= k < gbt.len() implies row_pos(#[trigger] gbt[k]) by {
            assert forall|i: int| 0 <= i < gbt[k].len() implies (#[trigger] gbt[k][i]).d > 0 by {
                assert(gbt[k][i] == gb[i][k]);
                assert(row_pos(gb[i]));
            }
        }
        assert forall|i: int, k: int|
            0 <= i < a@.len() && 0 <= k < bt@.len() implies (#[trigger] bt@[k])@.len() == (
        #[trigger] a@[i])@.len() by {
            assert(gbt[k].len() == gb.len());
            assert(ga[i].len() == ga[0].len());
        }
        assert forall|j: int| 0 <= j < gbt.len() implies #[trigger] gbt[j] == col_spec(gb, j)
            by {}
    }
    let rows = par_rows_matmul(a, &bt);
    let mut out: Vec<Vec<Frac>> = Vec::new();
    let mut i: usize = 0;
    while i < rows.len()
        invariant
            i <= rows@.len(),
            rows@.len() == a@.len(),
            ga == mat_view(*a),
            gb == mat_view(*b),
            gbt == mat_view(bt),
            gbt.len() == gb[0].len(),
            forall|j: int| 0 <= j < gbt.len() ==> #[trigger] gbt[j] == col_spec(gb, j),
            forall|k: int|
                0 <= k < rows@.len() ==> mm_row_post(vec_view(a@[k]), gbt, #[trigger] rows@[k]),
            out@.len() == i,
            forall|k: int|
                0 <= k < i ==> (#[trigger] rows@[k]) is Some && out@[k]@ == rows@[k].unwrap()@,
        decreases rows@.len() - i,
    {
        let row = match &rows[i] {
            Some(row) => crate::my_util::copy_row(row),
            None => {
                proof {
                    assert(mm_row_post(vec_view(a@[i as int]), gbt, rows@[i as int]));
                    assert(!(forall|j: int|
                        0 <= j < gbt.len() ==> (#[trigger] dot_acc(
                            vec_view(a@[i as int]),
                            gbt[j],
                        )) is Some));
                    let j = choose|j: int|
                        0 <= j < gbt.len() && !((#[trigger] dot_acc(
                            vec_view(a@[i as int]),
                            gbt[j],
                        )) is Some);
                    assert(vec_view(a@[i as int]) == ga[i as int]);
                    assert(gbt[j] == col_spec(gb, j));
                    assert(!(dot_acc(ga[i as int], col_spec(gb, j)) is Some));
                    assert(!mm_ok(ga, gb));
                }
                return None;
            },
        };
        out.push(row);
        i = i + 1;
    }
    proof {
        assert forall|i2: int, j: int|
            0 <= i2 < ga.len() && 0 <= j < gb[0].len() implies rat_eq(
            #[trigger] mat_view(out)[i2][j],
            rat_dot(ga[i2], col_spec(gb, j)),
        ) by {
            assert(mm_row_post(vec_view(a@[i2]), gbt, rows@[i2]));
            assert(mat_view(out)[i2] == vec_view(out@[i2]));
            assert(vec_view(out@[i2]) =~= vec_view(rows@[i2].unwrap()));
            assert(gbt[j] == col_spec(gb, j));
            assert(vec_view(a@[i2]) == ga[i2]);
        }
        assert forall|i2: int| 0 <= i2 < ga.len() implies row_pos(#[trigger] mat_view(out)[i2])
            by {
            assert(mm_row_post(vec_view(a@[i2]), gbt, rows@[i2]));
            assert(vec_view(out@[i2]) =~= vec_view(rows@[i2].unwrap()));
            assert(mat_view(out)[i2] == vec_view(out@[i2]));
        }
        assert forall|i2: int|
            0 <= i2 < ga.len() implies (#[trigger] mat_view(out)[i2]).len() == gb[0].len() by {
            assert(mm_row_post(vec_view(a@[i2]), gbt, rows@[i2]));
            assert(vec_view(out@[i2]) =~= vec_view(rows@[i2].unwrap()));
            assert(mat_view(out)[i2] == vec_view(out@[i2]));
        }
        assert(is_mat(mat_view(out), ga.len() as int, gb[0].len() as int));
        assert forall|i2: int, j: int|
            0 <= i2 < ga.len() && 0 <= j < gb[0].len() implies (#[trigger] dot_acc(
            ga[i2],
            col_spec(gb, j),
        )) is Some && mat_view(out)[i2][j] == dot_acc(ga[i2], col_spec(gb, j)).unwrap() by {
            assert(mm_row_post(vec_view(a@[i2]), gbt, rows@[i2]));
            assert(vec_view(a@[i2]) == ga[i2]);
            assert(gbt[j] == col_spec(gb, j));
            assert(vec_view(out@[i2]) =~= vec_view(rows@[i2].unwrap()));
            assert(mat_view(out)[i2] == vec_view(out@[i2]));
        }
        assert(mm_ok(ga, gb));
        assert forall|i2: int|
            0 <= i2 < ga.len() implies #[trigger] mat_view(out)[i2] == mm_val(ga, gb)[i2] by {
            assert(mat_view(out)[i2] =~= mm_val(ga, gb)[i2]);
        }
        assert(mat_view(out) =~= mm_val(ga, gb));
    }
    Some(out)
}

/// Matrix multiplication at the kernel boundary: both operands must be
/// proper and the inner dimensions must agree, else the input is refused as
/// a shape violation; the result is the exact product.
pub fn matmul(a: &Vec<Vec<Frac>>, b: &Vec<Vec<Frac>>) -> (r: Result<Vec<Vec<Frac>>, MatError>)
    requires
        mat_pos(mat_view(*a)),
        mat_pos(mat_view(*b)),
    ensures
        !(mat_proper(mat_view(*a)) && mat_proper(mat_view(*b)) && mat_view(*a)[0].len()
            == mat_view(*b).len()) <==> (r matches Err(e) && e is ShapeViolation),
        r is Ok <==> (mat_proper(mat_view(*a)) && mat_proper(mat_view(*b)) && mat_view(
            *a,
        )[0].len() == mat_view(*b).len() && mm_ok(mat_view(*a), mat_view(*b))),
        r is Ok ==> mat_view(r.unwrap()) == mm_val(mat_view(*a), mat_view(*b)),
        r is Ok ==> is_mat(
            mat_view(r.unwrap()),
            mat_view(*a).len() as int,
            mat_view(*b)[0].len() as int,
        ) && forall|i: int, j: int|
            0 <= i < mat_view(*a).len() && 0 <= j < mat_view(*b)[0].len() ==> rat_eq(
                #[trigger] mat_view(r.unwrap())[i][j],
                rat_dot(mat_view(*a)[i], col_spec(mat_view(*b), j)),
            ),
{
    if !crate::my_util::is_proper_matrix(a) || !crate::my_util::is_proper_matrix(b) {
        return Err(MatError::ShapeViolation);
    }
    if a[0].len() != b.len() {
        return Err(MatError::ShapeViolation);
    }
    match rust_matmul2(a, b) {
        Some(m) => Ok(m),
        None => Err(MatError::Overflow),
    }
}

/// The heart of associativity: multiplying a row through a matrix and then
/// against a column gives the same value as pairing the row with the
/// matrix-times-column products.
proof fn lemma_dot_assoc(x: Seq<Rat>, ymat: Seq<Seq<Rat>>, z: Seq<Rat>)
    requires
        ymat.len() == x.len(),
        forall|k: int| 0 <= k < ymat.len() ==> (#[trigger] ymat[k]).len() == z.len(),
        row_pos(x),
        mat_pos(ymat),
        row_pos(z),
    ensures
        rat_eq(
            rat_dot(Seq::new(z.len(), |j: int| rat_dot(x, col_spec(ymat, j))), z),
            rat_dot(x, Seq::new(x.len(), |k: int| rat_dot(ymat[k], z))),
        ),
    decreases x.len(),
{
    let jj = z.len();
    let w = Seq::new(jj, |j: int| rat_dot(x, col_spec(ymat, j)));
    let v = Seq::new(x.len(), |k: int| rat_dot(ymat[k], z));
    if x.len() == 0 {
        assert forall|j: int| 0 <= j < jj implies #[trigger] w[j] == rat_int(0) by {
            assert(rat_dot(x, col_spec(ymat, j)) == rat_int(0));
        }
        lemma_rat_dot_zero_left(w, z);
        assert(rat_dot(x, v) == rat_int(0));
    } else {
        let x2 = x.drop_last();
        let y2 = ymat.drop_last();
        let xl = x.last();
        let yl = ymat.last();
        let w2 = Seq::new(jj, |j: int| rat_dot(x2, col_spec(y2, j)));
        let u = Seq::new(jj, |j: int| rat_mul(xl, yl[j]));
        assert(yl.len() == jj);
        assert forall|j: int| 0 <= j < jj implies #[trigger] w[j] == rat_add(w2[j], u[j]) by {
            let cj = col_spec(ymat, j);
            assert(cj.len() == x.len());
            assert(cj.drop_last() =~= col_spec(y2, j));
            assert(cj.last() == yl[j]);
            assert(rat_dot(x, cj) == rat_add(
                rat_dot(x2, cj.drop_last()),
                rat_mul(xl, cj.last()),
            ));
        }
        lemma_rat_dot_add_left(w, w2, u, z);
        assert forall|j: int| 0 <= j < jj implies (#[trigger] yl[j]).d > 0 by {
            assert(row_pos(ymat[x.len() - 1]));
        }
        lemma_rat_dot_scale(u, xl, yl, z);
        assert forall|k: int| 0 <= k < y2.len() implies row_pos(#[trigger] y2[k]) by {
            assert(y2[k] == ymat[k]);
            assert(row_pos(ymat[k]));
        }
        assert forall|k: int| 0 <= k < y2.len() implies (#[trigger] y2[k]).len() == jj by {
            assert(y2[k] == ymat[k]);
        }
        lemma_dot_assoc(x2, y2, z);
        let v2 = Seq::new(x2.len(), |k: int| rat_dot(y2[k], z));
        assert(v.drop_last() =~= v2);
        assert(v.len() == x.len());
        assert(rat_dot(x, v) == rat_add(rat_dot(x2, v.drop_last()), rat_mul(xl, v.last())));
        assert(v.last() == rat_dot(yl, z));
        lemma_rat_add_congr(
            rat_dot(w2, z),
            rat_dot(x2, v2),
            rat_dot(u, z),
            rat_mul(xl, rat_dot(yl, z)),
        );
        assert forall|j: int| 0 <= j < jj implies (#[trigger] w2[j]).d > 0 by {
            lemma_rat_dot_pos(x2, col_spec(y2, j));
        }
        assert forall|j: int| 0 <= j < jj implies (#[trigger] u[j]).d > 0 by {
            assert((xl.d * yl[j].d) > 0) by (nonlinear_arith)
                requires
                    xl.d > 0,
                    yl[j].d > 0,
            ;
        }
        lemma_rat_dot_pos(w2, z);
        lemma_rat_dot_pos(u, z);
        let mid = rat_add(rat_dot(w2, z), rat_dot(u, z));
        let d1 = rat_dot(w2, z).d;
        let d2 = rat_dot(u, z).d;
        assert(d1 * d2 > 0) by (nonlinear_arith)
            requires
                d1 > 0,
                d2 > 0,
        ;
        assert(mid.d == d1 * d2);
        lemma_rat_eq_trans(
            rat_dot(w, z),
            mid,
            rat_add(rat_dot(x2, v2), rat_mul(xl, rat_dot(yl, z))),
        );
    }
}

/// Cellwise equality of matrices is transitive through a matrix of definite
/// values.
proof fn lemma_mat_eq_trans_pos(a: Seq<Seq<Rat>>, b: Seq<Seq<Rat>>, c: Seq<Seq<Rat>>)
    requires
        mat_eq(a, b),
        mat_eq(b, c),
        mat_pos(b),
    ensures
        mat_eq(a, c),
{
    assert forall|i: int| 0 <= i < a.len() implies row_eq(#[trigger] a[i], c[i]) by {
        assert(row_eq(a[i], b[i]) && row_eq(b[i], c[i]) && row_pos(b[i]));
        assert forall|j: int| 0 <= j < a[i].len() implies rat_eq(#[trigger] a[i][j], c[i][j]) by {
            lemma_rat_eq_trans(a[i][j], b[i][j], c[i][j]);
        }
    }
}

/// The product of definite matrices of matching dimensions is a definite
/// matrix of the expected dimensions.
proof fn lemma_mat_mul_pos_dims(a: Seq<Seq<Rat>>, b: Seq<Seq<Rat>>, m: int, k: int, p: int)
    requires
        is_mat(a, m, k),
        is_mat(b, k, p),
        m >= 1,
        k >= 1,
        p >= 1,
        mat_pos(a),
        mat_pos(b),
    ensures
        is_mat(mat_mul_spec(a, b), m, p),
        mat_pos(mat_mul_spec(a, b)),
{
    assert(b[0].len() == p);
    assert forall|i: int| 0 <= i < m implies row_pos(#[trigger] mat_mul_spec(a, b)[i]) by {
        assert forall|j: int|
            0 <= j < p implies (#[trigger] mat_mul_spec(a, b)[i][j]).d > 0 by {
            assert(mat_mul_spec(a, b)[i][j] == rat_dot(a[i], col_spec(b, j)));
            assert(row_pos(a[i]));
            assert forall|l: int| 0 <= l < k implies (#[trigger] col_spec(b, j)[l]).d > 0 by {
                assert(row_pos(b[l]));
            }
            lemma_rat_dot_pos(a[i], col_spec(b, j));
        }
    }
}

/// The matrix product respects cellwise value equality of both operands.
proof fn lemma_mat_mul_congr(
    a1: Seq<Seq<Rat>>,
    b1: Seq<Seq<Rat>>,
    a2: Seq<Seq<Rat>>,
    b2: Seq<Seq<Rat>>,
    m: int,
    k: int,
    p: int,
)
    requires
        is_mat(a1, m, k),
        is_mat(b1, k, p),
        m >= 1,
        k >= 1,
        p >= 1,
        mat_eq(a1, a2),
        mat_eq(b1, b2),
    ensures
        mat_eq(mat_mul_spec(a1, b1), mat_mul_spec(a2, b2)),
{
    assert(b1[0].len() == p && b2[0].len() == p);
    assert(b2.len() == k);
    assert forall|i: int|
        0 <= i < m implies row_eq(#[trigger] mat_mul_spec(a1, b1)[i], mat_mul_spec(a2, b2)[i])
        by {
        assert(row_eq(a1[i], a2[i]));
        assert forall|j: int|
            0 <= j < p implies rat_eq(
            #[trigger] mat_mul_spec(a1, b1)[i][j],
            mat_mul_spec(a2, b2)[i][j],
        ) by {
            assert(mat_mul_spec(a1, b1)[i][j] == rat_dot(a1[i], col_spec(b1, j)));
            assert(mat_mul_spec(a2, b2)[i][j] == rat_dot(a2[i], col_spec(b2, j)));
            assert forall|l: int|
                0 <= l < k implies rat_eq(#[trigger] col_spec(b1, j)[l], col_spec(b2, j)[l]) by {
                assert(row_eq(b1[l], b2[l]));
            }
            lemma_rat_dot_congr(a1[i], col_spec(b1, j), a2[i], col_spec(b2, j));
        }
    }
}

/// Matrix multiplication is associative, cell for cell, on definite
/// matrices of compatible dimensions.
pub proof fn lemma_mat_mul_assoc(
    x: Seq<Seq<Rat>>,
    y: Seq<Seq<Rat>>,
    z: Seq<Seq<Rat>>,
    m: int,
    k: int,
    p: int,
    q: int,
)
    requires
        is_mat(x, m, k),
        is_mat(y, k, p),
        is_mat(z, p, q),
        m >= 1,
        k >= 1,
        p >= 1,
        q >= 1,
        mat_pos(x),
        mat_pos(y),
        mat_pos(z),
    ensures
        mat_eq(mat_mul_spec(mat_mul_spec(x, y), z), mat_mul_spec(x, mat_mul_spec(y, z))),
{
    let xy = mat_mul_spec(x, y);
    let yz = mat_mul_spec(y, z);
    lemma_mat_mul_pos_dims(x, y, m, k, p);
    lemma_mat_mul_pos_dims(y, z, k, p, q);
    lemma_mat_mul_pos_dims(xy, z, m, p, q);
    lemma_mat_mul_pos_dims(x, yz, m, k, q);
    assert forall|i: int|
        0 <= i < m implies row_eq(
        #[trigger] mat_mul_spec(xy, z)[i],
        mat_mul_spec(x, yz)[i],
    ) by {
        assert forall|l: int|
            0 <= l < q implies rat_eq(
            #[trigger] mat_mul_spec(xy, z)[i][l],
            mat_mul_spec(x, yz)[i][l],
        ) by {
            let zc = col_spec(z, l);
            assert(zc.len() == p);
            assert forall|j: int| 0 <= j < p implies (#[trigger] zc[j]).d > 0 by {
                assert(row_pos(z[j]));
            }
            assert(mat_mul_spec(xy, z)[i][l] == rat_dot(xy[i], zc));
            assert(xy[i] =~= Seq::new(zc.len(), |j: int| rat_dot(x[i], col_spec(y, j))));
            assert(mat_mul_spec(x, yz)[i][l] == rat_dot(x[i], col_spec(yz, l)));
            assert(col_spec(yz, l) =~= Seq::new(x[i].len(), |k2: int| rat_dot(y[k2], zc)));
            assert(row_pos(x[i]));
            assert(x[i].len() == k);
            assert forall|k2: int| 0 <= k2 < k implies (#[trigger] y[k2]).len() == zc.len() by {}
            lemma_dot_assoc(x[i], y, zc);
        }
    }
}

/// Every matrix equals itself, cell for cell.
proof fn lemma_mat_eq_refl(a: Seq<Seq<Rat>>)
    ensures
        mat_eq(a, a),
{
    assert forall|i: int| 0 <= i < a.len() implies row_eq(#[trigger] a[i], a[i]) by {}
}

/// Cellwise equality of matrices is symmetric.
proof fn lemma_mat_eq_sym(a: Seq<Seq<Rat>>, b: Seq<Seq<Rat>>)
    requires
        mat_eq(a, b),
    ensures
        mat_eq(b, a),
{
    assert forall|i: int| 0 <= i < b.len() implies row_eq(#[trigger] b[i], a[i]) by {
        assert(row_eq(a[i], b[i]));
    }
}

/// The dot product with a standard basis vector picks out one coordinate.
proof fn lemma_rat_dot_basis(x: Seq<Rat>, b: Seq<Rat>, j: int)
    requires
        b.len() == x.len(),
        0 <= j < x.len(),
        forall|k: int|
            0 <= k < b.len() ==> #[trigger] b[k] == (if k == j {
                rat_int(1)
            } else {
                rat_int(0)
            }),
    ensures
        rat_eq(rat_dot(x, b), x[j]),
    decreases x.len(),
{
    let n = x.len() as int;
    let x2 = x.drop_last();
    let b2 = b.drop_last();
    assert(rat_dot(x, b) == rat_add(rat_dot(x2, b2), rat_mul(x.last(), b.last())));
    if j == n - 1 {
        assert(b.last() == rat_int(1));
        assert forall|l: int| 0 <= l < n - 1 implies #[trigger] b2[l] == rat_int(0) by {
            assert(b[l] == rat_int(0));
        }
        lemma_rat_dot_zero_right(x2, b2);
        assert(rat_mul(x.last(), rat_int(1)) == x.last()) by (nonlinear_arith);
        lemma_rat_add_congr(rat_dot(x2, b2), rat_int(0), x.last(), x.last());
        assert(rat_add(rat_int(0), x.last()) == x.last()) by (nonlinear_arith);
    } else {
        assert forall|l: int|
            0 <= l < n - 1 implies #[trigger] b2[l] == (if l == j {
                rat_int(1)
            } else {
                rat_int(0)
            }) by {
            assert(b[l] == (if l == j {
                rat_int(1)
            } else {
                rat_int(0)
            }));
        }
        lemma_rat_dot_basis(x2, b2, j);
        assert(b.last() == rat_int(0));
        assert(rat_eq(rat_mul(x.last(), rat_int(0)), rat_int(0))) by (nonlinear_arith);
        lemma_rat_add_congr(rat_dot(x2, b2), x2[j], rat_mul(x.last(), rat_int(0)), rat_int(0));
        assert(rat_add(x2[j], rat_int(0)) == x2[j]) by (nonlinear_arith);
        assert(x2[j] == x[j]);
    }
}

/// Multiplying by the identity on the right leaves a matrix unchanged, cell
/// for cell.
proof fn lemma_mat_mul_ident_right(a: Seq<Seq<Rat>>, m: int, n: int)
    requires
        is_mat(a, m, n),
        m >= 1,
        n >= 1,
    ensures
        mat_eq(mat_mul_spec(a, ident_spec(n)), a),
{
    let iden = ident_spec(n);
    assert(iden[0].len() == n);
    assert forall|i: int|
        0 <= i < m implies row_eq(#[trigger] mat_mul_spec(a, iden)[i], a[i]) by {
        assert(a[i].len() == n);
        assert forall|j: int|
            0 <= j < n implies rat_eq(#[trigger] mat_mul_spec(a, iden)[i][j], a[i][j]) by {
            assert(mat_mul_spec(a, iden)[i][j] == rat_dot(a[i], col_spec(iden, j)));
            assert forall|k: int|
                0 <= k < n implies #[trigger] col_spec(iden, j)[k] == (if k == j {
                    rat_int(1)
                } else {
                    rat_int(0)
                }) by {
                assert(col_spec(iden, j)[k] == iden[k][j]);
            }
            lemma_rat_dot_basis(a[i], col_spec(iden, j), j);
        }
    }
}

/// Matrix exponentiation: the zeroth power is the identity, and each further
/// power multiplies by the base on the right.
pub open spec fn pow_spec(a: Seq<Seq<Rat>>, e: nat) -> Seq<Seq<Rat>>
    decreases e,
{
    if e == 0 {
        ident_spec(a.len() as int)
    } else {
        mat_mul_spec(pow_spec(a, (e - 1) as nat), a)
    }
}

/// Powers of a definite square matrix are definite square matrices.
proof fn lemma_pow_pos_dims(a: Seq<Seq<Rat>>, e: nat, n: int)
    requires
        is_mat(a, n, n),
        n >= 1,
        mat_pos(a),
    ensures
        is_mat(pow_spec(a, e), n, n),
        mat_pos(pow_spec(a, e)),
    decreases e,
{
    if e == 0 {
        assert forall|i: int| 0 <= i < n implies row_pos(#[trigger] ident_spec(n)[i]) by {
            assert forall|j: int|
                0 <= j < n implies (#[trigger] ident_spec(n)[i][j]).d > 0 by {}
        }
    } else {
        lemma_pow_pos_dims(a, (e - 1) as nat, n);
        lemma_mat_mul_pos_dims(pow_spec(a, (e - 1) as nat), a, n, n, n);
    }
}

/// The power of a sum of exponents is the product of the powers.
pub proof fn lemma_pow_split(a: Seq<Seq<Rat>>, e1: nat, e2: nat, n: int)
    requires
        is_mat(a, n, n),
        n >= 1,
        mat_pos(a),
    ensures
        mat_eq(pow_spec(a, e1 + e2), mat_mul_spec(pow_spec(a, e1), pow_spec(a, e2))),
    decreases e2,
{
    lemma_pow_pos_dims(a, e1, n);
    if e2 == 0 {
        lemma_mat_mul_ident_right(pow_spec(a, e1), n, n);
        lemma_mat_eq_sym(mat_mul_spec(pow_spec(a, e1), ident_spec(n)), pow_spec(a, e1));
        assert(pow_spec(a, e2) == ident_spec(n));
        assert(e1 + e2 == e1);
    } else {
        let e2m = (e2 - 1) as nat;
        lemma_pow_split(a, e1, e2m, n);
        lemma_pow_pos_dims(a, e2m, n);
        lemma_pow_pos_dims(a, (e1 + e2m) as nat, n);
        lemma_mat_eq_refl(a);
        assert((e1 + e2 - 1) as nat == e1 + e2m);
        assert(pow_spec(a, e1 + e2) == mat_mul_spec(pow_spec(a, e1 + e2m), a));
        lemma_mat_mul_congr(
            pow_spec(a, e1 + e2m),
            a,
            mat_mul_spec(pow_spec(a, e1), pow_spec(a, e2m)),
            a,
            n,
            n,
            n,
        );
        lemma_mat_mul_assoc(pow_spec(a, e1), pow_spec(a, e2m), a, n, n, n, n);
        lemma_mat_mul_pos_dims(pow_spec(a, e1 + e2m), a, n, n, n);
        lemma_mat_mul_pos_dims(pow_spec(a, e1), pow_spec(a, e2m), n, n, n);
        lemma_mat_mul_pos_dims(mat_mul_spec(pow_spec(a, e1), pow_spec(a, e2m)), a, n, n, n);
        lemma_mat_eq_trans_pos(
            pow_spec(a, e1 + e2),
            mat_mul_spec(mat_mul_spec(pow_spec(a, e1), pow_spec(a, e2m)), a),
            mat_mul_spec(pow_spec(a, e1), mat_mul_spec(pow_spec(a, e2m), a)),
        );
        assert(mat_mul_spec(pow_spec(a, e2m), a) == pow_spec(a, e2));
    }
}

/// The zeroth power of any matrix is the identity of its dimension.
pub proof fn lemma_matrix_power_zero(a: Seq<Seq<Rat>>)
    ensures
        pow_spec(a, 0) == ident_spec(a.len() as int),
{
}

/// An even power is the square of the half power.
pub proof fn lemma_matrix_power_even(a: Seq<Seq<Rat>>, k: nat, n: int)
    requires
        is_mat(a, n, n),
        n >= 1,
        mat_pos(a),
    ensures
        mat_eq(pow_spec(a, 2 * k), mat_mul_spec(pow_spec(a, k), pow_spec(a, k))),
{
    lemma_pow_split(a, k, k, n);
    assert(2 * k == k + k);
}

/// The iterated machine power: canonical multiplication from the identity,
/// one factor at a time, `None` from the first product that does not
/// complete.
pub open spec fn pow_it(a: Seq<Seq<Rat>>, e: nat) -> Option<Seq<Seq<Rat>>>
    decreases e,
{
    if e == 0 {
        Some(ident_spec(a.len() as int))
    } else {
        match pow_it(a, (e - 1) as nat) {
            Option::None => Option::None,
            Option::Some(p) => if mm_ok(p, a) {
                Option::Some(mm_val(p, a))
            } else {
                Option::None
            },
        }
    }
}

/// A machine power that fails at some exponent fails at every larger one.
proof fn lemma_pow_it_mono(a: Seq<Seq<Rat>>, k: nat, e: nat)
    requires
        k <= e,
        pow_it(a, k) is None,
    ensures
        pow_it(a, e) is None,
    decreases e - k,
{
    if e > k {
        lemma_pow_it_mono(a, k, (e - 1) as nat);
    }
}

/// The machine power computation as the engine performs it: iterated
/// multiplication up to the fork threshold, and the product of the two
/// machine half powers above it.
pub open spec fn pow_rec(a: Seq<Seq<Rat>>, e: nat) -> Option<Seq<Seq<Rat>>>
    decreases e,
{
    if e <= 8 {
        pow_it(a, e)
    } else {
        match (pow_rec(a, e / 2), pow_rec(a, e / 2 + e % 2)) {
            (Option::Some(p1), Option::Some(p2)) => if mm_ok(p1, p2) {
                Option::Some(mm_val(p1, p2))
            } else {
                Option::None
            },
            _ => Option::None,
        }
    }
}

/// What a computed power satisfies: it exists exactly when the machine power
/// computation completes, it then holds that computation's canonical value,
/// and it is a definite square matrix denoting, cell for cell, the exact
/// power of the base.
pub open spec fn pow_post(ga: Seq<Seq<Rat>>, e: nat, r: Option<Vec<Vec<Frac>>>) -> bool {
    &&& (r is Some <==> pow_rec(ga, e) is Some)
    &&& (r is Some ==> mat_view(r.unwrap()) == pow_rec(ga, e).unwrap())
    &&& (r is Some ==> {
        let v = mat_view(r.unwrap());
        is_mat(v, ga.len() as int, ga.len() as int) && mat_pos(v) && mat_eq(v, pow_spec(ga, e))
    })
}

/// Relies on `rayon::join`: the two closures, which only call
/// [`rmp_helper`], run as a fork-join pair and their results are returned in
/// order.
#[verifier::external_body]
fn par_join_pow(a: &Vec<Vec<Frac>>, e1: u32, e2: u32) -> (r: (
    Option<Vec<Vec<Frac>>>,
    Option<Vec<Vec<Frac>>>,
))
    requires
        mat_square(mat_view(*a)),
        mat_pos(mat_view(*a)),
    ensures
        pow_post(mat_view(*a), e1 as nat, r.0),
        pow_post(mat_view(*a), e2 as nat, r.1),
{
    rayon::join(|| rmp_helper(a, e1), || rmp_helper(a, e2))
}

/// The divide-and-conquer power kernel: below the threshold it multiplies
/// out iteratively from the identity; above it, it computes both halves of
/// the exponent concurrently and multiplies the results. `None` reports that
/// an intermediate value had no machine representative.
fn rmp_helper(a: &Vec<Vec<Frac>>, exp: u32) -> (r: Option<Vec<Vec<Frac>>>)
    requires
        mat_square(mat_view(*a)),
        mat_pos(mat_view(*a)),
    ensures
        pow_post(mat_view(*a), exp as nat, r),
{
    let ghost va = mat_view(*a);
    let n = a.len();
    proof {
        lemma_mat_eq_refl(va);
        assert forall|k: int| 0 <= k < va.len() implies (#[trigger] va[k]).len() == n by {
            assert(va[k].len() == va[0].len());
        }
        assert(is_mat(va, n as int, n as int));
    }
    if exp <= 8 {
        let mut res = generate_identity_matrix(n);
        proof {
            lemma_pow_pos_dims(va, 0, n as int);
            lemma_mat_eq_refl(mat_view(res));
            assert(mat_view(res) == pow_spec(va, 0));
        }
        let mut k: u32 = 0;
        while k < exp
            invariant
                k <= exp,
                n == a@.len(),
                va == mat_view(*a),
                mat_square(va),
                mat_pos(va),
                is_mat(va, n as int, n as int),
                n >= 1,
                is_mat(mat_view(res), n as int, n as int),
                mat_pos(mat_view(res)),
                mat_eq(mat_view(res), pow_spec(va, k as nat)),
                exp <= 8,
                pow_it(va, k as nat) == Some(mat_view(res)),
            decreases exp - k,
        {
            proof {
                assert(mat_proper(mat_view(res)));
                assert(mat_view(res)[0].len() == n);
            }
            let res2 = match rust_matmul2(&res, a) {
                Some(res2) => res2,
                None => {
                    proof {
                        assert(!mm_ok(mat_view(res), va));
                        assert(pow_it(va, k as nat + 1) is None);
                        lemma_pow_it_mono(va, (k + 1) as nat, exp as nat);
                        assert(pow_rec(va, exp as nat) is None);
                    }
                    return None;
                },
            };
            proof {
                assert(mm_ok(mat_view(res), va));
                assert(mat_view(res2) == mm_val(mat_view(res), va));
                assert(pow_it(va, k as nat + 1) == Some(mat_view(res2)));
                let gr = mat_view(res);
                let gr2 = mat_view(res2);
                assert forall|i: int|
                    0 <= i < n implies row_eq(#[trigger] gr2[i], mat_mul_spec(gr, va)[i]) by {
                    assert(mat_mul_spec(gr, va)[i] =~= Seq::new(
                        va[0].len(),
                        |j: int| rat_dot(gr[i], col_spec(va, j)),
                    ));
                    assert forall|j: int|
                        0 <= j < n implies rat_eq(
                        #[trigger] gr2[i][j],
                        mat_mul_spec(gr, va)[i][j],
                    ) by {
                        assert(rat_eq(gr2[i][j], rat_dot(gr[i], col_spec(va, j))));
                    }
                }
                assert(mat_eq(gr2, mat_mul_spec(gr, va)));
                lemma_pow_pos_dims(va, k as nat, n as int);
                lemma_mat_mul_congr(gr, va, pow_spec(va, k as nat), va, n as int, n as int, n as int);
                lemma_mat_mul_pos_dims(gr, va, n as int, n as int, n as int);
                lemma_mat_eq_trans_pos(
                    gr2,
                    mat_mul_spec(gr, va),
                    mat_mul_spec(pow_spec(va, k as nat), va),
                );
                assert(mat_mul_spec(pow_spec(va, k as nat), va) == pow_spec(va, k as nat + 1));
            }
            res = res2;
            k = k + 1;
        }
        proof {
            assert(pow_rec(va, exp as nat) == pow_it(va, exp as nat));
        }
        Some(res)
    } else {
        let odd = exp % 2;
        let e1 = exp / 2;
        let e2 = exp / 2 + odd;
        proof {
            assert(e1 + e2 == exp);
        }
        proof {
            assert(e1 as nat == exp as nat / 2);
            assert(e2 as nat == exp as nat / 2 + exp as nat % 2);
            assert(!(exp as nat <= 8));
        }
        let halves = par_join_pow(a, e1, e2);
        let m1 = match halves.0 {
            Some(m1) => m1,
            None => {
                proof {
                    assert(pow_rec(va, e1 as nat) is None);
                    assert(pow_rec(va, exp as nat) is None);
                }
                return None;
            },
        };
        let m2 = match halves.1 {
            Some(m2) => m2,
            None => {
                proof {
                    assert(pow_rec(va, e2 as nat) is None);
                    assert(pow_rec(va, exp as nat) is None);
                }
                return None;
            },
        };
        proof {
            assert(mat_proper(mat_view(m1)));
            assert(mat_proper(mat_view(m2)));
            assert(mat_view(m1)[0].len() == n);
            assert(pow_rec(va, e1 as nat) == Some(mat_view(m1)));
            assert(pow_rec(va, e2 as nat) == Some(mat_view(m2)));
        }
        let res = match rust_matmul2(&m1, &m2) {
            Some(res) => res,
            None => {
                proof {
                    assert(!mm_ok(mat_view(m1), mat_view(m2)));
                    assert(pow_rec(va, exp as nat) is None);
                }
                return None;
            },
        };
        proof {
            assert(mm_ok(mat_view(m1), mat_view(m2)));
            assert(mat_view(res) == mm_val(mat_view(m1), mat_view(m2)));
            assert(pow_rec(va, exp as nat) == Some(mat_view(res)));
            let g1 = mat_view(m1);
            let g2 = mat_view(m2);
            let gr = mat_view(res);
            assert forall|i: int|
                0 <= i < n implies row_eq(#[trigger] gr[i], mat_mul_spec(g1, g2)[i]) by {
                assert(mat_mul_spec(g1, g2)[i] =~= Seq::new(
                    g2[0].len(),
                    |j: int| rat_dot(g1[i], col_spec(g2, j)),
                ));
                assert forall|j: int|
                    0 <= j < n implies rat_eq(#[trigger] gr[i][j], mat_mul_spec(g1, g2)[i][j])
                    by {
                    assert(rat_eq(gr[i][j], rat_dot(g1[i], col_spec(g2, j))));
                }
            }
            assert(mat_eq(gr, mat_mul_spec(g1, g2)));
            lemma_pow_pos_dims(va, e1 as nat, n as int);
            lemma_pow_pos_dims(va, e2 as nat, n as int);
            lemma_mat_mul_congr(
                g1,
                g2,
                pow_spec(va, e1 as nat),
                pow_spec(va, e2 as nat),
                n as int,
                n as int,
                n as int,
            );
            lemma_mat_mul_pos_dims(g1, g2, n as int, n as int, n as int);
            lemma_mat_eq_trans_pos(
                gr,
                mat_mul_spec(g1, g2),
                mat_mul_spec(pow_spec(va, e1 as nat), pow_spec(va, e2 as nat)),
            );
            lemma_pow_split(va, e1 as nat, e2 as nat, n as int);
            lemma_mat_eq_sym(
                pow_spec(va, (e1 + e2) as nat),
                mat_mul_spec(pow_spec(va, e1 as nat), pow_spec(va, e2 as nat)),
            );
            lemma_mat_mul_pos_dims(
                pow_spec(va, e1 as nat),
                pow_spec(va, e2 as nat),
                n as int,
                n as int,
                n as int,
            );
            lemma_mat_eq_trans_pos(
                gr,
                mat_mul_spec(pow_spec(va, e1 as nat), pow_spec(va, e2 as nat)),
                pow_spec(va, (e1 + e2) as nat),
            );
        }
        Some(res)
    }
}

/// Matrix exponentiation by a nonnegative integer exponent: the exact power,
/// computed by fork-join halving above a fixed exponent threshold and by
/// iterated multiplication below it. `None` reports that an intermediate
/// value had no machine representative.
pub fn rust_matpow(a: &Vec<Vec<Frac>>, exp: u32) -> (r: Option<Vec<Vec<Frac>>>)
    requires
        mat_square(mat_view(*a)),
        mat_pos(mat_view(*a)),
    ensures
        pow_post(mat_view(*a), exp as nat, r),
        exp == 0 ==> r is Some && mat_view(r.unwrap()) == ident_spec(mat_view(*a).len() as int),
{
    proof {
        if exp == 0 {
            assert(pow_rec(mat_view(*a), 0) == pow_it(mat_view(*a), 0));
            assert(pow_it(mat_view(*a), 0) == Some(ident_spec(mat_view(*a).len() as int)));
        }
    }
    rmp_helper(a, exp)
}

/// Matrix power at the kernel boundary: the matrix must be square, else the
/// input is refused as a shape violation; the result denotes the exact
/// power, cell for cell.
pub fn matrix_power(a: &Vec<Vec<Frac>>, exp: u32) -> (r: Result<Vec<Vec<Frac>>, MatError>)
    requires
        mat_pos(mat_view(*a)),
    ensures
        !mat_square(mat_view(*a)) <==> (r matches Err(e) && e is ShapeViolation),
        r is Ok <==> (mat_square(mat_view(*a)) && pow_rec(mat_view(*a), exp as nat) is Some),
        r is Ok ==> mat_view(r.unwrap()) == pow_rec(mat_view(*a), exp as nat).unwrap(),
        mat_square(mat_view(*a)) && exp == 0 ==> r is Ok && mat_view(r.unwrap()) == ident_spec(
            mat_view(*a).len() as int,
        ),
        r is Ok ==> {
            let v = mat_view(r.unwrap());
            is_mat(v, mat_view(*a).len() as int, mat_view(*a).len() as int) && mat_eq(
                v,
                pow_spec(mat_view(*a), exp as nat),
            )
        },
{
    if !crate::my_util::is_square_matrix(a) {
        return Err(MatError::ShapeViolation);
    }
    proof {
        if exp == 0 {
            assert(pow_rec(mat_view(*a), 0) == pow_it(mat_view(*a), 0));
            assert(pow_it(mat_view(*a), 0) == Some(ident_spec(mat_view(*a).len() as int)));
        }
    }
    match rust_matpow(a, exp) {
        Some(m) => Ok(m),
        None => Err(MatError::Overflow),
    }
}

} // verus!
