//! Whole-matrix operations: trace, transpose, determinant, and inverse.

use vstd::prelude::*;

use crate::error::MatError;
use crate::frac::{
    frac_add, frac_add_ok, frac_mul, frac_mul_ok, frac_sub, frac_sub_ok, Frac,
};
use crate::linear_eqn_ops::{
    bwd_acc, bwd_pass, bwd_spec, fwd_acc, fwd_ok, fwd_pass, fwd_spec, gauss_acc, gauss_ok,
    gauss_spec, lemma_bwd_from_is_mat, lemma_fwd_upto_is_mat, simp_all_ok, simp_pass,
    simp_val_acc,
};
use crate::my_util::{
    augment, col_of, col_spec, extract_last_n_cols, generate_identity_matrix, ident_spec,
    is_mat, mat_eq, mat_pos, mat_proper, mat_square, mat_view, mat_wf, row_eq, row_pos, row_wf,
    vec_view,
};
use crate::rat::{
    lemma_add_lift, lemma_mul_lift, lemma_sub_lift, rat_add, rat_eq, rat_int, rat_mul, rat_prod,
    rat_sub, rat_sum, Rat,
};

verus! {

/// The transpose of a matrix: row `j` of the result is column `j` of the
/// argument.
pub open spec fn transpose_spec(s: Seq<Seq<Rat>>) -> Seq<Seq<Rat>> {
    Seq::new(s[0].len(), |j: int| col_spec(s, j))
}

/// The main diagonal of a matrix.
pub open spec fn diag_spec(s: Seq<Seq<Rat>>) -> Seq<Rat> {
    Seq::new(s.len(), |i: int| s[i][i])
}

/// Transposing twice gives back the matrix.
pub proof fn lemma_transpose_involutive(s: Seq<Seq<Rat>>)
    requires
        mat_proper(s),
    ensures
        transpose_spec(transpose_spec(s)) == s,
{
    let t = transpose_spec(s);
    assert(t[0].len() == s.len());
    assert forall|i: int| 0 <= i < s.len() implies #[trigger] transpose_spec(t)[i] == s[i] by {
        assert(transpose_spec(t)[i] =~= s[i]);
    }
    assert(transpose_spec(t) =~= s);
}

/// The transpose of a proper matrix; the result is exact, cell for cell.
pub fn rust_transpose(r_matrix: &Vec<Vec<Frac>>) -> (r: Vec<Vec<Frac>>)
    requires
        mat_proper(mat_view(*r_matrix)),
    ensures
        mat_view(r) == transpose_spec(mat_view(*r_matrix)),
{
    let ghost gm = mat_view(*r_matrix);
    let cols = r_matrix[0].len();
    let mut out: Vec<Vec<Frac>> = Vec::new();
    let mut j: usize = 0;
    while j < cols
        invariant
            j <= cols,
            gm == mat_view(*r_matrix),
            mat_proper(gm),
            cols == gm[0].len(),
            out@.len() == j,
            forall|k: int| 0 <= k < j ==> vec_view(#[trigger] out@[k]) == col_spec(gm, k),
        decreases cols - j,
    {
        proof {
            assert forall|i2: int|
                0 <= i2 < r_matrix@.len() implies j < (#[trigger] r_matrix@[i2])@.len() by {
                assert(gm[i2].len() == gm[0].len());
            }
        }
        let col = col_of(r_matrix, j);
        out.push(col);
        j = j + 1;
    }
    proof {
        assert(mat_view(out) =~= transpose_spec(gm));
    }
    out
}

/// Transpose at the kernel boundary: an empty matrix transposes to an empty
/// matrix, a ragged matrix is refused, and otherwise the exact transpose is
/// returned.
pub fn transpose(matrix: &Vec<Vec<Frac>>) -> (r: Result<Vec<Vec<Frac>>, MatError>)
    ensures
        r is Ok <==> (mat_view(*matrix).len() == 0 || mat_proper(mat_view(*matrix))),
        mat_view(*matrix).len() == 0 ==> r is Ok && mat_view(r.unwrap()).len() == 0,
        (mat_view(*matrix).len() > 0 && !mat_proper(mat_view(*matrix))) <==> (r matches Err(e)
            && e is ShapeViolation),
        r is Ok && mat_view(*matrix).len() > 0 ==> mat_view(r.unwrap()) == transpose_spec(
            mat_view(*matrix),
        ),
{
    if matrix.len() == 0 {
        return Ok(Vec::new());
    }
    if !crate::my_util::is_proper_matrix(matrix) {
        return Err(MatError::ShapeViolation);
    }
    Ok(rust_transpose(matrix))
}

/// The trace at the kernel boundary: zero for the empty matrix, a shape
/// violation for any other non-square input, and otherwise the exact sum of
/// the main diagonal.
pub fn trace(matrix: &Vec<Vec<Frac>>) -> (r: Result<Frac, MatError>)
    requires
        mat_pos(mat_view(*matrix)),
    ensures
        mat_view(*matrix).len() == 0 ==> r is Ok && r.unwrap()@ == rat_int(0),
        (mat_view(*matrix).len() > 0 && !mat_square(mat_view(*matrix))) <==> (r matches Err(e)
            && e is ShapeViolation),
        r is Ok <==> (mat_view(*matrix).len() == 0 || (mat_square(mat_view(*matrix)) && sum_acc(
            diag_spec(mat_view(*matrix)),
        ) is Some)),
        r is Ok && mat_view(*matrix).len() > 0 ==> r.unwrap()@ == sum_acc(
            diag_spec(mat_view(*matrix)),
        ).unwrap(),
        r is Ok && mat_view(*matrix).len() > 0 ==> rat_eq(
            r.unwrap()@,
            rat_sum(diag_spec(mat_view(*matrix))),
        ) && r.unwrap().pos(),
{
    let ghost gm = mat_view(*matrix);
    if matrix.len() == 0 {
        return Ok(Frac::from_int(0));
    }
    if !crate::my_util::is_square_matrix(matrix) {
        return Err(MatError::ShapeViolation);
    }
    let ghost diag = diag_spec(gm);
    let n = matrix.len();
    let mut acc: Frac = Frac::from_int(0);
    let mut i: usize = 0;
    while i < n
        invariant
            i <= n,
            gm == mat_view(*matrix),
            mat_square(gm),
            mat_pos(gm),
            n == gm.len(),
            diag == diag_spec(gm),
            acc.pos(),
            rat_eq(acc@, rat_sum(diag.take(i as int))),
            sum_acc(diag.take(i as int)) == Some(acc@),
        decreases n - i,
    {
        proof {
            assert(gm[i as int][i as int] == matrix@[i as int]@[i as int]@);
            assert(row_pos(gm[i as int]));
            assert(gm[i as int][i as int].d > 0);
            assert(diag.take(i as int + 1).drop_last() =~= diag.take(i as int));
            assert(diag.take(i as int + 1).last() == diag[i as int]);
        }
        let next = match acc.add(&matrix[i][i]) {
            Some(next) => next,
            None => {
                proof {
                    assert(sum_acc(diag.take(i as int + 1)) is None);
                    if sum_acc(diag) is Some {
                        lemma_sum_acc_prefix(diag, i as int + 1);
                    }
                }
                return Err(MatError::Overflow);
            },
        };
        proof {
            assert(sum_acc(diag.take(i as int + 1)) == Some(next@));
            let partial = rat_sum(diag.take(i as int));
            crate::rat::lemma_rat_add_congr(acc@, partial, matrix@[i as int]@[i as int]@, diag[i as int]);
            assert(rat_add(acc@, matrix@[i as int]@[i as int]@).d > 0) by (nonlinear_arith)
                requires
                    acc@.d > 0,
                    matrix@[i as int]@[i as int]@.d > 0,
            ;
            crate::rat::lemma_rat_eq_trans(
                next@,
                rat_add(acc@, matrix@[i as int]@[i as int]@),
                rat_add(partial, diag[i as int]),
            );
        }
        acc = next;
        i = i + 1;
    }
    proof {
        assert(diag.take(n as int) =~= diag);
    }
    Ok(acc)
}

/// The running-sum computation as the machine performs it: canonical
/// reduced values accumulated left to right, `None` from the first
/// intermediate whose reduced form leaves the machine range.
pub open spec fn sum_acc(s: Seq<Rat>) -> Option<Rat>
    decreases s.len(),
{
    if s.len() == 0 {
        Some(rat_int(0))
    } else {
        match sum_acc(s.drop_last()) {
            Option::None => Option::None,
            Option::Some(acc) => if !frac_add_ok(acc, s.last()) {
                Option::None
            } else {
                Option::Some(frac_add(acc, s.last()))
            },
        }
    }
}

/// A running sum that completes also completes on every prefix.
proof fn lemma_sum_acc_prefix(s: Seq<Rat>, k: int)
    requires
        0 <= k <= s.len(),
        sum_acc(s) is Some,
    ensures
        sum_acc(s.take(k)) is Some,
    decreases s.len() - k,
{
    if k == s.len() {
        assert(s.take(k) =~= s);
    } else {
        assert(s.drop_last().take(k) =~= s.take(k));
        lemma_sum_acc_prefix(s.drop_last(), k);
    }
}

/// The running-product computation as the machine performs it.
pub open spec fn prod_acc(s: Seq<Rat>) -> Option<Rat>
    decreases s.len(),
{
    if s.len() == 0 {
        Some(rat_int(1))
    } else {
        match prod_acc(s.drop_last()) {
            Option::None => Option::None,
            Option::Some(acc) => if !frac_mul_ok(acc, s.last()) {
                Option::None
            } else {
                Option::Some(frac_mul(acc, s.last()))
            },
        }
    }
}

/// A running product that completes also completes on every prefix.
proof fn lemma_prod_acc_prefix(s: Seq<Rat>, k: int)
    requires
        0 <= k <= s.len(),
        prod_acc(s) is Some,
    ensures
        prod_acc(s.take(k)) is Some,
    decreases s.len() - k,
{
    if k == s.len() {
        assert(s.take(k) =~= s);
    } else {
        assert(s.drop_last().take(k) =~= s.take(k));
        lemma_prod_acc_prefix(s.drop_last(), k);
    }
}

/// The machine value of a three-factor product, `None` when an intermediate
/// canonical value leaves the machine range.
pub open spec fn trip_acc(x: Rat, y: Rat, z: Rat) -> Option<Rat> {
    if !frac_mul_ok(x, y) {
        Option::None
    } else if !frac_mul_ok(frac_mul(x, y), z) {
        Option::None
    } else {
        Option::Some(frac_mul(frac_mul(x, y), z))
    }
}

/// The closed determinant computation for sizes one to three as the machine
/// performs it: the signed products and sums over canonical values, `None`
/// from the first intermediate whose reduced form leaves the machine range.
pub open spec fn det3_acc(s: Seq<Seq<Rat>>) -> Option<Rat> {
    if s.len() == 1 {
        Option::Some(s[0][0])
    } else if s.len() == 2 {
        if !frac_mul_ok(s[0][0], s[1][1]) {
            Option::None
        } else if !frac_mul_ok(s[0][1], s[1][0]) {
            Option::None
        } else if !frac_sub_ok(frac_mul(s[0][0], s[1][1]), frac_mul(s[0][1], s[1][0])) {
            Option::None
        } else {
            Option::Some(frac_sub(frac_mul(s[0][0], s[1][1]), frac_mul(s[0][1], s[1][0])))
        }
    } else {
        match (trip_acc(s[0][0], s[1][1], s[2][2]), trip_acc(s[0][1], s[1][2], s[2][0]), trip_acc(
            s[0][2],
            s[1][0],
            s[2][1],
        ), trip_acc(s[0][2], s[1][1], s[2][0]), trip_acc(s[0][0], s[1][2], s[2][1]), trip_acc(
            s[0][1],
            s[1][0],
            s[2][2],
        )) {
            (
                Option::Some(t1),
                Option::Some(t2),
                Option::Some(t3),
                Option::Some(u1),
                Option::Some(u2),
                Option::Some(u3),
            ) => {
                if !frac_add_ok(t1, t2) {
                    Option::None
                } else if !frac_add_ok(frac_add(t1, t2), t3) {
                    Option::None
                } else if !frac_add_ok(u1, u2) {
                    Option::None
                } else if !frac_add_ok(frac_add(u1, u2), u3) {
                    Option::None
                } else if !frac_sub_ok(frac_add(frac_add(t1, t2), t3), frac_add(frac_add(u1, u2), u3)) {
                    Option::None
                } else {
                    Option::Some(
                        frac_sub(frac_add(frac_add(t1, t2), t3), frac_add(frac_add(u1, u2), u3)),
                    )
                }
            },
            _ => Option::None,
        }
    }
}

/// The closed determinant formula for sizes one to three: the signed sums of
/// the diagonal-cyclic products, which for these sizes agree with the
/// standard cofactor expansion.
pub open spec fn det_leq3_spec(s: Seq<Seq<Rat>>) -> Rat {
    if s.len() == 1 {
        s[0][0]
    } else if s.len() == 2 {
        rat_sub(rat_mul(s[0][0], s[1][1]), rat_mul(s[0][1], s[1][0]))
    } else {
        rat_sub(
            rat_add(
                rat_add(
                    rat_mul(rat_mul(s[0][0], s[1][1]), s[2][2]),
                    rat_mul(rat_mul(s[0][1], s[1][2]), s[2][0]),
                ),
                rat_mul(rat_mul(s[0][2], s[1][0]), s[2][1]),
            ),
            rat_add(
                rat_add(
                    rat_mul(rat_mul(s[0][2], s[1][1]), s[2][0]),
                    rat_mul(rat_mul(s[0][0], s[1][2]), s[2][1]),
                ),
                rat_mul(rat_mul(s[0][1], s[1][0]), s[2][2]),
            ),
        )
    }
}

/// A product of three matrix entries, with exactness carried through both
/// multiplications.
fn triple(x: Frac, y: Frac, z: Frac) -> (r: Option<Frac>)
    requires
        x.pos(),
        y.pos(),
        z.pos(),
    ensures
        r is Some <==> trip_acc(x@, y@, z@) is Some,
        r is Some ==> r.unwrap()@ == trip_acc(x@, y@, z@).unwrap(),
        r is Some ==> r.unwrap().pos() && rat_eq(r.unwrap()@, rat_mul(rat_mul(x@, y@), z@)),
{
    let xy = match x.mul(&y) {
        Some(xy) => xy,
        None => {
            return None;
        },
    };
    let xyz = match xy.mul(&z) {
        Some(xyz) => xyz,
        None => {
            return None;
        },
    };
    proof {
        lemma_mul_lift(xyz@, xy@, z@, rat_mul(x@, y@), z@);
    }
    Some(xyz)
}

/// The determinant of a square matrix of size at most three, by the closed
/// formula.
fn rust_det_leq3(matrix: &Vec<Vec<Frac>>) -> (r: Option<Frac>)
    requires
        mat_square(mat_view(*matrix)),
        mat_view(*matrix).len() <= 3,
        mat_pos(mat_view(*matrix)),
    ensures
        r is Some <==> det3_acc(mat_view(*matrix)) is Some,
        r is Some ==> r.unwrap()@ == det3_acc(mat_view(*matrix)).unwrap(),
        r is Some ==> r.unwrap().pos() && rat_eq(r.unwrap()@, det_leq3_spec(mat_view(*matrix))),
{
    let ghost s = mat_view(*matrix);
    let n = matrix.len();
    proof {
        assert forall|i: int| 0 <= i < n implies (#[trigger] matrix@[i])@.len() == n by {
            assert(mat_view(*matrix)[i] == vec_view(matrix@[i]));
            assert(mat_view(*matrix)[i].len() == mat_view(*matrix)[0].len());
        }
        assert forall|i: int, j: int| 0 <= i < n && 0 <= j < n implies (#[trigger] s[i][j]).d > 0
            && s[i][j] == matrix@[i]@[j]@ by {
            assert(s[i] == vec_view(matrix@[i]));
            assert(s[i].len() == s[0].len());
            assert(row_pos(s[i]));
        }
    }
    if n == 1 {
        proof {
            assert(s[0][0].d > 0 && s[0][0] == matrix@[0]@[0]@);
        }
        return Some(matrix[0][0]);
    }
    if n == 2 {
        proof {
            assert(s[0][0].d > 0 && s[0][0] == matrix@[0]@[0]@);
            assert(s[0][1].d > 0 && s[0][1] == matrix@[0]@[1]@);
            assert(s[1][0].d > 0 && s[1][0] == matrix@[1]@[0]@);
            assert(s[1][1].d > 0 && s[1][1] == matrix@[1]@[1]@);
        }
        let p1 = match matrix[0][0].mul(&matrix[1][1]) {
            Some(p) => p,
            None => {
                return None;
            },
        };
        let p2 = match matrix[0][1].mul(&matrix[1][0]) {
            Some(p) => p,
            None => {
                return None;
            },
        };
        let d = match p1.sub(&p2) {
            Some(d) => d,
            None => {
                return None;
            },
        };
        proof {
            lemma_sub_lift(d@, p1@, p2@, rat_mul(s[0][0], s[1][1]), rat_mul(s[0][1], s[1][0]));
        }
        return Some(d);
    }
    proof {
        assert(s[0][0].d > 0 && s[0][0] == matrix@[0]@[0]@);
        assert(s[0][1].d > 0 && s[0][1] == matrix@[0]@[1]@);
        assert(s[0][2].d > 0 && s[0][2] == matrix@[0]@[2]@);
        assert(s[1][0].d > 0 && s[1][0] == matrix@[1]@[0]@);
        assert(s[1][1].d > 0 && s[1][1] == matrix@[1]@[1]@);
        assert(s[1][2].d > 0 && s[1][2] == matrix@[1]@[2]@);
        assert(s[2][0].d > 0 && s[2][0] == matrix@[2]@[0]@);
        assert(s[2][1].d > 0 && s[2][1] == matrix@[2]@[1]@);
        assert(s[2][2].d > 0 && s[2][2] == matrix@[2]@[2]@);
    }
    let t1 = match triple(matrix[0][0], matrix[1][1], matrix[2][2]) {
        Some(t) => t,
        None => {
            return None;
        },
    };
    let t2 = match triple(matrix[0][1], matrix[1][2], matrix[2][0]) {
        Some(t) => t,
        None => {
            return None;
        },
    };
    let t3 = match triple(matrix[0][2], matrix[1][0], matrix[2][1]) {
        Some(t) => t,
        None => {
            return None;
        },
    };
    let u1 = match triple(matrix[0][2], matrix[1][1], matrix[2][0]) {
        Some(t) => t,
        None => {
            return None;
        },
    };
    let u2 = match triple(matrix[0][0], matrix[1][2], matrix[2][1]) {
        Some(t) => t,
        None => {
            return None;
        },
    };
    let u3 = match triple(matrix[0][1], matrix[1][0], matrix[2][2]) {
        Some(t) => t,
        None => {
            return None;
        },
    };
    let ghost g1 = rat_mul(rat_mul(s[0][0], s[1][1]), s[2][2]);
    let ghost g2 = rat_mul(rat_mul(s[0][1], s[1][2]), s[2][0]);
    let ghost g3 = rat_mul(rat_mul(s[0][2], s[1][0]), s[2][1]);
    let ghost h1 = rat_mul(rat_mul(s[0][2], s[1][1]), s[2][0]);
    let ghost h2 = rat_mul(rat_mul(s[0][0], s[1][2]), s[2][1]);
    let ghost h3 = rat_mul(rat_mul(s[0][1], s[1][0]), s[2][2]);
    let plus12 = match t1.add(&t2) {
        Some(v) => v,
        None => {
            return None;
        },
    };
    let plus = match plus12.add(&t3) {
        Some(v) => v,
        None => {
            return None;
        },
    };
    let minus12 = match u1.add(&u2) {
        Some(v) => v,
        None => {
            return None;
        },
    };
    let minus = match minus12.add(&u3) {
        Some(v) => v,
        None => {
            return None;
        },
    };
    let d = match plus.sub(&minus) {
        Some(v) => v,
        None => {
            return None;
        },
    };
    proof {
        lemma_add_lift(plus12@, t1@, t2@, g1, g2);
        lemma_add_lift(plus@, plus12@, t3@, rat_add(g1, g2), g3);
        lemma_add_lift(minus12@, u1@, u2@, h1, h2);
        lemma_add_lift(minus@, minus12@, u3@, rat_add(h1, h2), h3);
        lemma_sub_lift(d@, plus@, minus@, rat_add(rat_add(g1, g2), g3), rat_add(rat_add(h1, h2), h3));
    }
    Some(d)
}

/// The determinant of a square matrix: the closed formula up to size three,
/// and the product of the diagonal after forward elimination above that.
/// The triangular route is exact whenever every forward pivot denotes a
/// definite nonzero quantity; `None` reports that an intermediate value had
/// no machine representative.
pub fn rust_det(matrix: &Vec<Vec<Frac>>) -> (r: Option<Frac>)
    requires
        mat_square(mat_view(*matrix)),
        mat_pos(mat_view(*matrix)),
    ensures
        mat_view(*matrix).len() <= 3 ==> (r is Some <==> det3_acc(mat_view(*matrix)) is Some),
        r is Some && mat_view(*matrix).len() <= 3 ==> r.unwrap()@ == det3_acc(
            mat_view(*matrix),
        ).unwrap(),
        r is Some && mat_view(*matrix).len() <= 3 ==> r.unwrap().pos() && rat_eq(
            r.unwrap()@,
            det_leq3_spec(mat_view(*matrix)),
        ),
        mat_view(*matrix).len() > 3 ==> (r is Some <==> (fwd_acc(
            mat_view(*matrix),
            mat_view(*matrix).len() as int,
        ) is Some && prod_acc(
            diag_spec(fwd_acc(mat_view(*matrix), mat_view(*matrix).len() as int).unwrap()),
        ) is Some)),
        r is Some && mat_view(*matrix).len() > 3 ==> r.unwrap()@ == prod_acc(
            diag_spec(fwd_acc(mat_view(*matrix), mat_view(*matrix).len() as int).unwrap()),
        ).unwrap(),
        r is Some && mat_view(*matrix).len() > 3 ==> r.unwrap().wf() && (fwd_ok(
            mat_view(*matrix),
        ) ==> r.unwrap().pos() && rat_eq(
            r.unwrap()@,
            rat_prod(diag_spec(fwd_spec(mat_view(*matrix)))),
        )),
{
    let ghost va = mat_view(*matrix);
    let n = matrix.len();
    if n <= 3 {
        return rust_det_leq3(matrix);
    }
    proof {
        assert forall|k: int| 0 <= k < matrix@.len() implies (#[trigger] matrix@[k])@.len()
            == matrix@[0]@.len() by {
            assert(mat_view(*matrix)[k] == vec_view(matrix@[k]));
            assert(mat_view(*matrix)[0] == vec_view(matrix@[0]));
            assert(mat_view(*matrix)[k].len() == mat_view(*matrix)[0].len());
        }
        assert(matrix@[0]@.len() == n);
        assert(mat_wf(va));
        assert(mat_eq(va, va));
        assert forall|k: int| 0 <= k < va.len() implies (#[trigger] va[k]).len() == n by {}
    }
    let w1 = match fwd_pass(matrix, Ghost(va)) {
        Some(w1) => w1,
        None => {
            proof {
                assert(fwd_acc(va, n as int) is None);
            }
            return None;
        },
    };
    let ghost gf = fwd_spec(va);
    let ghost diag = diag_spec(gf);
    let ghost mdiag = diag_spec(fwd_acc(va, n as int).unwrap());
    proof {
        assert(mat_view(w1) == fwd_acc(va, n as int).unwrap());
        lemma_fwd_upto_is_mat(va, n as int, n as int, n as int);
    }
    let mut acc: Frac = Frac::from_int(1);
    let mut i: usize = 0;
    while i < n
        invariant
            i <= n,
            n == matrix@.len(),
            n > 3,
            va == mat_view(*matrix),
            gf == fwd_spec(va),
            diag == diag_spec(gf),
            mat_view(w1).len() == n,
            forall|k: int| 0 <= k < n ==> (#[trigger] mat_view(w1)[k]).len() == n,
            mat_wf(mat_view(w1)),
            mat_view(w1) == fwd_acc(va, n as int).unwrap(),
            fwd_acc(va, n as int) is Some,
            mdiag == diag_spec(fwd_acc(va, n as int).unwrap()),
            fwd_ok(va) ==> mat_pos(mat_view(w1)) && mat_eq(mat_view(w1), gf),
            acc.wf(),
            prod_acc(mdiag.take(i as int)) == Some(acc@),
            fwd_ok(va) ==> acc.pos() && rat_eq(acc@, rat_prod(diag.take(i as int))),
        decreases n - i,
    {
        proof {
            assert(mat_view(w1)[i as int] == vec_view(w1@[i as int]));
            assert(row_wf(mat_view(w1)[i as int]));
            assert(mat_view(w1)[i as int][i as int] == w1@[i as int]@[i as int]@);
            assert(mdiag.take(i as int + 1).drop_last() =~= mdiag.take(i as int));
            assert(mdiag.take(i as int + 1).last() == mdiag[i as int]);
            assert(mdiag[i as int] == w1@[i as int]@[i as int]@);
        }
        let next = match acc.mul(&w1[i][i]) {
            Some(next) => next,
            None => {
                proof {
                    assert(prod_acc(mdiag.take(i as int + 1)) is None);
                    if prod_acc(mdiag) is Some {
                        lemma_prod_acc_prefix(mdiag, i as int + 1);
                    }
                }
                return None;
            },
        };
        proof {
            assert(prod_acc(mdiag.take(i as int + 1)) == Some(next@));
            if fwd_ok(va) {
                assert(row_pos(mat_view(w1)[i as int]));
                assert(row_eq(mat_view(w1)[i as int], gf[i as int]));
                assert(rat_eq(mat_view(w1)[i as int][i as int], gf[i as int][i as int]));
                assert(diag.take(i as int + 1).drop_last() =~= diag.take(i as int));
                assert(diag.take(i as int + 1).last() == diag[i as int]);
                assert(diag[i as int] == gf[i as int][i as int]);
                lemma_mul_lift(
                    next@,
                    acc@,
                    w1@[i as int]@[i as int]@,
                    rat_prod(diag.take(i as int)),
                    gf[i as int][i as int],
                );
            }
        }
        acc = next;
        i = i + 1;
    }
    proof {
        assert(mdiag.take(n as int) =~= mdiag);
        if fwd_ok(va) {
            assert(diag.take(n as int) =~= diag);
        }
    }
    Some(acc)
}

/// The determinant at the kernel boundary: the matrix must be square, else
/// the input is refused as a shape violation.
///
/// The validation here is deliberately stricter than "proper": a determinant
/// is defined on square matrices only, and the design's determinant engine
/// speaks of one size throughout. A proper rectangular input, on which the
/// diagonal walk would run out of columns or rows, is refused rather than
/// given a meaningless number.
pub fn det(matrix: &Vec<Vec<Frac>>) -> (r: Result<Frac, MatError>)
    requires
        mat_pos(mat_view(*matrix)),
    ensures
        !mat_square(mat_view(*matrix)) <==> (r matches Err(e) && e is ShapeViolation),
        mat_view(*matrix).len() <= 3 ==> (r is Ok <==> (mat_square(mat_view(*matrix))
            && det3_acc(mat_view(*matrix)) is Some)),
        r is Ok && mat_view(*matrix).len() <= 3 ==> r.unwrap()@ == det3_acc(
            mat_view(*matrix),
        ).unwrap(),
        r is Ok && mat_view(*matrix).len() <= 3 ==> rat_eq(
            r.unwrap()@,
            det_leq3_spec(mat_view(*matrix)),
        ),
        mat_view(*matrix).len() > 3 ==> (r is Ok <==> (mat_square(mat_view(*matrix)) && fwd_acc(
            mat_view(*matrix),
            mat_view(*matrix).len() as int,
        ) is Some && prod_acc(
            diag_spec(fwd_acc(mat_view(*matrix), mat_view(*matrix).len() as int).unwrap()),
        ) is Some)),
        r is Ok && mat_view(*matrix).len() > 3 ==> r.unwrap()@ == prod_acc(
            diag_spec(fwd_acc(mat_view(*matrix), mat_view(*matrix).len() as int).unwrap()),
        ).unwrap(),
        r is Ok && mat_view(*matrix).len() > 3 && fwd_ok(mat_view(*matrix)) ==> rat_eq(
            r.unwrap()@,
            rat_prod(diag_spec(fwd_spec(mat_view(*matrix)))),
        ),
{
    if !crate::my_util::is_square_matrix(matrix) {
        return Err(MatError::ShapeViolation);
    }
    match rust_det(matrix) {
        Some(v) => Ok(v),
        None => Err(MatError::Overflow),
    }
}

/// A square matrix augmented with the identity of its own dimension.
pub open spec fn inv_aug(s: Seq<Seq<Rat>>) -> Seq<Seq<Rat>> {
    Seq::new(s.len(), |i: int| s[i] + ident_spec(s.len() as int)[i])
}

/// The inverse of a square matrix: augment with the identity, run the full
/// reduction pipeline, and keep the right block. When every pivot and
/// diagonal divisor along the pipeline denotes a definite nonzero quantity —
/// that is, when the matrix is invertible along the unpivoted route — the
/// result is, cell for cell, the exact right block of the reduced augmented
/// matrix; a singular input instead propagates undefined entries silently.
pub fn rust_inv(a: &Vec<Vec<Frac>>) -> (r: Option<Vec<Vec<Frac>>>)
    requires
        mat_square(mat_view(*a)),
        mat_pos(mat_view(*a)),
    ensures
        r is Some <==> gauss_acc(inv_aug(mat_view(*a))) is Some,
        r is Some ==> {
            let v = mat_view(r.unwrap());
            let n = mat_view(*a).len() as int;
            v.len() == n && (forall|i: int| 0 <= i < n ==> (#[trigger] v[i]).len() == n) && (
            forall|i: int, j: int|
                0 <= i < n && 0 <= j < n ==> #[trigger] v[i][j] == gauss_acc(
                    inv_aug(mat_view(*a)),
                ).unwrap()[i][n + j]) && (gauss_ok(inv_aug(mat_view(*a))) ==> forall|
                i: int,
                j: int,
            |
                0 <= i < n && 0 <= j < n ==> rat_eq(
                    #[trigger] v[i][j],
                    gauss_spec(inv_aug(mat_view(*a)))[i][n + j],
                ))
        },
{
    let ghost va = mat_view(*a);
    let n = a.len();
    let ghost gaug = inv_aug(va);
    let iden = generate_identity_matrix(n);
    proof {
        assert(mat_view(iden).len() == n);
    }
    let aug = augment(a, &iden);
    proof {
        assert forall|k: int| 0 <= k < n implies #[trigger] mat_view(aug)[k] == gaug[k] by {
            assert(mat_view(aug)[k] == mat_view(*a)[k] + mat_view(iden)[k]);
        }
        assert(mat_view(aug).len() == n);
        assert forall|k: int| 0 <= k < n implies (#[trigger] aug@[k])@.len() == n + n by {
            assert(mat_view(aug)[k] == gaug[k]);
            assert(va[k].len() == va[0].len());
            assert(ident_spec(n as int)[k].len() == n);
        }
        assert(n >= 1);
        assert(aug@[0]@.len() == n + n);
        assert forall|k: int| 0 <= k < n implies row_wf(vec_view(#[trigger] aug@[k])) && row_pos(
            vec_view(aug@[k]),
        ) by {
            assert(mat_view(aug)[k] == gaug[k]);
            assert(row_pos(va[k]));
            assert forall|j: int| 0 <= j < n + n implies (#[trigger] vec_view(aug@[k])[j]).d > 0
                by {
                assert(vec_view(aug@[k])[j] == gaug[k][j]);
                if j < n {
                    assert(gaug[k][j] == va[k][j]);
                } else {
                    assert(gaug[k][j] == ident_spec(n as int)[k][j - n]);
                }
            }
        }
        assert(mat_pos(mat_view(aug)));
        assert(mat_wf(mat_view(aug)));
        assert(mat_eq(mat_view(aug), gaug));
        assert forall|k: int| 0 <= k < n implies (#[trigger] gaug[k]).len() == n + n by {
            assert(va[k].len() == va[0].len());
            assert(ident_spec(n as int)[k].len() == n);
        }
        assert(mat_view(aug) =~= gaug);
    }
    let w1 = match fwd_pass(&aug, Ghost(gaug)) {
        Some(w1) => w1,
        None => {
            proof {
                assert(fwd_acc(gaug, n as int) is None);
                assert(gauss_acc(gaug) is None);
            }
            return None;
        },
    };
    proof {
        assert(mat_view(w1) == fwd_acc(gaug, n as int).unwrap());
        lemma_fwd_upto_is_mat(gaug, n as int, n as int, n as int + n as int);
        assert forall|k: int| 0 <= k < w1@.len() implies (#[trigger] w1@[k])@.len()
            == w1@[0]@.len() by {
            assert(mat_view(w1)[k] == vec_view(w1@[k]));
            assert(mat_view(w1)[0] == vec_view(w1@[0]));
            assert(mat_view(w1)[k].len() == n + n && mat_view(w1)[0].len() == n + n);
        }
        assert(mat_view(w1).len() > 0);
        assert(mat_view(w1)[0] == vec_view(w1@[0]));
        assert(mat_view(w1)[0].len() == n + n);
        assert(w1@[0]@.len() == n + n);
    }
    let w2 = match bwd_pass(&w1, Ghost(fwd_spec(gaug))) {
        Some(w2) => w2,
        None => {
            proof {
                assert(bwd_acc(fwd_acc(gaug, n as int).unwrap(), 0) is None);
                assert(gauss_acc(gaug) is None);
            }
            return None;
        },
    };
    proof {
        assert(mat_view(w2) == bwd_acc(fwd_acc(gaug, n as int).unwrap(), 0).unwrap());
        lemma_bwd_from_is_mat(fwd_spec(gaug), 0, n as int, n as int + n as int);
        assert forall|k: int| 0 <= k < w2@.len() implies (#[trigger] w2@[k])@.len()
            == w2@[0]@.len() by {
            assert(mat_view(w2)[k] == vec_view(w2@[k]));
            assert(mat_view(w2)[0] == vec_view(w2@[0]));
            assert(mat_view(w2)[k].len() == n + n && mat_view(w2)[0].len() == n + n);
        }
        assert(mat_view(w2).len() > 0);
        assert(mat_view(w2)[0] == vec_view(w2@[0]));
        assert(mat_view(w2)[0].len() == n + n);
        assert(w2@[0]@.len() == n + n);
    }
    let w3 = match simp_pass(&w2, Ghost(bwd_spec(fwd_spec(gaug)))) {
        Some(w3) => w3,
        None => {
            proof {
                assert(!simp_all_ok(bwd_acc(fwd_acc(gaug, n as int).unwrap(), 0).unwrap()));
                assert(gauss_acc(gaug) is None);
            }
            return None;
        },
    };
    proof {
        assert(mat_view(w3) == simp_val_acc(
            bwd_acc(fwd_acc(gaug, n as int).unwrap(), 0).unwrap(),
        ));
        assert(gauss_acc(gaug) == Some(mat_view(w3)));
        assert forall|k: int| 0 <= k < w3@.len() implies (#[trigger] w3@[k])@.len()
            == w3@[0]@.len() by {
            assert(mat_view(w3)[k] == vec_view(w3@[k]));
            assert(mat_view(w3)[0] == vec_view(w3@[0]));
            assert(mat_view(w3)[k].len() == n + n && mat_view(w3)[0].len() == n + n);
        }
        assert(mat_view(w3).len() > 0);
        assert(mat_view(w3)[0] == vec_view(w3@[0]));
        assert(mat_view(w3)[0].len() == n + n);
        assert(w3@[0]@.len() == n + n);
    }
    let out = extract_last_n_cols(&w3, n);
    proof {
        if gauss_ok(gaug) {
            assert(mat_pos(mat_view(aug)) && mat_eq(mat_view(aug), gaug) && fwd_ok(gaug));
            assert(mat_pos(mat_view(w1)) && mat_eq(mat_view(w1), fwd_spec(gaug)));
            assert(mat_pos(mat_view(w2)) && mat_eq(mat_view(w2), bwd_spec(fwd_spec(gaug))));
            assert(mat_pos(mat_view(w3)) && mat_eq(mat_view(w3), gauss_spec(gaug)));
            assert forall|i: int, j: int| 0 <= i < n && 0 <= j < n implies rat_eq(
                #[trigger] mat_view(out)[i][j],
                gauss_spec(gaug)[i][n + j],
            ) by {
                assert(mat_view(out)[i] == mat_view(w3)[i].skip(mat_view(w3)[i].len() - n));
                assert(mat_view(w3)[i].len() == n + n);
                assert(mat_view(out)[i][j] == mat_view(w3)[i][n + j]);
                assert(row_eq(mat_view(w3)[i], gauss_spec(gaug)[i]));
            }
        }
        assert forall|i: int| 0 <= i < n implies (#[trigger] mat_view(out)[i]).len() == n by {
            assert(mat_view(out)[i] == mat_view(w3)[i].skip(mat_view(w3)[i].len() - n));
            assert(mat_view(w3)[i].len() == n + n);
        }
        assert forall|i: int, j: int|
            0 <= i < n && 0 <= j < n implies #[trigger] mat_view(out)[i][j] == gauss_acc(
            gaug,
        ).unwrap()[i][n + j] by {
            assert(mat_view(out)[i] == mat_view(w3)[i].skip(mat_view(w3)[i].len() - n));
            assert(mat_view(w3)[i].len() == n + n);
            assert(mat_view(out)[i][j] == mat_view(w3)[i][n + j]);
        }
    }
    Some(out)
}

/// The inverse at the kernel boundary: the matrix must be square, else the
/// input is refused as a shape violation.
pub fn inv(a: &Vec<Vec<Frac>>) -> (r: Result<Vec<Vec<Frac>>, MatError>)
    requires
        mat_pos(mat_view(*a)),
    ensures
        !mat_square(mat_view(*a)) <==> (r matches Err(e) && e is ShapeViolation),
        r is Ok <==> (mat_square(mat_view(*a)) && gauss_acc(inv_aug(mat_view(*a))) is Some),
        r is Ok ==> {
            let v = mat_view(r.unwrap());
            let n = mat_view(*a).len() as int;
            v.len() == n && (forall|i: int| 0 <= i < n ==> (#[trigger] v[i]).len() == n) && (
            forall|i: int, j: int|
                0 <= i < n && 0 <= j < n ==> #[trigger] v[i][j] == gauss_acc(
                    inv_aug(mat_view(*a)),
                ).unwrap()[i][n + j]) && (gauss_ok(inv_aug(mat_view(*a))) ==> forall|
                i: int,
                j: int,
            |
                0 <= i < n && 0 <= j < n ==> rat_eq(
                    #[trigger] v[i][j],
                    gauss_spec(inv_aug(mat_view(*a)))[i][n + j],
                ))
        },
{
    if !crate::my_util::is_square_matrix(a) {
        return Err(MatError::ShapeViolation);
    }
    match rust_inv(a) {
        Some(m) => Ok(m),
        None => Err(MatError::Overflow),
    }
}

} // verus!
