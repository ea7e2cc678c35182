//! Buffer and shape utilities: the matrix model, shape predicates, layout
//! conversion between row-structured and flat row-major form, identity
//! generation, and the augmentation and column-splitting helpers that carry a
//! right-hand side or an identity block through elimination.
//!
//! A matrix is a vector of rows of [`Frac`] scalars; its model is the
//! sequence of sequences of the formal fractions the cells denote.

use vstd::arithmetic::div_mod::lemma_fundamental_div_mod_converse;
use vstd::prelude::*;

use crate::frac::Frac;
use crate::rat::{rat_eq, rat_int, Rat};

verus! {

/// The sequence of formal fractions denoted by a vector of scalars.
pub open spec fn vec_view(v: Vec<Frac>) -> Seq<Rat> {
    Seq::new(v@.len(), |i: int| v@[i]@)
}

/// The matrix of formal fractions denoted by a vector of rows.
pub open spec fn mat_view(m: Vec<Vec<Frac>>) -> Seq<Seq<Rat>> {
    Seq::new(m@.len(), |i: int| vec_view(m@[i]))
}

/// Every entry of the row has a nonnegative denominator, as every machine
/// representative keeps it; a zero denominator is an undefined entry.
pub open spec fn row_wf(s: Seq<Rat>) -> bool {
    forall|j: int| 0 <= j < s.len() ==> (#[trigger] s[j]).d >= 0
}

/// Every entry of the matrix has a nonnegative denominator.
pub open spec fn mat_wf(s: Seq<Seq<Rat>>) -> bool {
    forall|i: int| 0 <= i < s.len() ==> row_wf(#[trigger] s[i])
}

/// Every entry of the row has a nonzero denominator: the row denotes
/// definite quantities.
pub open spec fn row_def(s: Seq<Rat>) -> bool {
    forall|j: int| 0 <= j < s.len() ==> (#[trigger] s[j]).d != 0
}

/// Every entry of the matrix has a nonzero denominator.
pub open spec fn mat_def(s: Seq<Seq<Rat>>) -> bool {
    forall|i: int| 0 <= i < s.len() ==> row_def(#[trigger] s[i])
}

/// Every entry of the row has a positive denominator.
pub open spec fn row_pos(s: Seq<Rat>) -> bool {
    forall|j: int| 0 <= j < s.len() ==> (#[trigger] s[j]).d > 0
}

/// Every entry of the matrix has a positive denominator.
pub open spec fn mat_pos(s: Seq<Seq<Rat>>) -> bool {
    forall|i: int| 0 <= i < s.len() ==> row_pos(#[trigger] s[i])
}

/// A matrix with exactly `m` rows, each of length `n`.
pub open spec fn is_mat(s: Seq<Seq<Rat>>, m: int, n: int) -> bool {
    s.len() == m && forall|i: int| 0 <= i < m ==> (#[trigger] s[i]).len() == n
}

/// A proper matrix: at least one row, and all rows of one positive length.
pub open spec fn mat_proper(s: Seq<Seq<Rat>>) -> bool {
    s.len() > 0 && s[0].len() > 0 && forall|i: int|
        0 <= i < s.len() ==> (#[trigger] s[i]).len() == s[0].len()
}

/// A square matrix: proper, with as many rows as columns.
pub open spec fn mat_square(s: Seq<Seq<Rat>>) -> bool {
    mat_proper(s) && s.len() == s[0].len()
}

/// Cellwise value equality of two rows.
pub open spec fn row_eq(a: Seq<Rat>, b: Seq<Rat>) -> bool {
    a.len() == b.len() && forall|j: int| 0 <= j < a.len() ==> rat_eq(#[trigger] a[j], b[j])
}

/// Cellwise value equality of two matrices.
pub open spec fn mat_eq(a: Seq<Seq<Rat>>, b: Seq<Seq<Rat>>) -> bool {
    a.len() == b.len() && forall|i: int| 0 <= i < a.len() ==> row_eq(#[trigger] a[i], b[i])
}

/// The `n`-by-`n` identity matrix over formal fractions.
pub open spec fn ident_spec(n: int) -> Seq<Seq<Rat>> {
    Seq::new(
        n as nat,
        |i: int|
            Seq::new(
                n as nat,
                |j: int|
                    if i == j {
                        rat_int(1)
                    } else {
                        rat_int(0)
                    },
            ),
    )
}

/// The `n`-by-`n` identity matrix in flat row-major form.
pub open spec fn ident_flat_spec(n: int) -> Seq<Rat> {
    Seq::new(
        (n * n) as nat,
        |k: int|
            if k / n == k % n {
                rat_int(1)
            } else {
                rat_int(0)
            },
    )
}

/// Whether all rows of a matrix have identical positive length; a proper
/// matrix in the row-structured sense.
pub fn is_proper_matrix(matrix: &Vec<Vec<Frac>>) -> (r: bool)
    ensures
        r == mat_proper(mat_view(*matrix)),
{
    if matrix.len() == 0 {
        return false;
    }
    let n = matrix[0].len();
    if n == 0 {
        return false;
    }
    let mut i: usize = 1;
    while i < matrix.len()
        invariant
            1 <= i <= matrix@.len(),
            n == matrix@[0].len(),
            n > 0,
            forall|k: int| 0 <= k < i ==> (#[trigger] matrix@[k]).len() == n,
        decreases matrix@.len() - i,
    {
        if matrix[i].len() != n {
            proof {
                assert(mat_view(*matrix)[i as int].len() != mat_view(*matrix)[0].len());
            }
            return false;
        }
        i = i + 1;
    }
    true
}

/// Whether a matrix is proper and has as many rows as columns.
pub fn is_square_matrix(matrix: &Vec<Vec<Frac>>) -> (r: bool)
    ensures
        r == mat_square(mat_view(*matrix)),
{
    if !is_proper_matrix(matrix) {
        return false;
    }
    matrix.len() == matrix[0].len()
}

/// A fresh copy of a row of scalars.
pub fn copy_row(v: &Vec<Frac>) -> (r: Vec<Frac>)
    ensures
        r@ == v@,
{
    let mut r: Vec<Frac> = Vec::new();
    let mut j: usize = 0;
    while j < v.len()
        invariant
            j <= v@.len(),
            r@ == v@.take(j as int),
        decreases v@.len() - j,
    {
        r.push(v[j]);
        proof {
            assert(r@ =~= v@.take(j as int + 1));
        }
        j = j + 1;
    }
    proof {
        assert(r@ =~= v@);
    }
    r
}

/// The identity matrix of the given dimension.
pub fn generate_identity_matrix(n: usize) -> (r: Vec<Vec<Frac>>)
    ensures
        mat_view(r) == ident_spec(n as int),
{
    let mut r: Vec<Vec<Frac>> = Vec::new();
    let mut i: usize = 0;
    while i < n
        invariant
            i <= n,
            r@.len() == i,
            forall|k: int| 0 <= k < i ==> (#[trigger] r@[k])@.len() == n,
            forall|k: int, j: int|
                0 <= k < i && 0 <= j < n ==> (#[trigger] r@[k]@[j])@ == (if k == j {
                    rat_int(1)
                } else {
                    rat_int(0)
                }),
        decreases n - i,
    {
        let mut row: Vec<Frac> = Vec::new();
        let mut j: usize = 0;
        while j < n
            invariant
                j <= n,
                row@.len() == j,
                forall|l: int|
                    0 <= l < j ==> (#[trigger] row@[l])@ == (if i == l {
                        rat_int(1)
                    } else {
                        rat_int(0)
                    }),
            decreases n - j,
        {
            if i == j {
                row.push(Frac::from_int(1));
            } else {
                row.push(Frac::from_int(0));
            }
            j = j + 1;
        }
        r.push(row);
        i = i + 1;
    }
    proof {
        assert(mat_view(r) =~~= ident_spec(n as int));
    }
    r
}

/// The identity matrix of the given dimension, in flat row-major form.
pub fn generate_identity_matrix_row_major(n: usize) -> (r: Vec<Frac>)
    requires
        n * n <= usize::MAX,
    ensures
        vec_view(r) == ident_flat_spec(n as int),
{
    let mut r: Vec<Frac> = Vec::new();
    let mut i: usize = 0;
    while i < n
        invariant
            i <= n,
            n * n <= usize::MAX,
            r@.len() == i * n,
            i * n <= n * n,
            forall|k: int|
                0 <= k < i * n ==> (#[trigger] r@[k])@ == (if k / n as int == k % n as int {
                    rat_int(1)
                } else {
                    rat_int(0)
                }),
        decreases n - i,
    {
        let mut j: usize = 0;
        proof {
            assert(i * n + n <= n * n) by (nonlinear_arith)
                requires
                    i < n,
            ;
        }
        while j < n
            invariant
                j <= n,
                i < n,
                n * n <= usize::MAX,
                i * n + n <= n * n,
                i * n >= 0,
                r@.len() == i * n + j,
                forall|k: int|
                    0 <= k < i * n + j ==> (#[trigger] r@[k])@ == (if k / n as int == k
                        % n as int {
                        rat_int(1)
                    } else {
                        rat_int(0)
                    }),
            decreases n - j,
        {
            proof {
                lemma_fundamental_div_mod_converse(
                    i * n + j,
                    n as int,
                    i as int,
                    j as int,
                );
            }
            if i == j {
                r.push(Frac::from_int(1));
            } else {
                r.push(Frac::from_int(0));
            }
            j = j + 1;
        }
        proof {
            assert((i + 1) * n == i * n + n) by (nonlinear_arith);
        }
        i = i + 1;
    }
    proof {
        assert(vec_view(r) =~= ident_flat_spec(n as int));
    }
    r
}

/// Rebuilds a row-structured matrix from a flat row-major buffer with the
/// given column count, which must divide the buffer length evenly.
pub fn row_major_to_matrix(row_major: &Vec<Frac>, cols: usize) -> (r: Vec<Vec<Frac>>)
    requires
        cols >= 1,
        row_major@.len() as int % cols as int == 0,
    ensures
        is_mat(mat_view(r), row_major@.len() as int / cols as int, cols as int),
        forall|i: int, j: int|
            0 <= i < mat_view(r).len() && 0 <= j < cols ==> mat_view(r)[i][j] == vec_view(
                *row_major,
            )[i * cols + j],
{
    let l = row_major.len();
    let m = l / cols;
    proof {
        assert(l as int == row_major@.len());
        assert(m * cols == row_major@.len()) by (nonlinear_arith)
            requires
                cols >= 1,
                row_major@.len() as int % cols as int == 0,
                m == row_major@.len() as int / cols as int,
        ;
    }
    let mut r: Vec<Vec<Frac>> = Vec::new();
    let mut i: usize = 0;
    while i < m
        invariant
            i <= m,
            m * cols == row_major@.len(),
            row_major@.len() <= usize::MAX,
            cols >= 1,
            r@.len() == i,
            forall|k: int| 0 <= k < i ==> (#[trigger] r@[k])@.len() == cols,
            forall|k: int, j: int|
                0 <= k < i && 0 <= j < cols ==> (#[trigger] r@[k]@[j]) == row_major@[k
                    * cols + j],
        decreases m - i,
    {
        proof {
            assert(i * cols + cols <= m * cols) by (nonlinear_arith)
                requires
                    i < m,
                    cols >= 1,
            ;
            assert(i * cols >= 0) by (nonlinear_arith)
                requires
                    i >= 0,
                    cols >= 1,
            ;
        }
        let mut row: Vec<Frac> = Vec::new();
        let mut j: usize = 0;
        while j < cols
            invariant
                j <= cols,
                cols >= 1,
                i * cols + cols <= m * cols,
                i * cols >= 0,
                m * cols == row_major@.len(),
                row_major@.len() <= usize::MAX,
                row@.len() == j,
                forall|l: int| 0 <= l < j ==> (#[trigger] row@[l]) == row_major@[i * cols + l],
            decreases cols - j,
        {
            row.push(row_major[i * cols + j]);
            j = j + 1;
        }
        r.push(row);
        i = i + 1;
    }
    proof {
        assert forall|ii: int, j: int|
            0 <= ii < mat_view(r).len() && 0 <= j < cols implies #[trigger] mat_view(r)[ii][j]
            == vec_view(*row_major)[ii * cols + j] by {
            assert(0 <= ii * cols + j && ii * cols + j < m * cols) by (nonlinear_arith)
                requires
                    0 <= ii < m,
                    0 <= j < cols,
            ;
        }
    }
    r
}

/// Horizontal concatenation of two matrices with equal row counts.
pub fn augment(a: &Vec<Vec<Frac>>, b: &Vec<Vec<Frac>>) -> (r: Vec<Vec<Frac>>)
    requires
        a@.len() == b@.len(),
    ensures
        mat_view(r).len() == mat_view(*a).len(),
        forall|i: int|
            0 <= i < mat_view(r).len() ==> #[trigger] mat_view(r)[i] == mat_view(*a)[i] + mat_view(
                *b,
            )[i],
{
    let mut r: Vec<Vec<Frac>> = Vec::new();
    let mut i: usize = 0;
    while i < a.len()
        invariant
            i <= a@.len(),
            a@.len() == b@.len(),
            r@.len() == i,
            forall|k: int|
                0 <= k < i ==> (#[trigger] r@[k])@ == a@[k]@ + b@[k]@,
        decreases a@.len() - i,
    {
        let mut row: Vec<Frac> = copy_row(&a[i]);
        let mut j: usize = 0;
        while j < b[i].len()
            invariant
                0 <= i < a@.len(),
                a@.len() == b@.len(),
                j <= b@[i as int]@.len(),
                row@ == a@[i as int]@ + b@[i as int]@.take(j as int),
            decreases b@[i as int]@.len() - j,
        {
            row.push(b[i][j]);
            proof {
                assert(row@ =~= a@[i as int]@ + b@[i as int]@.take(j as int + 1));
            }
            j = j + 1;
        }
        proof {
            assert(row@ =~= a@[i as int]@ + b@[i as int]@);
        }
        r.push(row);
        i = i + 1;
    }
    proof {
        assert forall|i: int| 0 <= i < mat_view(r).len() implies #[trigger] mat_view(r)[i]
            == mat_view(*a)[i] + mat_view(*b)[i] by {
            assert(vec_view(r@[i]) =~= vec_view(a@[i]) + vec_view(b@[i]));
        }
    }
    r
}

/// Splits off the last column: the matrix of all other columns, and the last
/// column as a vector.
pub fn split_last_col(a: &Vec<Vec<Frac>>) -> (r: (Vec<Vec<Frac>>, Vec<Frac>))
    requires
        forall|i: int| 0 <= i < a@.len() ==> (#[trigger] a@[i])@.len() >= 1,
    ensures
        mat_view(r.0).len() == mat_view(*a).len(),
        vec_view(r.1).len() == mat_view(*a).len(),
        forall|i: int|
            0 <= i < mat_view(*a).len() ==> #[trigger] mat_view(r.0)[i] == mat_view(
                *a,
            )[i].drop_last(),
        forall|i: int|
            0 <= i < mat_view(*a).len() ==> #[trigger] vec_view(r.1)[i] == mat_view(*a)[i].last(),
{
    let mut o1: Vec<Vec<Frac>> = Vec::new();
    let mut o2: Vec<Frac> = Vec::new();
    let mut i: usize = 0;
    while i < a.len()
        invariant
            i <= a@.len(),
            forall|k: int| 0 <= k < a@.len() ==> (#[trigger] a@[k])@.len() >= 1,
            o1@.len() == i,
            o2@.len() == i,
            forall|k: int| 0 <= k < i ==> (#[trigger] o1@[k])@ == a@[k]@.drop_last(),
            forall|k: int| 0 <= k < i ==> (#[trigger] o2@[k]) == a@[k]@.last(),
        decreases a@.len() - i,
    {
        let row = &a[i];
        let mut left: Vec<Frac> = Vec::new();
        let mut j: usize = 0;
        while j < row.len() - 1
            invariant
                0 <= i < a@.len(),
                row == &a@[i as int],
                row@.len() >= 1,
                j <= row@.len() - 1,
                left@ == row@.take(j as int),
            decreases row@.len() - 1 - j,
        {
            left.push(row[j]);
            proof {
                assert(left@ =~= row@.take(j as int + 1));
            }
            j = j + 1;
        }
        proof {
            assert(left@ =~= row@.drop_last());
        }
        o1.push(left);
        o2.push(row[row.len() - 1]);
        i = i + 1;
    }
    proof {
        assert forall|i: int| 0 <= i < mat_view(*a).len() implies #[trigger] mat_view(o1)[i]
            == mat_view(*a)[i].drop_last() by {
            assert(vec_view(o1@[i]) =~= vec_view(a@[i]).drop_last());
        }
    }
    (o1, o2)
}

/// A fresh copy of a matrix of scalars.
pub fn copy_mat(a: &Vec<Vec<Frac>>) -> (r: Vec<Vec<Frac>>)
    ensures
        r@.len() == a@.len(),
        forall|i: int| 0 <= i < a@.len() ==> (#[trigger] r@[i])@ == a@[i]@,
        mat_view(r) == mat_view(*a),
{
    let mut r: Vec<Vec<Frac>> = Vec::new();
    let mut i: usize = 0;
    while i < a.len()
        invariant
            i <= a@.len(),
            r@.len() == i,
            forall|k: int| 0 <= k < i ==> (#[trigger] r@[k])@ == a@[k]@,
        decreases a@.len() - i,
    {
        r.push(copy_row(&a[i]));
        i = i + 1;
    }
    proof {
        assert forall|i2: int| 0 <= i2 < a@.len() implies #[trigger] mat_view(r)[i2] == mat_view(
            *a,
        )[i2] by {
            assert(vec_view(r@[i2]) =~= vec_view(a@[i2]));
        }
        assert(mat_view(r) =~= mat_view(*a));
    }
    r
}

/// Column `j` of a matrix as a sequence.
pub open spec fn col_spec(s: Seq<Seq<Rat>>, j: int) -> Seq<Rat> {
    Seq::new(s.len(), |i: int| s[i][j])
}

/// Column `j` of a matrix as a fresh vector of scalars.
pub fn col_of(a: &Vec<Vec<Frac>>, j: usize) -> (r: Vec<Frac>)
    requires
        forall|i: int| 0 <= i < a@.len() ==> j < (#[trigger] a@[i])@.len(),
    ensures
        vec_view(r) == col_spec(mat_view(*a), j as int),
        r@.len() == a@.len(),
        forall|i: int| 0 <= i < a@.len() ==> #[trigger] r@[i] == a@[i]@[j as int],
{
    let mut r: Vec<Frac> = Vec::new();
    let mut i: usize = 0;
    while i < a.len()
        invariant
            i <= a@.len(),
            forall|k: int| 0 <= k < a@.len() ==> j < (#[trigger] a@[k])@.len(),
            r@.len() == i,
            forall|k: int| 0 <= k < i ==> #[trigger] r@[k] == a@[k]@[j as int],
        decreases a@.len() - i,
    {
        r.push(a[i][j]);
        i = i + 1;
    }
    proof {
        assert(vec_view(r) =~= col_spec(mat_view(*a), j as int));
    }
    r
}

/// The matrix of the last `n` columns of `a`, whose rows must all have one
/// length of at least `n`.
pub fn extract_last_n_cols(a: &Vec<Vec<Frac>>, n: usize) -> (r: Vec<Vec<Frac>>)
    requires
        forall|i: int| 0 <= i < a@.len() ==> (#[trigger] a@[i])@.len() == a@[0]@.len(),
        a@.len() > 0,
        n <= a@[0]@.len(),
    ensures
        mat_view(r).len() == mat_view(*a).len(),
        forall|i: int|
            0 <= i < mat_view(*a).len() ==> #[trigger] mat_view(r)[i] == mat_view(*a)[i].skip(
                mat_view(*a)[i].len() - n,
            ),
{
    let b = a[0].len() - n;
    let mut r: Vec<Vec<Frac>> = Vec::new();
    let mut i: usize = 0;
    while i < a.len()
        invariant
            i <= a@.len(),
            a@.len() > 0,
            forall|k: int| 0 <= k < a@.len() ==> (#[trigger] a@[k])@.len() == a@[0]@.len(),
            b + n == a@[0]@.len(),
            r@.len() == i,
            forall|k: int| 0 <= k < i ==> (#[trigger] r@[k])@ == a@[k]@.skip(b as int),
        decreases a@.len() - i,
    {
        let row = &a[i];
        let mut right: Vec<Frac> = Vec::new();
        let mut j: usize = b;
        while j < row.len()
            invariant
                0 <= i < a@.len(),
                row == &a@[i as int],
                b <= j <= row@.len(),
                b + n == row@.len(),
                right@ == row@.subrange(b as int, j as int),
            decreases row@.len() - j,
        {
            right.push(row[j]);
            proof {
                assert(right@ =~= row@.subrange(b as int, j as int + 1));
            }
            j = j + 1;
        }
        proof {
            assert(right@ =~= row@.skip(b as int));
        }
        r.push(right);
        i = i + 1;
    }
    proof {
        assert forall|i: int| 0 <= i < mat_view(*a).len() implies #[trigger] mat_view(r)[i]
            == mat_view(*a)[i].skip(mat_view(*a)[i].len() - n) by {
            assert(vec_view(r@[i]) =~= vec_view(a@[i]).skip(mat_view(*a)[i].len() - n));
        }
    }
    r
}

} // verus!
