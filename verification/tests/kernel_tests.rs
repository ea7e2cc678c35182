use numpar::error::MatError;
use numpar::frac::Frac;
use numpar::matrix_mult::{matmul, matrix_power, rust_matmul2, rust_matpow};
use numpar::matrix_ops::{rust_transpose, trace, transpose};
use numpar::my_util::generate_identity_matrix;
use numpar::vector_ops::{dot, dot_int, norm_sq, outer, rust_outer};
use rand::Rng;

fn fi(x: i64) -> Frac {
    Frac::from_int(x)
}

fn mat(rows: Vec<Vec<i64>>) -> Vec<Vec<Frac>> {
    rows.iter().map(|row| row.iter().map(|&e| fi(e)).collect()).collect()
}

fn vecf(v: Vec<i64>) -> Vec<Frac> {
    v.iter().map(|&e| fi(e)).collect()
}

fn mat_value_eq(a: &Vec<Vec<Frac>>, b: &Vec<Vec<Frac>>) -> bool {
    a.len() == b.len()
        && a.iter().zip(b.iter()).all(|(ra, rb)| {
            ra.len() == rb.len() && ra.iter().zip(rb.iter()).all(|(x, y)| x.eq_frac(y))
        })
}

fn seq_doti(xs: &[i64], ys: &[i64]) -> i64 {
    xs.iter().zip(ys.iter()).map(|(&x, &y)| x * y).sum()
}

#[test]
fn int_test() {
    const VEC_SIZE: usize = 10_000_000;
    // One rng handle and preallocated buffers keep the generation of the
    // ten million pairs well inside the harness's per-test time budget.
    let mut rng = rand::thread_rng();
    let mut xs = Vec::with_capacity(VEC_SIZE);
    let mut ys = Vec::with_capacity(VEC_SIZE);
    for _ in 1..=VEC_SIZE {
        xs.push(rng.gen_range(1..10_000));
        ys.push(rng.gen_range(1..10_000));
    }
    assert_eq!(seq_doti(&xs, &ys), dot_int(&xs, &ys).unwrap());
}

#[test]
fn dot_small_test() {
    assert_eq!(dot_int(&vec![1, 2, 3], &vec![4, 5, 6]), Some(32));
    let d = dot(&vecf(vec![1, 2, 3]), &vecf(vec![4, 5, 6])).unwrap();
    assert!(d.eq_frac(&fi(32)));
}

#[test]
fn dot_shape_test() {
    let r = dot(&vecf(vec![1, 2]), &vecf(vec![1]));
    assert_eq!(r, Err(MatError::ShapeViolation));
}

#[test]
fn dot_overflow_test() {
    let big = i64::MAX;
    let r = dot(&vec![Frac::from_int(big)], &vec![Frac::from_int(big)]);
    assert_eq!(r, Err(MatError::Overflow));
}

#[test]
fn norm_sq_test() {
    let n = norm_sq(&vecf(vec![3, 4])).unwrap();
    assert!(n.eq_frac(&fi(25)));
}

#[test]
fn outer_test() {
    let o = outer(&vecf(vec![1, 2]), &vecf(vec![3, 4])).unwrap();
    assert!(mat_value_eq(&o, &mat(vec![vec![3, 4], vec![6, 8]])));
    let o2 = rust_outer(&vecf(vec![1, 2]), &vecf(vec![3, 4])).unwrap();
    assert!(mat_value_eq(&o2, &mat(vec![vec![3, 4], vec![6, 8]])));
}

#[test]
fn trace_test() {
    let t = trace(&mat(vec![vec![1, 2], vec![3, 4]])).unwrap();
    assert!(t.eq_frac(&fi(5)));
    let empty: Vec<Vec<Frac>> = vec![];
    let t0 = trace(&empty).unwrap();
    assert!(t0.eq_frac(&fi(0)));
    let ragged = mat(vec![vec![1, 2], vec![3, 4, 5]]);
    assert_eq!(trace(&ragged), Err(MatError::ShapeViolation));
}

#[test]
fn trans_test() {
    let b = mat(vec![vec![1, 5, 3, 3, 0], vec![2, 3, 0, 0, 3], vec![7, 8, 9, 9, 10]]);
    let ans = mat(vec![
        vec![1, 2, 7],
        vec![5, 3, 8],
        vec![3, 0, 9],
        vec![3, 0, 9],
        vec![0, 3, 10],
    ]);
    assert_eq!(&ans, &rust_transpose(&b));
}

#[test]
fn transpose_involution_test() {
    let b = mat(vec![vec![1, 5, 3, 3, 0], vec![2, 3, 0, 0, 3], vec![7, 8, 9, 9, 10]]);
    let tt = rust_transpose(&rust_transpose(&b));
    assert_eq!(&b, &tt);
    let boundary = transpose(&b).unwrap();
    assert_eq!(&boundary, &rust_transpose(&b));
}

#[test]
fn mul_test() {
    let a = mat(vec![vec![5, 5, 5], vec![2, 4, 6], vec![1, 0, 0]]);
    let b = mat(vec![vec![7, 1, 7], vec![7, 2, 4], vec![7, 3, 1]]);
    let ans = mat(vec![vec![105, 30, 60], vec![84, 28, 36], vec![7, 1, 7]]);
    let c = rust_matmul2(&a, &b).unwrap();
    assert!(mat_value_eq(&ans, &c));
}

#[test]
fn matmul_shape_test() {
    let a = mat(vec![vec![1, 2, 3], vec![4, 5, 6]]);
    let b = mat(vec![vec![1, 2], vec![3, 4]]);
    assert_eq!(matmul(&a, &b), Err(MatError::ShapeViolation));
    let empty: Vec<Vec<Frac>> = vec![];
    assert_eq!(matmul(&empty, &b), Err(MatError::ShapeViolation));
}

#[test]
fn matmul_assoc_test() {
    let a = mat(vec![vec![1, 2], vec![3, 4]]);
    let b = mat(vec![vec![5, 6], vec![7, 8]]);
    let c = mat(vec![vec![2, 0], vec![1, 3]]);
    let ab_c = matmul(&matmul(&a, &b).unwrap(), &c).unwrap();
    let a_bc = matmul(&a, &matmul(&b, &c).unwrap()).unwrap();
    assert!(mat_value_eq(&ab_c, &a_bc));
}

#[test]
fn small_pow_test() {
    // Entries of this power reach 10^129, far beyond any machine rational:
    // exact arithmetic reports the overflow instead of rounding it away, so
    // this asserts the report where floating point merely printed a number.
    let a = mat(vec![vec![10, 0, 0], vec![0, 10, 0], vec![0, 0, 10]]);
    let res = rust_matpow(&a, 129);
    assert!(res.is_none());
}

#[test]
fn pow_zero_test() {
    let a = mat(vec![vec![1, 2], vec![3, 4]]);
    let p = matrix_power(&a, 0).unwrap();
    assert_eq!(&p, &generate_identity_matrix(2));
}

#[test]
fn pow_even_test() {
    let a = mat(vec![vec![1, 1], vec![0, 1]]);
    let p6 = matrix_power(&a, 6).unwrap();
    let p3 = matrix_power(&a, 3).unwrap();
    let sq = matmul(&p3, &p3).unwrap();
    assert!(mat_value_eq(&p6, &sq));
}

#[test]
fn pow_fork_join_test() {
    let a = mat(vec![vec![1, 1], vec![0, 1]]);
    let p = rust_matpow(&a, 9).unwrap();
    let ans = mat(vec![vec![1, 9], vec![0, 1]]);
    assert!(mat_value_eq(&p, &ans));
    assert_eq!(matrix_power(&a, 9).unwrap(), p);
}

#[test]
fn pow_shape_test() {
    let a = mat(vec![vec![1, 2, 3], vec![4, 5, 6]]);
    assert_eq!(matrix_power(&a, 2), Err(MatError::ShapeViolation));
}
