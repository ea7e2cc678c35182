use numpar::error::MatError;
use numpar::frac::Frac;
use numpar::linear_eqn_ops::{bwd_subs, fwd_elim, matrix_rank, rust_mat_rank, rust_solve, solve};
use numpar::matrix_mult::matmul;
use numpar::matrix_ops::{det, inv, rust_det, rust_inv};
use numpar::my_util::generate_identity_matrix;

fn fi(x: i64) -> Frac {
    Frac::from_int(x)
}

fn mat(rows: Vec<Vec<i64>>) -> Vec<Vec<Frac>> {
    rows.iter().map(|row| row.iter().map(|&e| fi(e)).collect()).collect()
}

fn vecf(v: Vec<i64>) -> Vec<Frac> {
    v.iter().map(|&e| fi(e)).collect()
}

fn to_f64(f: &Frac) -> f64 {
    f.numerator() as f64 / f.denominator() as f64
}

fn mat_value_eq(a: &Vec<Vec<Frac>>, b: &Vec<Vec<Frac>>) -> bool {
    a.len() == b.len()
        && a.iter().zip(b.iter()).all(|(ra, rb)| {
            ra.len() == rb.len() && ra.iter().zip(rb.iter()).all(|(x, y)| x.eq_frac(y))
        })
}

#[test]
fn solve_test() {
    let a = mat(vec![vec![1, 2, 2], vec![3, 2, 5], vec![7, 7, 1]]);
    let b = vecf(vec![1, 1, 1]);
    let ans = vec![-0.3333, 0.4444, 0.2222];
    let out: Vec<f64> = rust_solve(&a, &b)
        .unwrap()
        .iter()
        .map(|e| (to_f64(e) * 10000.).round() / 10000.)
        .collect();
    assert_eq!(&ans, &out);
}

#[test]
fn solve_shape_test() {
    let a = mat(vec![vec![1, 2], vec![3, 4]]);
    let b = vecf(vec![1, 2, 3]);
    assert_eq!(solve(&a, &b), Err(MatError::ShapeViolation));
    let ragged = mat(vec![vec![1, 2], vec![3, 4, 5]]);
    assert_eq!(solve(&ragged, &vecf(vec![1, 2])), Err(MatError::ShapeViolation));
}

#[test]
fn fwd_test() {
    let a = mat(vec![
        vec![7, 7, 5, 5, 7],
        vec![2, 3, 4, 5, 6],
        vec![2, 2, 3, 3, 4],
        vec![1, 2, 3, 4, 5],
    ]);
    let out: Vec<Vec<f64>> = fwd_elim(&a)
        .unwrap()
        .iter()
        .map(|row| row.iter().map(|e| to_f64(e).round()).collect::<Vec<f64>>())
        .collect();
    let ans: Vec<Vec<f64>> = vec![
        vec![7., 7., 5., 5., 7.],
        vec![0., 1., 2.57142857, 3.57142857, 4.],
        vec![0., 0., 1.57142857, 1.57142857, 2.],
        vec![0., 0., 0., 0., 0.36363636],
    ]
    .iter()
    .map(|row| row.iter().map(|&e| f64::round(e)).collect::<Vec<f64>>())
    .collect();
    assert_eq!(&ans, &out);
}

#[test]
fn bwd_test() {
    let a = fwd_elim(&mat(vec![vec![7, 7, 6], vec![6, 2, 2], vec![3, 3, 1]])).unwrap();
    let out: Vec<Vec<f64>> = bwd_subs(&a)
        .unwrap()
        .iter()
        .map(|row| row.iter().map(|e| to_f64(e).round()).collect::<Vec<f64>>())
        .collect();
    let ans: Vec<Vec<f64>> = vec![vec![7., 0., 0.], vec![0., -4., 0.], vec![0., 0., -1.5714]]
        .iter()
        .map(|row| row.iter().map(|&e| f64::round(e)).collect::<Vec<f64>>())
        .collect();
    assert_eq!(&ans, &out);
}

#[test]
fn rd_test() {
    const THRESHOLD: f64 = 1e-8;
    let a = mat(vec![vec![1, 3, 9], vec![6, 3, 8], vec![9, 9, 2]]);
    let res = to_f64(&rust_det(&a).unwrap());
    assert!((357. - res).abs() < THRESHOLD);
}

#[test]
fn mod_rd_test() {
    const THRESHOLD: f64 = 1e-8;
    let a = mat(vec![vec![1, 3, 9], vec![6, 3, 8], vec![9, 9, 2]]);
    let res = to_f64(&rust_det(&a).unwrap());
    assert!((357. - res).abs() < THRESHOLD);
}

#[test]
fn rd_test_beeg() {
    const THRESHOLD: f64 = 1e-8;
    let a = mat(vec![
        vec![-2, 3, -6, 4, 4],
        vec![2, 0, 1, -3, 2],
        vec![-2, 5, -5, -5, 5],
        vec![7, -8, 0, 0, 0],
        vec![-2, 3, 5, -8, 1],
    ]);
    let res = to_f64(&rust_det(&a).unwrap());
    assert!((2061. - res).abs() < THRESHOLD);
}

#[test]
fn mod_rd_test_beeg() {
    const THRESHOLD: f64 = 1e-8;
    let a = mat(vec![
        vec![-2, 3, -6, 4, 4],
        vec![2, 0, 1, -3, 2],
        vec![-2, 5, -5, -5, 5],
        vec![7, -8, 0, 0, 0],
        vec![-2, 3, 5, -8, 1],
    ]);
    let res = to_f64(&rust_det(&a).unwrap());
    assert!((2061. - res).abs() < THRESHOLD);
}

#[test]
fn mod_trans_test() {
    let b = mat(vec![vec![1, 5, 3, 3, 0], vec![2, 3, 0, 0, 3], vec![7, 8, 9, 9, 10]]);
    let ans = mat(vec![
        vec![1, 2, 7],
        vec![5, 3, 8],
        vec![3, 0, 9],
        vec![3, 0, 9],
        vec![0, 3, 10],
    ]);
    assert_eq!(&ans, &numpar::matrix_ops::rust_transpose(&b));
}

#[test]
fn det_shape_test() {
    let a = mat(vec![vec![1, 2, 3], vec![4, 5, 6]]);
    assert_eq!(det(&a), Err(MatError::ShapeViolation));
}

#[test]
fn inv_test() {
    let a = mat(vec![vec![7, 7, 6], vec![6, 2, 2], vec![3, 3, 1]]);
    let out: Vec<Vec<f64>> = rust_inv(&a)
        .unwrap()
        .iter()
        .map(|row| row.iter().map(|e| to_f64(e).round()).collect::<Vec<f64>>())
        .collect();
    let ans: Vec<Vec<f64>> = vec![
        vec![-0.0909, 0.25, 0.04545],
        vec![0., -0.25, 0.5],
        vec![0.272727, 0., -0.636363],
    ]
    .iter()
    .map(|row| row.iter().map(|&e| f64::round(e)).collect::<Vec<f64>>())
    .collect();
    assert_eq!(&ans, &out);
}

#[test]
fn inv_times_matrix_is_identity_test() {
    let a = mat(vec![vec![7, 7, 6], vec![6, 2, 2], vec![3, 3, 1]]);
    let ai = inv(&a).unwrap();
    let prod = matmul(&a, &ai).unwrap();
    assert!(mat_value_eq(&prod, &generate_identity_matrix(3)));
}

#[test]
fn rank_test() {
    let iden = generate_identity_matrix(3);
    assert_eq!(rust_mat_rank(&iden), Some(3));
    let d = mat(vec![vec![2, 0], vec![0, 3]]);
    assert_eq!(matrix_rank(&d), Ok(2));
    let nsq = mat(vec![vec![1, 2, 3], vec![4, 5, 6]]);
    assert_eq!(matrix_rank(&nsq), Err(MatError::ShapeViolation));
}

#[test]
fn solve_exact_check_test() {
    let a = mat(vec![vec![1, 2, 2], vec![3, 2, 5], vec![7, 7, 1]]);
    let b = vecf(vec![1, 1, 1]);
    let x = rust_solve(&a, &b).unwrap();
    for i in 0..3 {
        let mut acc = fi(0);
        for j in 0..3 {
            acc = acc.add(&a[i][j].mul(&x[j]).unwrap()).unwrap();
        }
        assert!(acc.eq_frac(&b[i]));
    }
}
