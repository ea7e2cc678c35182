use numpar::frac::Frac;
use numpar::my_util::{
    augment, extract_last_n_cols, generate_identity_matrix, generate_identity_matrix_row_major,
    is_proper_matrix, is_square_matrix, row_major_to_matrix, split_last_col,
};

fn fi(x: i64) -> Frac {
    Frac::from_int(x)
}

fn mat(rows: Vec<Vec<i64>>) -> Vec<Vec<Frac>> {
    rows.iter().map(|row| row.iter().map(|&e| fi(e)).collect()).collect()
}

#[test]
fn iden_generate_test() {
    let ans = mat(vec![
        vec![1, 0, 0, 0, 0],
        vec![0, 1, 0, 0, 0],
        vec![0, 0, 1, 0, 0],
        vec![0, 0, 0, 1, 0],
        vec![0, 0, 0, 0, 1],
    ]);
    let res = generate_identity_matrix(5);
    assert_eq!(ans, res);
}

#[test]
fn square_test() {
    let sq = mat(vec![
        vec![1, 0, 0, 0, 0],
        vec![0, 1, 0, 0, 0],
        vec![0, 0, 1, 0, 0],
        vec![0, 0, 0, 1, 0],
        vec![0, 0, 0, 0, 1],
    ]);
    let nsq = mat(vec![vec![7, 7, 7], vec![5, 5, 5]]);
    assert!(is_square_matrix(&sq));
    assert!(!is_square_matrix(&nsq));
}

#[test]
fn proper_matrix_test() {
    let proper = mat(vec![vec![1, 2, 3, 4], vec![5, 5, 2, 2]]);
    let improper = mat(vec![vec![1, 5, 5], vec![5, 5, 1, 1]]);
    assert!(is_proper_matrix(&proper));
    assert!(!is_proper_matrix(&improper));
}

#[test]
fn sl_test() {
    let a = mat(vec![vec![1, 2, 3, 4], vec![2, 3, 4, 5], vec![3, 4, 5, 6]]);
    let (a, b) = split_last_col(&a);
    let ans_a = mat(vec![vec![1, 2, 3], vec![2, 3, 4], vec![3, 4, 5]]);
    let ans_b: Vec<Frac> = vec![fi(4), fi(5), fi(6)];
    assert_eq!(&a, &ans_a);
    assert_eq!(&b, &ans_b);
}

#[test]
fn extract_test() {
    let a = mat(vec![
        vec![1, 0, 0, 1, 0, 0],
        vec![0, 1, 0, 0, 1, 0],
        vec![0, 0, 1, 0, 0, 1],
    ]);
    let out = extract_last_n_cols(&a, 3);
    assert_eq!(&generate_identity_matrix(3), &out);
}

#[test]
fn aug_test() {
    let a = generate_identity_matrix(3);
    let b = generate_identity_matrix(3);
    let ans = mat(vec![
        vec![1, 0, 0, 1, 0, 0],
        vec![0, 1, 0, 0, 1, 0],
        vec![0, 0, 1, 0, 0, 1],
    ]);
    assert_eq!(&ans, &augment(&a, &b));
}

#[test]
fn row_major_round_trip_test() {
    let flat = generate_identity_matrix_row_major(4);
    assert_eq!(flat.len(), 16);
    let back = row_major_to_matrix(&flat, 4);
    assert_eq!(back, generate_identity_matrix(4));
}

#[test]
fn frac_reduction_test() {
    let a = Frac::new(6, 4).unwrap();
    let b = Frac::new(3, 2).unwrap();
    assert!(a.eq_frac(&b));
    assert_eq!(a.numerator(), 3);
    assert_eq!(a.denominator(), 2);
    let c = Frac::new(-10, -4).unwrap();
    assert_eq!(c.numerator(), 5);
    assert_eq!(c.denominator(), 2);
    let z = Frac::new(0, 7).unwrap();
    assert!(z.is_zero());
    assert!(z.eq_frac(&fi(0)));
}

#[test]
fn error_message_test() {
    assert_eq!(
        numpar::error::MatError::ShapeViolation.message(),
        "malformed parameter"
    );
}
