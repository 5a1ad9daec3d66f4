use ray_tracer_challenge::matrix::{build_matrix, determinant, identity_4x4, Matrix};
use ray_tracer_challenge::tuple::Tuple;

const ONE: f64 = 4294967296.0;

fn fx(v: f64) -> i64 {
    (v * ONE).round() as i64
}

fn matrix(rows: &[&[f64]]) -> Matrix {
    Matrix { data: rows.iter().map(|r| r.iter().map(|v| fx(*v)).collect()).collect() }
}

fn tuple(x: f64, y: f64, z: f64, w: f64) -> Tuple {
    Tuple { x: fx(x), y: fx(y), z: fx(z), w: fx(w) }
}

fn to_real(v: i64) -> f64 {
    v as f64 / ONE
}

fn close(a: &Matrix, b: &Matrix, eps: f64) -> bool {
    a.data.len() == b.data.len()
        && a.data.iter().zip(b.data.iter()).all(|(ra, rb)| {
            ra.len() == rb.len()
                && ra.iter().zip(rb.iter()).all(|(p, q)| (to_real(*p) - to_real(*q)).abs() <= eps)
        })
}

fn eps() -> f64 {
    f32::EPSILON as f64
}

#[test]
fn test_matrix_multiplied_by_scalar() {
    let matrix_a = matrix(&[&[1.0, 2.0], &[3.0, 4.0]]);
    let expected = matrix(&[&[10.0, 20.0], &[30.0, 40.0]]);

    assert_eq!(matrix_a.scale(fx(10.0)), expected);
}

fn check_matrix_multiplied_by_tuple() {
    let matrix_a = matrix(&[
        &[1.0, 2.0, 3.0, 4.0],
        &[2.0, 4.0, 4.0, 2.0],
        &[8.0, 6.0, 4.0, 1.0],
        &[0.0, 0.0, 0.0, 1.0],
    ]);
    let b = tuple(1.0, 2.0, 3.0, 1.0);

    assert_eq!(matrix_a.multiply_tuple(&b), tuple(18.0, 24.0, 33.0, 1.0));
}

#[test]
fn test_matrix_multiplied_by_tuple() {
    check_matrix_multiplied_by_tuple();
}

#[test]
fn matrix_test_matrix_multiplied_by_tuple() {
    check_matrix_multiplied_by_tuple();
}

fn check_multiplying_two_matrices() {
    let matrix_a = matrix(&[
        &[1.0, 2.0, 3.0, 4.0],
        &[5.0, 6.0, 7.0, 8.0],
        &[9.0, 8.0, 7.0, 6.0],
        &[5.0, 4.0, 3.0, 2.0],
    ]);
    let matrix_b = matrix(&[
        &[-2.0, 1.0, 2.0, 3.0],
        &[3.0, 2.0, 1.0, -1.0],
        &[4.0, 3.0, 6.0, 5.0],
        &[1.0, 2.0, 7.0, 8.0],
    ]);

    let expected = matrix(&[
        &[20.0, 22.0, 50.0, 48.0],
        &[44.0, 54.0, 114.0, 108.0],
        &[40.0, 58.0, 110.0, 102.0],
        &[16.0, 26.0, 46.0, 42.0],
    ]);
    assert_eq!(matrix_a.multiply(&matrix_b), expected);
}

#[test]
fn test_multiplying_two_matrices() {
    check_multiplying_two_matrices();
}

#[test]
fn matrix_test_multiplying_two_matrices() {
    check_multiplying_two_matrices();
}

fn check_multiplying_by_identity_matrix() {
    let matrix_a = matrix(&[
        &[0.0, 1.0, 2.0, 4.0],
        &[1.0, 2.0, 4.0, 8.0],
        &[2.0, 4.0, 8.0, 16.0],
        &[4.0, 8.0, 16.0, 32.0],
    ]);
    let matrix_i = identity_4x4();
    assert_eq!(matrix_a.multiply(&matrix_i), matrix_a);
}

#[test]
fn test_multiplying_by_identity_matrix() {
    check_multiplying_by_identity_matrix();
}

#[test]
fn matrix_test_multiplying_by_identity_matrix() {
    check_multiplying_by_identity_matrix();
}

fn check_matrix_transpose() {
    let m = matrix(&[
        &[0.0, 9.0, 3.0, 0.0],
        &[9.0, 8.0, 0.0, 0.0],
        &[1.0, 8.0, 5.0, 0.0],
        &[0.0, 0.0, 5.0, 0.0],
    ]);

    let expected_m_transpose = matrix(&[
        &[0.0, 9.0, 1.0, 0.0],
        &[9.0, 8.0, 8.0, 0.0],
        &[3.0, 0.0, 5.0, 5.0],
        &[0.0, 0.0, 0.0, 0.0],
    ]);
    assert_eq!(m.transpose(), expected_m_transpose);
}

#[test]
fn test_matrix_transpose() {
    check_matrix_transpose();
}

#[test]
fn matrix_test_matrix_transpose() {
    check_matrix_transpose();
}

fn check_transposing_identity_is_identity() {
    let matrix_i = identity_4x4();
    let transposed = matrix_i.transpose();
    assert_eq!(transposed, matrix_i);
}

#[test]
fn test_transposing_identity_is_identity() {
    check_transposing_identity_is_identity();
}

#[test]
fn matrix_test_transposing_identity_is_identity() {
    check_transposing_identity_is_identity();
}

fn check_submatrix_of_3x3() {
    let matrix_a = matrix(&[&[1.0, 5.0, 0.0], &[-3.0, 2.0, 7.0], &[0.0, 6.0, -3.0]]);

    let expected_submatrix = matrix(&[&[-3.0, 2.0], &[0.0, 6.0]]);
    assert_eq!(matrix_a.submatrix(0, 2), expected_submatrix);
}

#[test]
fn test_submatrix_of_3x3() {
    check_submatrix_of_3x3();
}

#[test]
fn matrix_test_submatrix_of_3x3() {
    check_submatrix_of_3x3();
}

fn check_submatrix_of_4x4() {
    let matrix_a = matrix(&[
        &[-6.0, 1.0, 1.0, 6.0],
        &[-8.0, 5.0, 8.0, 6.0],
        &[-1.0, 0.0, 8.0, 2.0],
        &[-7.0, 1.0, -1.0, 1.0],
    ]);

    let expected_submatrix = matrix(&[&[-6.0, 1.0, 6.0], &[-8.0, 8.0, 6.0], &[-7.0, -1.0, 1.0]]);
    assert_eq!(matrix_a.submatrix(2, 1), expected_submatrix);
}

#[test]
fn test_submatrix_of_4x4() {
    check_submatrix_of_4x4();
}

#[test]
fn matrix_test_submatrix_of_4x4() {
    check_submatrix_of_4x4();
}

fn check_minor_of_3x3_matrix() {
    let matrix_a = matrix(&[&[3.0, 5.0, 0.0], &[2.0, -1.0, -7.0], &[6.0, -1.0, 5.0]]);
    assert_eq!(matrix_a.minor(1, 0), fx(25.0));
}

#[test]
fn test_minor_of_3x3_matrix() {
    check_minor_of_3x3_matrix();
}

#[test]
fn matrix_test_minor_of_3x3_matrix() {
    check_minor_of_3x3_matrix();
}

fn check_cofactor_of_3x3_matrix() {
    let matrix_a = matrix(&[&[3.0, 5.0, 0.0], &[2.0, -1.0, -7.0], &[6.0, -1.0, 5.0]]);

    assert_eq!(matrix_a.cofactor(0, 0), fx(-12.0));
    assert_eq!(matrix_a.cofactor(1, 0), fx(-25.0));
}

#[test]
fn test_cofactor_of_3x3_matrix() {
    check_cofactor_of_3x3_matrix();
}

#[test]
fn matrix_test_cofactor_of_3x3_matrix() {
    check_cofactor_of_3x3_matrix();
}

fn check_determinant_of_3x3_matrix() {
    let matrix_a = matrix(&[&[1.0, 2.0, 6.0], &[-5.0, 8.0, -4.0], &[2.0, 6.0, 4.0]]);

    assert_eq!(matrix_a.cofactor(0, 0), fx(56.0));
    assert_eq!(matrix_a.cofactor(0, 1), fx(12.0));
    assert_eq!(matrix_a.cofactor(0, 2), fx(-46.0));
    assert_eq!(matrix_a.determinant(), fx(-196.0));
}

#[test]
fn test_determinant_of_3x3_matrix() {
    check_determinant_of_3x3_matrix();
}

#[test]
fn matrix_test_determinant_of_3x3_matrix() {
    check_determinant_of_3x3_matrix();
}

fn check_determinant_of_4x4_matrix() {
    let matrix_a = matrix(&[
        &[-2.0, -8.0, 3.0, 5.0],
        &[-3.0, 1.0, 7.0, 3.0],
        &[1.0, 2.0, -9.0, 6.0],
        &[-6.0, 7.0, 7.0, -9.0],
    ]);

    assert_eq!(matrix_a.cofactor(0, 0), fx(690.0));
    assert_eq!(matrix_a.cofactor(0, 1), fx(447.0));
    assert_eq!(matrix_a.cofactor(0, 2), fx(210.0));
    assert_eq!(matrix_a.cofactor(0, 3), fx(51.0));
    assert_eq!(matrix_a.determinant(), fx(-4071.0));
}

#[test]
fn test_determinant_of_4x4_matrix() {
    check_determinant_of_4x4_matrix();
}

#[test]
fn matrix_test_determinant_of_4x4_matrix() {
    check_determinant_of_4x4_matrix();
}

fn check_non_0_determinant_matrix_is_invertible() {
    let matrix_a = matrix(&[
        &[6.0, 4.0, 4.0, 4.0],
        &[5.0, 5.0, 7.0, 6.0],
        &[4.0, -9.0, 3.0, -7.0],
        &[9.0, 1.0, 7.0, -6.0],
    ]);

    assert_eq!(matrix_a.determinant(), fx(-2120.0));
    assert!(matrix_a.invertible());
}

#[test]
fn test_non_0_determinant_matrix_is_invertible() {
    check_non_0_determinant_matrix_is_invertible();
}

#[test]
fn matrix_test_non_0_determinant_matrix_is_invertible() {
    check_non_0_determinant_matrix_is_invertible();
}

fn check_0_determinant_matrix_is_invertible() {
    let matrix_a = matrix(&[
        &[-4.0, 2.0, -2.0, -3.0],
        &[9.0, 6.0, 2.0, 6.0],
        &[0.0, -5.0, 1.0, -5.0],
        &[0.0, 0.0, 0.0, 0.0],
    ]);

    assert_eq!(matrix_a.determinant(), 0);
    assert!(!matrix_a.invertible());
}

#[test]
fn test_0_determinant_matrix_is_invertible() {
    check_0_determinant_matrix_is_invertible();
}

#[test]
fn matrix_test_0_determinant_matrix_is_invertible() {
    check_0_determinant_matrix_is_invertible();
}

fn check_matrix_inversion_1() {
    let matrix_a = matrix(&[
        &[-5.0, 2.0, 6.0, -8.0],
        &[1.0, -5.0, 1.0, 8.0],
        &[7.0, 7.0, -6.0, -7.0],
        &[1.0, -3.0, 7.0, 4.0],
    ]);

    let expected_determinant = 532.0;
    let expected_inverse = matrix(&[
        &[116.0, 240.0, 128.0, -24.0],
        &[-430.0, -775.0, -236.0, 277.0],
        &[-42.0, -119.0, -28.0, 105.0],
        &[-278.0, -433.0, -160.0, 163.0],
    ])
    .scale(fx(1.0 / expected_determinant));

    assert!(close(&matrix_a.inverse(), &expected_inverse, eps()));
}

#[test]
fn test_matrix_inversion_1() {
    check_matrix_inversion_1();
}

#[test]
fn matrix_test_matrix_inversion_1() {
    check_matrix_inversion_1();
}

fn check_matrix_inversion_2() {
    let matrix_a = matrix(&[
        &[8.0, -5.0, 9.0, 2.0],
        &[7.0, 5.0, 6.0, 1.0],
        &[-6.0, 0.0, 9.0, 6.0],
        &[-3.0, 0.0, -9.0, -4.0],
    ]);

    let expected_determinant = -585.0;
    let expected_inverse = matrix(&[
        &[90.0, 90.0, 165.0, 315.0],
        &[45.0, -72.0, -15.0, -18.0],
        &[-210.0, -210.0, -255.0, -540.0],
        &[405.0, 405.0, 450.0, 1125.0],
    ])
    .scale(fx(1.0 / expected_determinant));

    assert!(close(&matrix_a.inverse(), &expected_inverse, eps()));
}

#[test]
fn test_matrix_inversion_2() {
    check_matrix_inversion_2();
}

#[test]
fn matrix_test_matrix_inversion_2() {
    check_matrix_inversion_2();
}

fn check_matrix_inversion_3() {
    let matrix_a = matrix(&[
        &[9.0, 3.0, 0.0, 9.0],
        &[-5.0, -2.0, -6.0, -3.0],
        &[-4.0, 9.0, 6.0, 4.0],
        &[-7.0, 6.0, 6.0, 2.0],
    ]);

    let expected_determinant = 1620.0;

    let expected_inverse = matrix(&[
        &[-66.0, -126.0, 234.0, -360.0],
        &[-126.0, 54.0, 594.0, -540.0],
        &[-47.0, -237.0, -177.0, 210.0],
        &[288.0, 108.0, -432.0, 540.0],
    ])
    .scale(fx(1.0 / expected_determinant));

    assert!(close(&matrix_a.inverse(), &expected_inverse, eps()));
}

#[test]
fn test_matrix_inversion_3() {
    check_matrix_inversion_3();
}

#[test]
fn matrix_test_matrix_inversion_3() {
    check_matrix_inversion_3();
}

fn check_invert_inverts_multiplication() {
    let matrix_a = matrix(&[
        &[3.0, -9.0, 7.0, 3.0],
        &[3.0, -8.0, 2.0, -9.0],
        &[-4.0, 4.0, 4.0, 1.0],
        &[-6.0, 5.0, -1.0, 1.0],
    ]);
    let matrix_b = matrix(&[
        &[8.0, 2.0, 2.0, 2.0],
        &[3.0, -1.0, 7.0, 0.0],
        &[7.0, 0.0, 5.0, 4.0],
        &[6.0, -2.0, 0.0, 5.0],
    ]);

    let matrix_c = matrix_a.multiply(&matrix_b);
    let matrix_c_times_b_inverse = matrix_c.multiply(&matrix_b.inverse());

    // a higher tolerance, because the products add rounding
    assert!(close(&matrix_c_times_b_inverse, &matrix_a, 10.0 * eps()));
}

#[test]
fn test_invert_inverts_multiplication() {
    check_invert_inverts_multiplication();
}

#[test]
fn matrix_test_invert_inverts_multiplication() {
    check_invert_inverts_multiplication();
}

#[test]
fn test_determinant_2x2() {
    let m = matrix(&[&[1.0, 5.0], &[-3.0, 2.0]]);
    assert_eq!(m.determinant(), fx(17.0));
}

#[test]
fn test_determinant() {
    assert_eq!(determinant(fx(1.0), fx(5.0), fx(-3.0), fx(2.0)), fx(17.0));
}

#[test]
fn matrix_build_and_identity() {
    let z = build_matrix(3);
    assert_eq!(z.data, vec![vec![0; 3]; 3]);
    assert_eq!(z.size(), 3);
    assert_eq!(Matrix::new(2).data, vec![vec![0; 2]; 2]);
    let i = identity_4x4();
    assert_eq!(i.determinant(), fx(1.0));
    let t = tuple(1.5, -2.0, 3.25, 1.0);
    assert_eq!(i.multiply_tuple(&t), t);
}

#[test]
fn matrix_fractional_products_round_down() {
    // 0.5 * 2^-32 rounds down to 0; -0.5 * 2^-32 rounds down to -2^-32
    let m = Matrix { data: vec![vec![1, 0], vec![0, -1]] };
    let half = m.scale(fx(0.5));
    assert_eq!(half.data, vec![vec![0, 0], vec![0, -1]]);
}

#[test]
fn matrix_single_entry_determinant_is_zero() {
    let m = matrix(&[&[7.0]]);
    assert_eq!(m.determinant(), 0);
    assert!(!m.invertible());
}

#[test]
fn matrix_checked_operations() {
    let a = matrix(&[
        &[-5.0, 2.0, 6.0, -8.0],
        &[1.0, -5.0, 1.0, 8.0],
        &[7.0, 7.0, -6.0, -7.0],
        &[1.0, -3.0, 7.0, 4.0],
    ]);
    assert_eq!(a.try_inverse(), Some(a.inverse()));
    assert_eq!(a.try_determinant(), Some(fx(532.0)));
    let singular = matrix(&[
        &[-4.0, 2.0, -2.0, -3.0],
        &[9.0, 6.0, 2.0, 6.0],
        &[0.0, -5.0, 1.0, -5.0],
        &[0.0, 0.0, 0.0, 0.0],
    ]);
    assert_eq!(singular.try_inverse(), None);
    let small = matrix(&[&[1.0, 2.0], &[3.0, 4.0]]);
    assert_eq!(small.try_multiply_tuple(&tuple(1.0, 1.0, 1.0, 1.0)), None);
    assert_eq!(small.try_multiply(&small), None);
    let ragged = Matrix { data: vec![vec![0, 0], vec![0]] };
    assert!(!ragged.is_square_matrix());
    assert_eq!(ragged.try_inverse(), None);
    let i = identity_4x4();
    let t = tuple(1.0, 2.0, 3.0, 1.0);
    assert_eq!(i.try_multiply_tuple(&t), Some(t));
    assert_eq!(i.try_multiply(&a), Some(a.clone()));
    let huge = Matrix {
        data: vec![
            vec![i64::MAX, 0, 0, 0],
            vec![0, i64::MAX, 0, 0],
            vec![0, 0, i64::MAX, 0],
            vec![0, 0, 0, i64::MAX],
        ],
    };
    assert_eq!(huge.try_determinant(), None);
    assert_eq!(huge.try_multiply(&huge), None);
    assert_eq!(huge.try_multiply_tuple(&tuple(2.0, 0.0, 0.0, 0.0)), None);
}

#[test]
fn inverse_undoes_product_within_the_stated_bound() {
    let a = matrix(&[
        &[3.0, -9.0, 7.0, 3.0],
        &[3.0, -8.0, 2.0, -9.0],
        &[-4.0, 4.0, 4.0, 1.0],
        &[-6.0, 5.0, -1.0, 1.0],
    ]);
    // whole-number entries: the determinant is exact
    let whole = matrix(&[
        &[8.0, 2.0, 2.0, 2.0],
        &[3.0, -1.0, 7.0, 0.0],
        &[7.0, 0.0, 5.0, 4.0],
        &[6.0, -2.0, 0.0, 5.0],
    ]);
    assert_eq!(whole.determinant(), fx(-378.0));
    let ab = a.multiply(&whole);
    let back = ab.multiply(&whole.inverse());
    let one = ONE as i128;
    for i in 0..4 {
        let bound = 4 * one + (0..4).map(|k| (ab.data[i][k] as i128).abs()).sum::<i128>();
        for j in 0..4 {
            let off = (back.data[i][j] as i128 - a.data[i][j] as i128).abs();
            assert!(one * off <= bound, "{} {} {}", i, j, off);
        }
    }
}

fn exact_det3(m: &[[i128; 3]; 3]) -> i128 {
    m[0][0] * (m[1][1] * m[2][2] - m[1][2] * m[2][1]) - m[0][1] * (m[1][0] * m[2][2] - m[1][2] * m[2][0])
        + m[0][2] * (m[1][0] * m[2][1] - m[1][1] * m[2][0])
}

fn exact_cofactor(b: &Matrix, r: usize, c: usize) -> i128 {
    let mut s = [[0i128; 3]; 3];
    for (i, row) in (0..4).filter(|x| *x != r).enumerate() {
        for (j, col) in (0..4).filter(|x| *x != c).enumerate() {
            s[i][j] = b.data[row][col] as i128;
        }
    }
    let d = exact_det3(&s);
    if (r + c) % 2 == 0 {
        d
    } else {
        -d
    }
}

#[test]
fn inverse_undoes_product_of_fractional_matrices_within_the_stated_bound() {
    let a = matrix(&[
        &[0.25, -0.125, 0.0625, 0.2],
        &[0.1, 0.2, -0.15, 0.05],
        &[-0.2, 0.05, 0.1, 0.125],
        &[0.0, 0.15, 0.2, -0.1],
    ]);
    let b = matrix(&[
        &[0.25, 0.1, -0.05, 0.2],
        &[0.03, -0.2, 0.15, 0.0],
        &[0.12, 0.01, 0.2, -0.1],
        &[0.05, -0.07, 0.0, 0.22],
    ]);
    let ab = a.multiply(&b);
    let inv = b.inverse();
    let back = ab.multiply(&inv);
    let one = ONE;
    let d = b.determinant() as f64;
    let exact_det: i128 = (0..4).map(|k| b.data[0][k] as i128 * exact_cofactor(&b, 0, k)).sum();
    let det_error = ((b.determinant() as i128) << 96) - exact_det;
    // the rounding of the cofactors and of the determinant stays within its bounds
    let cofactor_error = |r: usize, c: usize| ((b.cofactor(r, c) as i128) << 64) - exact_cofactor(&b, r, c);
    for r in 0..4 {
        for c in 0..4 {
            let first: i128 = (0..4).filter(|x| *x != c).map(|x| (b.data[if r == 0 { 1 } else { 0 }][x] as i128).abs()).sum();
            assert!(cofactor_error(r, c).abs() <= (1i128 << 32) * first + 3 * (1i128 << 64));
        }
    }
    let det_bound: i128 = (0..4).map(|k| (b.data[0][k] as i128).abs() * cofactor_error(0, k).abs()).sum::<i128>()
        + 4 * (1i128 << 96);
    assert!(det_error.abs() <= det_bound);
    for i in 0..4 {
        for j in 0..4 {
            let mut slack = (a.data[i][j] as f64).abs() * (det_error as f64).abs();
            for k in 0..4 {
                let s: i128 = (0..4).map(|m| a.data[i][m] as i128 * b.data[m][k] as i128).sum();
                let c = b.cofactor(j, k);
                let cofactor_error = ((c as i128) << 64) - exact_cofactor(&b, j, k);
                slack += (s as f64).abs() * (cofactor_error as f64).abs();
                slack += 4.0 * one * one * one * (c as f64).abs();
            }
            let rows: f64 = (0..4).map(|k| (ab.data[i][k] as f64).abs()).sum();
            let off = (back.data[i][j] as f64 - a.data[i][j] as f64).abs();
            let lhs = one * one * one * d.abs() * off;
            let rhs = one * one * d.abs() * (4.0 * one + rows) + slack;
            assert!(lhs <= rhs * (1.0 + 1e-12), "{} {}", i, j);
        }
    }
}
