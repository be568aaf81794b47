use lattice::matrix::{Equation, Matrix, Row};

fn rows(m: &Matrix) -> Vec<Vec<i64>> {
    let mut out = Vec::new();
    for i in 0..m.num_rows() {
        let r = m.index(i);
        let mut v = Vec::new();
        for j in 0..r.len() {
            v.push(*r.index(j));
        }
        out.push(v);
    }
    out
}

#[test]
fn from_slice_cuts_rows() {
    let m = Matrix::from_slice(&[1, 2, 3, 4, 5, 6], 2);
    assert_eq!(rows(&m), vec![vec![1, 2, 3], vec![4, 5, 6]]);
    assert_eq!(m.get_matrix_height(), 2);
    assert_eq!(m.get_matrix_width(), 3);
    let col = Matrix::from_slice(&[7, 8, 9], 3);
    assert_eq!(rows(&col), vec![vec![7], vec![8], vec![9]]);
}

#[test]
fn builder_push_row_and_value() {
    let mut m = Matrix::matrix_builder(2, 2);
    assert_eq!(m.num_rows(), 0);
    m.push_row(Row::new(&[1, 2]));
    m.push_row(Row::new(&[3, 4]));
    assert_eq!(rows(&m), vec![vec![1, 2], vec![3, 4]]);
    let mut c = Matrix::matrix_builder(3, 1);
    c.push_value(5);
    c.push_value(-6);
    assert_eq!(rows(&c), vec![vec![5], vec![-6]]);
    assert_eq!(c.get_matrix_height(), 3);
}

#[test]
fn mul_computes_matrix_product() {
    let a = Matrix::from_slice(&[1, 2, 3, 4, 5, 6], 2);
    let b = Matrix::from_slice(&[7, 8, 9, 10, 11, 12], 3);
    let p = a.mul(&b);
    assert_eq!(rows(&p), vec![vec![58, 64], vec![139, 154]]);
    assert_eq!(p.get_matrix_height(), 2);
    assert_eq!(p.get_matrix_width(), 2);
}

#[test]
fn checked_mul_refuses_what_mul_cannot_do() {
    let a = Matrix::from_slice(&[1, 2, 3, 4, 5, 6], 2);
    let b = Matrix::from_slice(&[7, 8, 9, 10, 11, 12], 3);
    assert_eq!(rows(&a.checked_mul(&b).unwrap()), vec![vec![58, 64], vec![139, 154]]);
    assert!(a.checked_mul(&a).is_none());
    let big = Matrix::from_slice(&[i64::MAX, 2], 1);
    let col = Matrix::from_slice(&[2, 0], 2);
    assert!(big.checked_mul(&col).is_none());
    let col2 = Matrix::from_slice(&[1, 0], 2);
    assert_eq!(rows(&big.checked_mul(&col2).unwrap()), vec![vec![i64::MAX]]);
    let partial = Matrix::from_slice(&[i64::MAX, 1], 1);
    let ones = Matrix::from_slice(&[1, 1], 2);
    assert!(partial.checked_mul(&ones).is_none());
}

#[test]
fn add_and_add_assign() {
    let a = Matrix::from_slice(&[1, 2, 3, 4], 2);
    let b = Matrix::from_slice(&[10, 20, 30, 40], 2);
    assert_eq!(rows(&a.add(b)), vec![vec![11, 22], vec![33, 44]]);
    let mut c = Matrix::from_slice(&[1, 2, 3, 4], 2);
    c.add_assign(Matrix::from_slice(&[5, 5], 1));
    assert_eq!(rows(&c), vec![vec![6, 7], vec![3, 4]]);
}

#[test]
fn add_row_and_add_assign_row() {
    let a = Matrix::from_slice(&[1, 2, 3], 1);
    assert_eq!(rows(&a.add_row(Row::new(&[1, 1]))), vec![vec![2, 3]]);
    let mut b = Matrix::from_slice(&[1, 2, 3], 1);
    b.add_assign_row(&Row::new(&[1, 1]));
    assert_eq!(rows(&b), vec![vec![2, 3, 3]]);
}

#[test]
fn rem_and_can_rem() {
    let a = Matrix::from_slice(&[7, -7, 9, -9], 2);
    assert!(a.can_rem(4));
    assert_eq!(rows(&a.rem(4)), vec![vec![3, -3], vec![1, -1]]);
    assert!(!Matrix::from_slice(&[1], 1).can_rem(0));
    assert!(!Matrix::from_slice(&[i64::MIN], 1).can_rem(-1));
}

#[test]
fn map_applies_to_every_entry() {
    let mut a = Matrix::from_slice(&[1, 2, 3, 4], 2);
    a.map(|x: &i64| *x + 1);
    assert_eq!(rows(&a), vec![vec![2, 3], vec![4, 5]]);
}

#[test]
fn index_mut_changes_a_row() {
    let mut a = Matrix::from_slice(&[1, 2, 3, 4], 2);
    *a.index_mut(1).index_mut(0) = 30;
    assert_eq!(rows(&a), vec![vec![1, 2], vec![30, 4]]);
}

#[test]
fn from_row_makes_one_row() {
    let m = Matrix::from(Row::new(&[4, 5, 6]));
    assert_eq!(rows(&m), vec![vec![4, 5, 6]]);
    assert_eq!(m.get_matrix_height(), 1);
    assert_eq!(m.get_matrix_width(), 3);
}

#[test]
fn clone_keeps_rows() {
    let m = Matrix::from_slice(&[1, 2, 3, 4], 2);
    assert_eq!(rows(&m.clone()), rows(&m));
}

#[test]
fn matrix_text_forms() {
    let m = Matrix::from_slice(&[1, -2, 3, 4], 2);
    assert!(m.is_printable());
    assert_eq!(m.to_text(), b"1 -2 3 4".to_vec());
    assert_eq!(m.to_debug_text(), b"1 -2\n3 4".to_vec());
    let c = Matrix::from_slice(&[5, -6], 2);
    assert_eq!(c.to_debug_text(), b"5 -6 ".to_vec());
    assert!(!Matrix::matrix_builder(2, 2).is_printable());
}

#[test]
fn matrix_from_text_reads_back() {
    let m = Matrix::from_text("1 -2 3\t4", 2).unwrap();
    assert_eq!(rows(&m), vec![vec![1, -2], vec![3, 4]]);
    assert!(Matrix::from_text("1 2 3", 2).is_none());
    assert!(Matrix::from_text("1 x", 2).is_none());
    assert!(Matrix::from_text("", 1).is_none());
    assert!(Matrix::from_text("1 2", 0).is_none());
    let text = Matrix::from_slice(&[9, 8, -7, 6, 5, 4], 3).to_text();
    let back = Matrix::from_text(std::str::from_utf8(&text).unwrap(), 3).unwrap();
    assert_eq!(rows(&back), vec![vec![9, 8], vec![-7, 6], vec![5, 4]]);
}

#[test]
fn equation_accessors_and_text() {
    let a = Matrix::from_slice(&[-35, -36, 69, 73, -9, -44, 13, 95, -48, -32, 80, 95], 4);
    let r = Matrix::from_slice(&[1, -70, 57, 27], 4);
    let e = Equation::from_matrices(a, r, 97);
    assert_eq!(e.get_height(), 4);
    assert_eq!(e.get_width(), 3);
    assert_eq!(e.get_modulus(), 97);
    let text = e.to_text();
    assert_eq!(
        text,
        b"97 4\n-35 -36 69 73 -9 -44 13 95 -48 -32 80 95\n1 -70 57 27\n".to_vec()
    );
    assert_eq!(
        e.to_debug_text(),
        b"-35 -36 69\n73 -9 -44\n13 95 -48\n-32 80 95\n1 -70 57 27 \n97\n".to_vec()
    );
}

#[test]
fn equation_from_text_reads_back() {
    let e = Equation::from_text("97 4", "-35 -36 69 73 -9 -44 13 95 -48 -32 80 95", "1 -70 57 27")
        .unwrap();
    assert_eq!(e.get_height(), 4);
    assert_eq!(e.get_width(), 3);
    assert_eq!(e.get_modulus(), 97);
    assert_eq!(rows(e.get_result()), vec![vec![1], vec![-70], vec![57], vec![27]]);
    assert_eq!(rows(e.get_matrix())[3], vec![-32, 80, 95]);
    assert!(Equation::from_text("97", "1", "1").is_none());
    assert!(Equation::from_text("97 2", "1 2 3", "1 2").is_none());
    assert!(Equation::from_text("97 -1", "1", "1").is_none());
}

#[test]
fn built_matrix_is_from_slice() {
    let parts = [vec![1, -2, 3], vec![4, 5, -6], vec![7, 8, 9], vec![0, 0, -1]];
    let mut built = Matrix::matrix_builder(4, 3);
    let mut flat = Vec::new();
    for p in parts.iter() {
        built.push_row(Row::new(p));
        flat.extend_from_slice(p);
    }
    let cut = Matrix::from_slice(&flat, 4);
    assert_eq!(rows(&built), rows(&cut));
    assert_eq!(built.get_matrix_height(), cut.get_matrix_height());
    assert_eq!(built.get_matrix_width(), cut.get_matrix_width());
}
