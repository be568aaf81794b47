use lattice::matrix::keygen::{add_noise, can_add_noise, can_generate_keys, generate_keys};
use lattice::matrix::{Matrix, Row};

fn rows(m: &Matrix) -> Vec<Vec<i64>> {
    let mut out = Vec::new();
    for i in 0..m.num_rows() {
        let r = m.index(i);
        let mut v = Vec::new();
        for j in 0..r.len() {
            v.push(*r.index(j));
        }
        out.push(v);
    }
    out
}

#[test]
fn add_noise_adds_small_errors_with_alternating_signs() {
    let mut m = Matrix::from_slice(&[0, 0, 0, 0, 0, 0, 0, 0], 8);
    assert!(can_add_noise(&m));
    add_noise(&mut m);
    assert_eq!(
        rows(&m),
        vec![vec![-2], vec![7], vec![-2], vec![2], vec![-2], vec![9], vec![-1], vec![9]]
    );
    let mut big = Matrix::from_slice(&vec![0; 100], 100);
    add_noise(&mut big);
    for (i, r) in rows(&big).iter().enumerate() {
        if i % 2 == 0 {
            assert!(-9 <= r[0] && r[0] <= 0);
        } else {
            assert!(0 <= r[0] && r[0] <= 9);
        }
    }
}

#[test]
fn add_noise_touches_only_first_column() {
    let mut m = Matrix::from_slice(&[10, 5, 10, 5], 2);
    add_noise(&mut m);
    assert_eq!(rows(&m), vec![vec![8, 5], vec![17, 5]]);
}

#[test]
fn can_add_noise_refuses() {
    let m = Matrix::from_slice(&[i64::MAX, i64::MAX], 2);
    assert!(!can_add_noise(&m));
    assert!(!can_add_noise(&Matrix::matrix_builder(1, 1)));
    let mut short = Matrix::matrix_builder(1, 1);
    short.push_row(Row::new(&[]));
    assert!(!can_add_noise(&short));
}

#[test]
fn generate_keys_small() {
    assert!(can_generate_keys(&[1, 2, 3], 5, 4, 3, 97));
    let e = generate_keys(&[1, 2, 3], 5, 4, 3, 97);
    assert_eq!(
        rows(e.get_matrix()),
        vec![vec![-35, -36, 69], vec![73, -9, -44], vec![13, 95, -48], vec![-32, 80, 95]]
    );
    assert_eq!(rows(e.get_result()), vec![vec![1], vec![-70], vec![57], vec![27]]);
    assert_eq!(e.get_modulus(), 97);
    assert_eq!(e.get_height(), 4);
    assert_eq!(e.get_width(), 3);
}

#[test]
fn generate_keys_program_parameters() {
    let key: Vec<i64> = "secret".bytes().map(|b| b as i64).collect();
    assert!(can_generate_keys(&key, 314159265, 100, key.len(), 2521));
    let e = generate_keys(&key, 314159265, 100, key.len(), 2521);
    let a = rows(e.get_matrix());
    let r = rows(e.get_result());
    assert_eq!(a.len(), 100);
    assert_eq!(a[0], vec![-1843, -275, -2176, 33, -1376, 1639]);
    assert_eq!(a[99], vec![-2184, -199, -2509, 979, -588, 249]);
    assert_eq!(r[0], vec![-1918]);
    assert_eq!(r[1], vec![1035]);
    assert_eq!(r[99], vec![-2414]);
}

#[test]
fn can_generate_keys_refuses() {
    assert!(!can_generate_keys(&[], 5, 4, 0, 97));
    assert!(!can_generate_keys(&[1, 2, 3], 5, 0, 3, 97));
    assert!(!can_generate_keys(&[1, 2, 3], 5, 4, 3, 0));
    assert!(!can_generate_keys(&[1, 2, 3], 5, 4, 2, 97));
    assert!(!can_generate_keys(&[1, 2, 3], 5, usize::MAX, 3, 97));
    assert!(!can_generate_keys(&[i64::MAX, 2, 3], 5, 4, 3, 97));
}

#[test]
fn generated_keys_are_made_with_the_key() {
    let key: Vec<i64> = "master".bytes().map(|b| b as i64).collect();
    for (seed, modulus) in [(314159265u64, 2521i64), (7, 97), (123456789, 10007)] {
        let e = generate_keys(&key, seed, 50, key.len(), modulus);
        let a = rows(e.get_matrix());
        let r = rows(e.get_result());
        for i in 0..50 {
            let dot: i64 = a[i].iter().zip(key.iter()).map(|(x, k)| x * k).sum();
            let err = (r[i][0] - dot).rem_euclid(modulus);
            assert!(err <= 9 || err >= modulus - 9);
        }
    }
}
