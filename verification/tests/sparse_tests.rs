use abnormal_lp::abnormal_fraction::AbnormalFraction;
use abnormal_lp::linear_programming_helpers::{resized_view, to_dense};
use abnormal_lp::linear_programming_sparse::{
    Diag, Error, Perm, ScatteredVec, SparseMat, SparseVec, TriangleMat,
};
use abnormal_lp::rational::Comparison;

fn frac(n: usize, d: usize) -> AbnormalFraction {
    AbnormalFraction::from_pair(n, d)
}

fn same_value(a: &AbnormalFraction, b: &AbnormalFraction) -> bool {
    a.partial_cmp(b) == Some(Comparison::Equal)
}

#[test]
fn mat_transpose() {
    let mut mat = SparseMat::new(2);
    mat.push(0, frac(11, 10));
    mat.push(1, frac(22, 10));
    mat.seal_column();
    mat.push(1, frac(33, 10));
    mat.seal_column();
    mat.push(0, frac(44, 10));
    mat.seal_column();

    let transp = mat.transpose();
    assert_eq!(transp.indptr(), &vec![0, 2, 4]);
    assert_eq!(transp.indices(), &vec![2, 0, 1, 0]);
    assert_eq!(
        transp.data(),
        &vec![frac(44, 10), frac(11, 10), frac(33, 10), frac(22, 10)]
    );
}

#[test]
fn mat_double_transpose_keeps_entries() {
    let mut mat = SparseMat::new(2);
    mat.push(0, frac(11, 10));
    mat.push(1, frac(22, 10));
    mat.seal_column();
    mat.push(1, frac(33, 10));
    mat.seal_column();
    mat.push(0, frac(44, 10));
    mat.seal_column();

    let back = mat.transpose().transpose();
    assert_eq!(back.rows(), mat.rows());
    assert_eq!(back.cols(), mat.cols());
    assert_eq!(back.nnz(), mat.nnz());
    for c in 0..mat.cols() {
        let mut expected: Vec<(usize, AbnormalFraction)> = mat
            .col_rows(c)
            .into_iter()
            .zip(mat.col_data(c).into_iter())
            .collect();
        let mut actual: Vec<(usize, AbnormalFraction)> = back
            .col_rows(c)
            .into_iter()
            .zip(back.col_data(c).into_iter())
            .collect();
        expected.sort_by_key(|p| p.0);
        actual.sort_by_key(|p| p.0);
        assert_eq!(expected.len(), actual.len());
        for (e, a) in expected.iter().zip(actual.iter()) {
            assert_eq!(e.0, a.0);
            assert!(same_value(&e.1, &a.1));
        }
    }
}

#[test]
fn scattered_set_then_clear() {
    let mut v = ScatteredVec::empty(5);
    v.set(&vec![(1, frac(1, 2)), (4, frac(1, 3))]);
    assert_eq!(v.indices(), &vec![1, 4]);
    let entries = v.iter();
    assert_eq!(entries.len(), 2);
    assert_eq!(entries[0].0, 1);
    assert!(same_value(&entries[1].1, &frac(1, 3)));
    assert!(same_value(v.get(1), &frac(1, 2)));
    assert!(same_value(v.get(4), &frac(1, 3)));
    assert!(v.get(0).is_zero());

    v.clear();
    assert!(v.indices().is_empty());
    for i in 0..5 {
        assert!(v.get(i).is_zero());
    }
}

#[test]
fn scattered_sq_norm_matches_entries() {
    let mut v = ScatteredVec::empty(4);
    v.set(&vec![(0, frac(1, 2)), (2, frac(1, 3))]);
    // (1/2)^2 + (1/3)^2 = 13/36
    assert!(same_value(&v.sq_norm(), &frac(13, 36)));
    v.clear();
    assert!(v.sq_norm().is_zero());
}

#[test]
fn scattered_get_mut_registers_once() {
    let mut v = ScatteredVec::empty(3);
    *v.get_mut(2) = frac(7, 5);
    *v.get_mut(2) = frac(9, 5);
    assert_eq!(v.indices(), &vec![2]);
    assert!(same_value(v.get(2), &frac(9, 5)));
    assert_eq!(v.len(), 3);
}

#[test]
fn scattered_clear_and_resize() {
    let mut v = ScatteredVec::empty(2);
    *v.get_mut(0) = frac(1, 1);
    v.clear_and_resize(4);
    assert_eq!(v.len(), 4);
    assert!(v.indices().is_empty());
    for i in 0..4 {
        assert!(v.get(i).is_zero());
    }
}

#[test]
fn scattered_to_sparse_vec() {
    let mut v = ScatteredVec::empty(6);
    v.set(&vec![(5, frac(2, 3)), (1, frac(4, 5))]);
    let mut s = SparseVec::new();
    v.to_sparse_vec(&mut s);
    let entries = s.iter();
    assert_eq!(entries.len(), 2);
    assert_eq!(entries[0].0, 5);
    assert!(same_value(&entries[0].1, &frac(2, 3)));
    assert_eq!(entries[1].0, 1);
    assert!(same_value(&entries[1].1, &frac(4, 5)));
}

#[test]
fn sparse_vec_sq_norm() {
    let mut s = SparseVec::new();
    s.push(3, frac(3, 1));
    s.push(0, frac(4, 1));
    // 9 + 16 = 25
    assert!(same_value(&s.sq_norm(), &frac(25, 1)));
    s.clear();
    assert!(s.sq_norm().is_zero());
    assert_eq!(s.len(), 0);
}

#[test]
fn sparse_mat_columns() {
    let mut mat = SparseMat::new(3);
    mat.append_col(&vec![(0, frac(1, 1)), (2, frac(2, 1))]);
    mat.append_col(&vec![(1, frac(3, 1))]);
    assert_eq!(mat.rows(), 3);
    assert_eq!(mat.cols(), 2);
    assert_eq!(mat.nnz(), 3);
    assert_eq!(mat.col_rows(0), vec![0, 2]);
    assert_eq!(mat.col_rows(1), vec![1]);
    assert!(same_value(&mat.col_data(0)[1], &frac(2, 1)));
    mat.clear_and_resize(2);
    assert_eq!(mat.cols(), 0);
    assert_eq!(mat.nnz(), 0);
}

#[test]
fn triangle_transpose_keeps_diag() {
    let mut nondiag = SparseMat::new(2);
    nondiag.push(1, frac(5, 1));
    nondiag.seal_column();
    nondiag.seal_column();
    let tri = TriangleMat { nondiag, diag: Diag::Explicit(vec![frac(1, 2), frac(1, 3)]) };
    let t = tri.transpose();
    match &t.diag {
        Diag::Explicit(d) => {
            assert!(same_value(&d[0], &frac(1, 2)));
            assert!(same_value(&d[1], &frac(1, 3)));
        },
        Diag::Unit => panic!("diagonal should stay explicit"),
    }
    assert_eq!(t.nondiag.col_rows(1), vec![0]);

    let unit = TriangleMat { nondiag: SparseMat::new(2), diag: Diag::Unit };
    assert!(matches!(unit.transpose().diag, Diag::Unit));
}

#[test]
fn triangle_to_dense_unit_diagonal() {
    // strictly lower triangular 2x2 with an implicit unit diagonal
    let mut nondiag = SparseMat::new(2);
    nondiag.push(1, frac(5, 1));
    nondiag.seal_column();
    nondiag.seal_column();
    let tri = TriangleMat { nondiag, diag: Diag::Unit };
    let dense = tri.to_dense();
    assert_eq!(dense.len(), 2);
    assert!(dense[0][0].is_one());
    assert!(dense[1][1].is_one());
    assert!(same_value(&dense[1][0], &frac(5, 1)));
    assert!(dense[0][1].is_zero());

    let mut nondiag2 = SparseMat::new(2);
    nondiag2.seal_column();
    nondiag2.push(0, frac(2, 1));
    nondiag2.seal_column();
    let tri2 = TriangleMat { nondiag: nondiag2, diag: Diag::Explicit(vec![frac(3, 1), frac(4, 1)]) };
    let dense2 = tri2.to_dense();
    assert!(same_value(&dense2[0][0], &frac(3, 1)));
    assert!(same_value(&dense2[1][1], &frac(4, 1)));
    assert!(same_value(&dense2[0][1], &frac(2, 1)));
    assert!(dense2[1][0].is_zero());
}

#[test]
fn perm_identity_round_trip() {
    let p = Perm::identity(4);
    assert_eq!(p.len(), 4);
    for i in 0..4 {
        assert_eq!(p.orig_to_new(i), i);
        assert_eq!(p.new_to_orig(i), i);
    }
}

#[test]
fn error_is_singular_matrix() {
    let e = Error::SingularMatrix;
    assert_eq!(e, Error::SingularMatrix);
}

#[test]
fn resized_view_truncates_sorted() {
    let mut s = SparseVec::new();
    s.push(1, frac(1, 1));
    s.push(3, frac(2, 1));
    s.push(7, frac(3, 1));
    let r = resized_view(&s, 4);
    let entries = r.iter();
    assert_eq!(entries.len(), 2);
    assert_eq!(entries[0].0, 1);
    assert_eq!(entries[1].0, 3);
    assert!(same_value(&entries[1].1, &frac(2, 1)));

    let all = resized_view(&s, 8);
    assert_eq!(all.iter().len(), 3);
    let none = resized_view(&s, 1);
    assert_eq!(none.iter().len(), 0);
}

#[test]
fn to_dense_scatters() {
    let mut s = SparseVec::new();
    s.push(0, frac(9, 2));
    s.push(2, frac(7, 3));
    let dense = to_dense(&s, 4);
    assert_eq!(dense.len(), 4);
    assert!(same_value(&dense[0], &frac(9, 2)));
    assert!(dense[1].is_zero());
    assert!(same_value(&dense[2], &frac(7, 3)));
    assert!(dense[3].is_zero());
}
