use tensornet::error::TensorError;
use tensornet::tensor::Tensor;

fn t(shape: Vec<usize>, data: Vec<f64>) -> Tensor<f64> {
    Tensor::from(shape, data).unwrap()
}

#[test]
fn two_by_two_product() {
    let a = t(vec![2, 2], vec![1.0, 2.0, 3.0, 4.0]);
    let b = t(vec![2, 2], vec![5.0, 6.0, 7.0, 8.0]);
    let c = a.multiply(&b).unwrap();
    assert_eq!(c.shape(), &vec![2, 2]);
    assert_eq!(c.return_vector(), vec![19.0, 22.0, 43.0, 50.0]);
}

#[test]
fn fast_path_agrees_with_general_product() {
    let a = t(vec![2, 2], vec![0.1, -2.5, 3.25, 1e-3]);
    let b = t(vec![2, 2], vec![7.0, 0.3, -1.0, 2.2]);
    let fast = a.multiply(&b).unwrap().return_vector();
    let (x, y) = (a.return_vector(), b.return_vector());
    let mut textbook = Vec::new();
    for i in 0..2 {
        for j in 0..2 {
            textbook.push(x[i * 2] * y[j] + x[i * 2 + 1] * y[2 + j]);
        }
    }
    assert_eq!(fast, textbook);
}

#[test]
fn rectangular_product() {
    let a = t(vec![2, 3], vec![1.0, 2.0, 3.0, 4.0, 5.0, 6.0]);
    let b = t(vec![3, 2], vec![7.0, 8.0, 9.0, 10.0, 11.0, 12.0]);
    let c = a.multiply(&b).unwrap();
    assert_eq!(c.shape(), &vec![2, 2]);
    assert_eq!(c.return_vector(), vec![58.0, 64.0, 139.0, 154.0]);
}

#[test]
fn larger_square_product_is_textbook() {
    let a = t(vec![3, 3], (1..10).map(|x| x as f64).collect());
    let id = t(vec![3, 3], vec![1.0, 0.0, 0.0, 0.0, 1.0, 0.0, 0.0, 0.0, 1.0]);
    assert_eq!(a.multiply(&id).unwrap().return_vector(), a.return_vector());
    let sq = a.multiply(&a).unwrap();
    assert_eq!(
        sq.return_vector(),
        vec![30.0, 36.0, 42.0, 66.0, 81.0, 96.0, 102.0, 126.0, 150.0]
    );
}

#[test]
fn column_times_row_is_outer() {
    let col = t(vec![3, 1], vec![1.0, 2.0, 3.0]);
    let row = t(vec![1, 2], vec![10.0, 20.0]);
    let c = col.multiply(&row).unwrap();
    assert_eq!(c.shape(), &vec![3, 2]);
    assert_eq!(c.return_vector(), vec![10.0, 20.0, 20.0, 40.0, 30.0, 60.0]);
}

#[test]
fn higher_rank_gives_outer_product() {
    let a = t(vec![1, 2], vec![2.0, 3.0]);
    let b = t(vec![2, 1, 1], vec![5.0, 7.0]);
    let c = a.multiply(&b).unwrap();
    assert_eq!(c.shape(), &vec![1, 2, 2, 1, 1]);
    assert_eq!(c.return_vector(), vec![10.0, 14.0, 15.0, 21.0]);
    assert_eq!(c.get(vec![0, 1, 0, 0, 0]), Ok(15.0));
}

#[test]
fn non_conformable_matrices_give_outer_product() {
    let a = t(vec![1, 2], vec![1.0, 2.0]);
    let b = t(vec![1, 2], vec![3.0, 4.0]);
    let c = a.multiply(&b).unwrap();
    assert_eq!(c.shape(), &vec![1, 2, 1, 2]);
    assert_eq!(c.return_vector(), vec![3.0, 4.0, 6.0, 8.0]);
    let d = t(vec![2, 3], vec![1.0; 6]);
    let e = d.multiply(&d).unwrap();
    assert_eq!(e.shape(), &vec![2, 3, 2, 3]);
    assert_eq!(e.size(), 36);
}

#[test]
fn vector_operand_fails() {
    let m = t(vec![2, 2], vec![1.0; 4]);
    let v = t(vec![2], vec![1.0, 1.0]);
    assert!(matches!(m.multiply(&v), Err(TensorError::ShapeMismatch { .. })));
    assert!(matches!(v.multiply(&m), Err(TensorError::ShapeMismatch { .. })));
    assert!(matches!(v.multiply(&v), Err(TensorError::ShapeMismatch { .. })));
}

#[test]
fn integer_elements_multiply_exactly() {
    let a: Tensor<i64> = Tensor::from(vec![2, 2], vec![1, 2, 3, 4]).unwrap();
    let b: Tensor<i64> = Tensor::from(vec![2, 2], vec![5, 6, 7, 8]).unwrap();
    assert_eq!(a.multiply(&b).unwrap().return_vector(), vec![19, 22, 43, 50]);
}
