use tensornet::error::TensorError;
use tensornet::tensor::Tensor;

fn t(shape: Vec<usize>, data: Vec<f64>) -> Tensor<f64> {
    Tensor::from(shape, data).unwrap()
}

#[test]
fn new_is_zero_filled() {
    let z: Tensor<f64> = Tensor::new(vec![2, 3]);
    assert_eq!(z.shape(), &vec![2, 3]);
    assert_eq!(z.return_vector(), vec![0.0; 6]);
}

#[test]
fn from_rejects_wrong_length() {
    let r = Tensor::from(vec![2, 2], vec![1.0, 2.0, 3.0]);
    assert_eq!(
        r.unwrap_err(),
        TensorError::ShapeMismatch { left: vec![2, 2], right: vec![3] }
    );
}

#[test]
fn from_rejects_zero_dimension() {
    let r: Result<Tensor<f64>, TensorError> = Tensor::from(vec![2, 0], vec![]);
    assert!(matches!(r, Err(TensorError::ShapeMismatch { .. })));
}

#[test]
fn empty_shape_holds_nothing() {
    let e: Tensor<f64> = Tensor::from(vec![], vec![]).unwrap();
    assert_eq!(e.size(), 0);
    assert_eq!(e.get(vec![]), Err(TensorError::IndexOutOfBounds));
}

#[test]
fn get_is_row_major() {
    let a = t(vec![2, 3], vec![0.0, 1.0, 2.0, 3.0, 4.0, 5.0]);
    assert_eq!(a.get(vec![0, 2]), Ok(2.0));
    assert_eq!(a.get(vec![1, 0]), Ok(3.0));
    assert_eq!(a.get(vec![1, 2]), Ok(5.0));
    let b = t(vec![2, 2, 2], (0..8).map(|x| x as f64).collect());
    assert_eq!(b.get(vec![1, 0, 1]), Ok(5.0));
}

#[test]
fn get_at_dimension_size_is_out_of_bounds() {
    let a = t(vec![2, 2], vec![1.0, 2.0, 3.0, 4.0]);
    assert_eq!(a.get(vec![2, 0]), Err(TensorError::IndexOutOfBounds));
    assert_eq!(a.get(vec![0, 2]), Err(TensorError::IndexOutOfBounds));
    assert_eq!(a.get(vec![0]), Err(TensorError::IndexOutOfBounds));
    assert_eq!(a.get(vec![0, 0, 0]), Err(TensorError::IndexOutOfBounds));
}

#[test]
fn set_then_get() {
    let mut a: Tensor<f64> = Tensor::new(vec![3, 2]);
    assert_eq!(a.set(vec![2, 1], 7.5), Ok(()));
    assert_eq!(a.get(vec![2, 1]), Ok(7.5));
    assert_eq!(a.return_vector(), vec![0.0, 0.0, 0.0, 0.0, 0.0, 7.5]);
    assert_eq!(a.set(vec![3, 0], 1.0), Err(TensorError::IndexOutOfBounds));
    assert_eq!(a.return_vector(), vec![0.0, 0.0, 0.0, 0.0, 0.0, 7.5]);
}

#[test]
fn increase_dim_appends_unit_dimensions() {
    let mut a = t(vec![3], vec![1.0, 2.0, 3.0]);
    a.increase_dim(2);
    assert_eq!(a.shape(), &vec![3, 1, 1]);
    assert_eq!(a.return_vector(), vec![1.0, 2.0, 3.0]);
    assert_eq!(a.get(vec![2, 0, 0]), Ok(3.0));
}

#[test]
fn map_applies_to_every_element() {
    let a = t(vec![2, 2], vec![1.0, -2.0, 3.0, -4.0]);
    let m = a.map(|x: f64| x * x + 1.0);
    assert_eq!(m.shape(), &vec![2, 2]);
    assert_eq!(m.return_vector(), vec![2.0, 5.0, 10.0, 17.0]);
    assert_eq!(a.return_vector(), vec![1.0, -2.0, 3.0, -4.0]);
}

#[test]
fn multiply_scalar_scales() {
    let a = t(vec![3], vec![1.0, 2.0, -3.0]);
    assert_eq!(a.multiply_scalar(0.5).return_vector(), vec![0.5, 1.0, -1.5]);
}

#[test]
fn dot_is_element_wise() {
    let a = t(vec![2, 2], vec![1.0, 2.0, 3.0, 4.0]);
    let b = t(vec![2, 2], vec![5.0, 6.0, 7.0, 8.0]);
    assert_eq!(a.dot(&b).unwrap().return_vector(), vec![5.0, 12.0, 21.0, 32.0]);
    let c = t(vec![4], vec![1.0, 1.0, 1.0, 1.0]);
    assert_eq!(
        a.dot(&c).unwrap_err(),
        TensorError::ShapeMismatch { left: vec![2, 2], right: vec![4] }
    );
}

#[test]
fn add_equal_shapes() {
    let mut a = t(vec![2, 2], vec![1.0, 2.0, 3.0, 4.0]);
    let b = t(vec![2, 2], vec![10.0, 20.0, 30.0, 40.0]);
    assert_eq!(a.add(&b), Ok(()));
    assert_eq!(a.return_vector(), vec![11.0, 22.0, 33.0, 44.0]);
    assert_eq!(a.substract(&b), Ok(()));
    assert_eq!(a.return_vector(), vec![1.0, 2.0, 3.0, 4.0]);
}

#[test]
fn add_broadcasts_a_vector_over_rows() {
    let mut a = t(vec![2, 3], vec![1.0, 2.0, 3.0, 4.0, 5.0, 6.0]);
    let before = a.clone();
    let bias = t(vec![2], vec![10.0, 100.0]);
    assert_eq!(a.add(&bias), Ok(()));
    for i in 0..2 {
        for j in 0..3 {
            let expected = before.get(vec![i, j]).unwrap() + bias.get(vec![i]).unwrap();
            assert_eq!(a.get(vec![i, j]), Ok(expected));
        }
    }
    assert_eq!(a.return_vector(), vec![11.0, 12.0, 13.0, 104.0, 105.0, 106.0]);
}

#[test]
fn substract_broadcasts_a_vector_over_rows() {
    let mut a = t(vec![2, 2], vec![1.0, 2.0, 3.0, 4.0]);
    let bias = t(vec![2], vec![1.0, 2.0]);
    assert_eq!(a.substract(&bias), Ok(()));
    assert_eq!(a.return_vector(), vec![0.0, 1.0, 1.0, 2.0]);
}

#[test]
fn add_rejects_other_shapes() {
    let mut a = t(vec![2, 3], vec![1.0; 6]);
    let wrong = t(vec![3], vec![1.0, 1.0, 1.0]);
    assert_eq!(
        a.add(&wrong),
        Err(TensorError::ShapeMismatch { left: vec![2, 3], right: vec![3] })
    );
    assert_eq!(a.return_vector(), vec![1.0; 6]);
    let other = t(vec![3, 2], vec![1.0; 6]);
    assert!(a.substract(&other).is_err());
}

#[test]
fn transpose_swaps_rows_and_columns() {
    let a = t(vec![2, 3], vec![1.0, 2.0, 3.0, 4.0, 5.0, 6.0]);
    let b = a.transpose().unwrap();
    assert_eq!(b.shape(), &vec![3, 2]);
    assert_eq!(b.return_vector(), vec![1.0, 4.0, 2.0, 5.0, 3.0, 6.0]);
    for i in 0..2 {
        for j in 0..3 {
            assert_eq!(b.get(vec![j, i]), a.get(vec![i, j]));
        }
    }
}

#[test]
fn transpose_twice_gives_back_the_tensor() {
    let a = t(vec![3, 4], (0..12).map(|x| x as f64 * 1.5).collect());
    let back = a.transpose().unwrap().transpose().unwrap();
    assert_eq!(back.shape(), a.shape());
    assert_eq!(back.return_vector(), a.return_vector());
    let col = t(vec![3, 1], vec![1.0, 2.0, 3.0]);
    let back = col.transpose().unwrap().transpose().unwrap();
    assert_eq!(back.return_vector(), col.return_vector());
}

#[test]
fn transpose_needs_two_dimensions() {
    let a = t(vec![2, 2, 2], vec![0.0; 8]);
    assert!(matches!(a.transpose(), Err(TensorError::ShapeMismatch { .. })));
}
