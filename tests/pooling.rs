use tensornet::error::TensorError;
use tensornet::pooling::{Pooling, PoolingType};
use tensornet::tensor::Tensor;

#[test]
fn pooled_shape_counts_window_positions() {
    let window: Tensor<f64> = Tensor::new(vec![2, 2]);
    let pool = Pooling::new(PoolingType::Max, window, 2);
    let input: Tensor<f64> = Tensor::new(vec![5, 4]);
    let out = pool.apply(input).unwrap();
    assert_eq!(out.shape(), &vec![2, 2]);
    assert_eq!(out.return_vector(), vec![0.0; 4]);
}

#[test]
fn stride_one_slides_over_every_position() {
    let window: Tensor<f64> = Tensor::new(vec![3]);
    let pool = Pooling::new(PoolingType::Average, window, 1);
    let out = pool.apply(Tensor::new(vec![7])).unwrap();
    assert_eq!(out.shape(), &vec![5]);
}

#[test]
fn window_larger_than_input_fails() {
    let window: Tensor<f64> = Tensor::new(vec![3, 3]);
    let pool = Pooling::new(PoolingType::Max, window, 1);
    let r = pool.apply(Tensor::new(vec![2, 5]));
    assert_eq!(
        r.unwrap_err(),
        TensorError::ShapeMismatch { left: vec![2, 5], right: vec![3, 3] }
    );
}

#[test]
fn window_rank_must_match() {
    let window: Tensor<f64> = Tensor::new(vec![2]);
    let pool = Pooling::new(PoolingType::Max, window, 1);
    assert!(pool.apply(Tensor::new(vec![4, 4])).is_err());
}
