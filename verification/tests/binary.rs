use std::sync::Arc;

use axtensor::binary::{broadcast_binary, broadcast_shape, can_broadcast, matmul_typed};
use axtensor::device::Device;
use axtensor::shape::{DType, Shape};
use axtensor::tensor::{Tensor, TensorId};

#[test]
fn broadcast_shapes() {
    assert_eq!(broadcast_shape(&[2, 3], &[2, 3]), vec![2, 3]);
    assert_eq!(broadcast_shape(&[2, 3], &[3]), vec![2, 3]);
    assert_eq!(broadcast_shape(&[4, 1, 3], &[5, 1]), vec![4, 5, 3]);
    assert_eq!(broadcast_shape(&[], &[2, 2]), vec![2, 2]);
}

#[test]
fn same_shape_addition_is_elementwise() {
    let a = [1, 2, 3, 4, 5, 6];
    let b = [10, 20, 30, 40, 50, 60];
    let (dims, out) =
        broadcast_binary(&a, &[2, 3], &[3, 1], 0, &b, &[2, 3], &[3, 1], 0, &|x: i32, y: i32| x + y);
    assert_eq!(dims, vec![2, 3]);
    assert_eq!(out, vec![11, 22, 33, 44, 55, 66]);
}

#[test]
fn bias_is_stretched_over_rows() {
    let x = [1, 2, 3, 4, 5, 6];
    let bias = [100, 200, 300];
    let (dims, out) =
        broadcast_binary(&x, &[2, 3], &[3, 1], 0, &bias, &[3], &[1], 0, &|p: i32, q: i32| p + q);
    assert_eq!(dims, vec![2, 3]);
    assert_eq!(out, vec![101, 202, 303, 104, 205, 306]);
}

#[test]
fn scalar_gradient_is_stretched_over_every_element() {
    let ones = [1.0f32; 4];
    let g = [0.5f32];
    let (dims, out) =
        broadcast_binary(&ones, &[2, 2], &[2, 1], 0, &g, &[], &[], 0, &|p: f32, q: f32| p * q);
    assert_eq!(dims, vec![2, 2]);
    assert_eq!(out, vec![0.5f32; 4]);
}

#[test]
fn size_one_axes_broadcast_both_ways() {
    // a: column [1, 2] (shape [2, 1]); b: row [10, 20, 30] (shape [1, 3]).
    let (dims, out) = broadcast_binary(
        &[1, 2],
        &[2, 1],
        &[1, 1],
        0,
        &[10, 20, 30],
        &[1, 3],
        &[3, 1],
        0,
        &|p: i32, q: i32| p * q,
    );
    assert_eq!(dims, vec![2, 3]);
    assert_eq!(out, vec![10, 20, 30, 20, 40, 60]);
}

#[test]
fn matrix_product() {
    // [[1, 2], [3, 4]] x [[5, 6], [7, 8]]
    let a = [1, 2, 3, 4];
    let b = [5, 6, 7, 8];
    let out = matmul_typed(
        &a,
        &[2, 2],
        &[2, 1],
        0,
        &b,
        &[2, 2],
        &[2, 1],
        0,
        0,
        &|x: i32, y: i32| x * y,
        &|x: i32, y: i32| x + y,
    );
    assert_eq!(out, vec![vec![19, 22], vec![43, 50]]);
}

#[test]
fn matrix_product_with_a_transposed_operand() {
    // a = [[1, 2, 3]] (1x3); b = the transpose of [[1, 0, 2], [0, 1, 1]] (3x2).
    let bt = [1, 0, 2, 0, 1, 1];
    let out = matmul_typed(
        &[1, 2, 3],
        &[1, 3],
        &[3, 1],
        0,
        &bt,
        &[3, 2],
        &[1, 3],
        0,
        0,
        &|x: i32, y: i32| x * y,
        &|x: i32, y: i32| x + y,
    );
    assert_eq!(out, vec![vec![7, 5]]);
    let empty_inner = matmul_typed(
        &[0i32; 0],
        &[2, 0],
        &[0, 1],
        0,
        &[0i32; 0],
        &[0, 3],
        &[3, 1],
        0,
        9,
        &|x: i32, y: i32| x * y,
        &|x: i32, y: i32| x + y,
    );
    assert_eq!(empty_inner, vec![vec![9, 9, 9], vec![9, 9, 9]]);
}

#[test]
fn transpose_view() {
    let m: Tensor<(), ()> =
        Tensor::from_storage(TensorId(1), DType::F32, Shape::new(vec![2, 3]), Arc::new(()), Device::Cpu);
    let t = m.t();
    assert_eq!(t.shape.dims(), &[3, 2]);
    assert_eq!(t.strides.steps(), &[1, 3]);
    assert_eq!(t.id, m.id);
}

#[test]
fn broadcast_compatibility() {
    assert!(can_broadcast(&[2, 3], &[3]));
    assert!(can_broadcast(&[4, 1, 3], &[5, 1]));
    assert!(can_broadcast(&[], &[7, 2]));
    assert!(!can_broadcast(&[2, 3], &[2]));
    assert!(!can_broadcast(&[2, 16, 4], &[32, 4]));
}

#[test]
fn sum_gradient_scales_ones_by_the_scalar() {
    // The backward rule of a [2, 2] sum with scalar gradient 3.0: ones times
    // the scalar, broadcast.
    let ones = [1.0f32; 4];
    let (dims, grad) = broadcast_binary(&ones, &[2, 2], &[2, 1], 0, &[3.0f32], &[], &[], 0, &|x: f32, y: f32| x * y);
    assert_eq!(dims, vec![2, 2]);
    assert_eq!(grad, vec![3.0; 4]);
}
