use std::sync::Arc;

use axtensor::device::Device;
use axtensor::ops::{AddOp, ContiguousOp, FusedLinearOp, GetSliceOp, MatMulOp, ReluOp, SumOp};
use axtensor::shape::{DType, Shape};
use axtensor::tensor::{Tensor, TensorId};

type T = Tensor<(), ()>;

fn tensor(id: u64, dims: Vec<usize>) -> T {
    Tensor::from_storage(TensorId(id), DType::F32, Shape::new(dims), Arc::new(()), Device::Cpu)
}

/// Drops the leading axis and records the call in the id.
fn sum_leading(t: &T) -> T {
    tensor(t.id.0 * 10 + 1, t.shape.dims()[1..].to_vec())
}

/// A product whose id names its operands (transposes add 100).
fn matmul(a: &T, b: &T) -> T {
    let tag = |t: &T| if t.strides.steps() == [1, t.shape.dims()[0] as isize] { t.id.0 + 100 } else { t.id.0 };
    tensor(tag(a) * 1000 + tag(b), vec![a.shape.dims()[0], b.shape.dims()[1]])
}

fn plus(a: &T, b: &T) -> T {
    tensor(a.id.0 * 1000 + b.id.0, a.shape.dims().to_vec())
}

fn id(g: &Option<T>) -> u64 {
    g.as_ref().unwrap().id.0
}

#[test]
fn add_gradients_drop_broadcast_axes() {
    let op = AddOp { a_shape: Shape::new(vec![2, 3, 4]), b_shape: Shape::new(vec![4]) };
    let g = op.backward_with(&tensor(7, vec![2, 3, 4]), &sum_leading);
    assert_eq!(id(&g[0]), 7);
    // Two leading axes summed away for the rank-1 operand.
    assert_eq!(id(&g[1]), 711);
    assert_eq!(g[1].as_ref().unwrap().shape.dims(), &[4]);
}

#[test]
fn contiguous_passes_the_gradient() {
    let g = ContiguousOp.backward_with(&tensor(9, vec![3]));
    assert_eq!(id(&g[0]), 9);
}

#[test]
fn matmul_gradients() {
    let op = MatMulOp { a: tensor(1, vec![2, 3]), b: tensor(2, vec![3, 4]) };
    let g = op.backward_with(&tensor(5, vec![2, 4]), &matmul);
    // dA = dY Bᵀ, dB = Aᵀ dY.
    assert_eq!(id(&g[0]), 5 * 1000 + 102);
    assert_eq!(id(&g[1]), 101 * 1000 + 5);
    assert_eq!(g[0].as_ref().unwrap().shape.dims(), &[2, 3]);
    assert_eq!(g[1].as_ref().unwrap().shape.dims(), &[3, 4]);
}

#[test]
fn fused_linear_gradients() {
    let op = FusedLinearOp { x: tensor(1, vec![2, 3]), w: tensor(2, vec![3, 4]), bias: tensor(3, vec![4]) };
    let relu_grad = |g: &T, pre: &T| tensor(g.id.0 * 1_000_000 + pre.id.0, g.shape.dims().to_vec());
    let g = op.backward_with(&tensor(5, vec![2, 4]), &matmul, &plus, &relu_grad, &sum_leading);
    // pre = x W + b = 1002 * 1000 + 3; dZ = relu_grad(dY, pre).
    let dz = 5 * 1_000_000 + 1002 * 1000 + 3;
    assert_eq!(id(&g[0]), dz * 1000 + 102);
    assert_eq!(id(&g[1]), 101 * 1000 + dz);
    assert_eq!(id(&g[2]), dz * 10 + 1);
}

#[test]
fn relu_and_sum_gradients() {
    let relu = ReluOp { input: tensor(4, vec![3]) };
    let g = relu.backward_with(&tensor(6, vec![3]), &plus);
    assert_eq!(id(&g[0]), 6004);
    let sum = SumOp { input_shape: Shape::new(vec![2, 2]), dtype: DType::F32 };
    let ones = |_: DType, s: &Shape| tensor(8, s.dims().to_vec());
    let times = |a: &T, b: &T| tensor(a.id.0 * 1000 + b.id.0, a.shape.dims().to_vec());
    let g = sum.backward_with(&tensor(6, Vec::new()), &ones, &times);
    assert_eq!(id(&g[0]), 8006);
    assert_eq!(g[0].as_ref().unwrap().shape.dims(), &[2, 2]);
}

#[test]
fn operation_names() {
    let fl = FusedLinearOp { x: tensor(1, vec![1, 1]), w: tensor(2, vec![1, 1]), bias: tensor(3, vec![1]) };
    assert_eq!(fl.name(), "FusedLinear");
    assert_eq!(SumOp { input_shape: Shape::new(vec![2]), dtype: DType::F32 }.name(), "Sum");
    assert_eq!(ContiguousOp.name(), "Contiguous");
}

#[test]
fn slice_gradient_fills_its_place() {
    let op = GetSliceOp { batch_idx: 1, parent_shape: Shape::new(vec![3, 1, 2]) };
    let (dims, values) = op.backward_values(&[5, 6], 0);
    assert_eq!(dims, vec![3, 1, 2]);
    assert_eq!(values, vec![0, 0, 5, 6, 0, 0]);
}
