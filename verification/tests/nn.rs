use std::sync::Arc;

use axtensor::device::Device;
use axtensor::nn::{encoding_table, Linear, PositionalEncoding};
use axtensor::ops::{AddOp, FusedLinearOp};
use axtensor::shape::{DType, Shape, Strides};
use axtensor::tensor::{Tensor, TensorId};

struct Rec(&'static str);

type T = Tensor<(), Rec>;

fn tensor(id: u64, dims: Vec<usize>, dtype: DType, device: Device) -> T {
    Tensor::from_storage(TensorId(id), dtype, Shape::new(dims), Arc::new(()), device)
}

fn layer(weight_dtype: DType, device: Device) -> Linear<(), Rec> {
    Linear {
        weight: tensor(1, vec![4, 3], weight_dtype, device),
        bias: tensor(2, vec![3], DType::F32, device),
    }
}

fn upcast(t: &T) -> T {
    Tensor::from_storage(TensorId(t.id.0 + 200), DType::F32, t.shape.clone(), Arc::new(()), t.device)
}


fn move_storage(_t: &T, _d: Device) -> Arc<()> {
    Arc::new(())
}

fn fused(x: &T, w: &T, _b: &T) -> T {
    let rows = x.shape.dims()[0];
    let cols = w.shape.dims()[1];
    Tensor::from_storage(TensorId(70), DType::F32, Shape::new(vec![rows, cols]), Arc::new(()), x.device)
}

fn fused_op(r: FusedLinearOp<(), Rec>) -> Arc<Rec> {
    assert_eq!(r.w.id, TensorId(1));
    Arc::new(Rec("fused"))
}

fn matmul(a: &T, b: &T) -> T {
    Tensor::from_storage(TensorId(a.id.0 * 1000 + b.id.0), DType::F32, Shape::new(vec![a.shape.dims()[0], b.shape.dims()[1]]), Arc::new(()), a.device)
}

fn plus(a: &T, b: &T) -> T {
    Tensor::from_storage(TensorId(a.id.0 * 1000 + b.id.0), DType::F32, a.shape.clone(), Arc::new(()), a.device)
}

#[test]
fn forward_on_cpu_is_matmul_then_add() {
    let l = layer(DType::F32, Device::Cpu);
    let x = tensor(3, vec![5, 4], DType::F32, Device::Cpu);
    let y = l.forward(&x, &upcast, &move_storage, &fused, &fused_op, &matmul, &plus).unwrap();
    // plus(matmul(x, W), b): ids 3 and 1, then 3001 and 2.
    assert_eq!(y.id, TensorId(3001 * 1000 + 2));
    assert_eq!(y.shape.dims(), &[5, 3]);
    assert!(y.node.is_none());
}

#[test]
fn forward_upcasts_bf16_parameters() {
    let l = layer(DType::BF16, Device::Cpu);
    let x = tensor(3, vec![5, 4], DType::F32, Device::Cpu);
    let y = l.forward(&x, &upcast, &move_storage, &fused, &fused_op, &matmul, &plus).unwrap();
    // The weight (id 1) is upcast to id 201; the f32 bias is used as it is.
    assert_eq!(y.id, TensorId(3201 * 1000 + 2));
}

#[test]
fn forward_moves_the_input_to_the_weights_device() {
    let l = layer(DType::F32, Device::Gpu);
    let x = tensor(3, vec![2, 5, 4], DType::F32, Device::Cpu);
    let y = l.forward(&x, &upcast, &move_storage, &fused, &fused_op, &matmul, &plus).unwrap();
    assert_eq!(y.id, TensorId(70));
    assert_eq!(y.shape.dims(), &[2, 5, 3]);
    assert_eq!(y.strides.steps(), &[15, 3, 1]);
    assert!(y.device.is_gpu());
    // No operand requires gradients: nothing is recorded.
    assert!(y.node.is_none());
}

#[test]
fn forward_records_the_fused_node() {
    let mut l = layer(DType::F32, Device::Gpu);
    l.weight = l.weight.requires_grad_(true);
    let x = tensor(3, vec![2, 5, 4], DType::F32, Device::Gpu);
    let y = l.forward(&x, &upcast, &move_storage, &fused, &fused_op, &matmul, &plus).unwrap();
    assert_eq!(y.shape.dims(), &[2, 5, 3]);
    assert!(y.requires_grad);
    let node = y.node.as_ref().unwrap();
    assert_eq!(node.op.0, "fused");
    let ids: Vec<u64> = node.parents.iter().map(|t| t.id.0).collect();
    assert_eq!(ids, vec![3, 1, 2]);
    // The recorded input is the flattened one.
    assert_eq!(node.parents[0].shape.dims(), &[10, 4]);
}

#[test]
fn forward_keeps_matrix_inputs_as_they_are() {
    let l = layer(DType::F32, Device::Gpu);
    let x = tensor(3, vec![10, 4], DType::F32, Device::Gpu);
    let y = l.forward(&x, &upcast, &move_storage, &fused, &fused_op, &matmul, &plus).unwrap();
    assert_eq!(y.id, TensorId(70));
    assert_eq!(y.shape.dims(), &[10, 3]);
}

#[test]
fn forward_needs_both_parameters_on_the_gpu() {
    let l = Linear {
        weight: tensor(1, vec![4, 3], DType::F32, Device::Gpu),
        bias: tensor(2, vec![3], DType::F32, Device::Cpu),
    };
    let x = tensor(3, vec![5, 4], DType::F32, Device::Gpu);
    let y = l.forward(&x, &upcast, &move_storage, &fused, &fused_op, &matmul, &plus).unwrap();
    assert_eq!(y.id, TensorId(3001 * 1000 + 2));
}

#[test]
fn forward_refuses_to_flatten_a_strided_input() {
    let l = layer(DType::F32, Device::Gpu);
    let mut x = tensor(3, vec![2, 5, 4], DType::F32, Device::Gpu);
    x.strides = Strides::new(vec![1, 2, 10]);
    assert!(l.forward(&x, &upcast, &move_storage, &fused, &fused_op, &matmul, &plus).is_none());
}

#[test]
fn positional_encoding_forward_adds_the_table() {
    let pe: PositionalEncoding<(), Rec> = PositionalEncoding::new(
        TensorId(42),
        1,
        2,
        2,
        |pos: usize, i: usize| (pos as i64, i as i64),
        |_v: Vec<i64>| Arc::new(()),
    );
    let x = tensor(3, vec![1, 2, 2], DType::F32, Device::Cpu);
    let y = pe.forward(&x, &plus);
    assert_eq!(y.id, TensorId(3042));
}

#[test]
fn flatten_and_unflatten_shapes() {
    let x = tensor(3, vec![2, 5, 4], DType::F32, Device::Gpu);
    let x2 = Linear::<(), Rec>::flatten_input(&x);
    assert_eq!(x2.shape.dims(), &[10, 4]);
    assert_eq!(x2.strides.steps(), &[4, 1]);
    assert_eq!(x2.id, x.id);
    let out2 = tensor(7, vec![10, 3], DType::F32, Device::Gpu);
    let out3 = Linear::<(), Rec>::unflatten_output(&out2, 2, 5);
    assert_eq!(out3.shape.dims(), &[2, 5, 3]);
    assert_eq!(out3.strides.steps(), &[15, 3, 1]);
}

#[test]
fn fused_output_is_tracked_only_when_gradients_flow() {
    let l = layer(DType::F32, Device::Gpu);
    let x2 = tensor(3, vec![10, 4], DType::F32, Device::Gpu);
    let out = tensor(4, vec![10, 3], DType::F32, Device::Gpu);
    let plain = l.track_fused(&x2, out, &fused_op);
    assert!(plain.node.is_none());
    assert!(!plain.requires_grad);

    let mut l = layer(DType::F32, Device::Gpu);
    l.weight = l.weight.requires_grad_(true);
    let out = tensor(5, vec![10, 3], DType::F32, Device::Gpu);
    let recorded = l.track_fused(&x2, out, &fused_op);
    assert!(recorded.requires_grad);
    let node = recorded.node.as_ref().unwrap();
    assert_eq!(node.op.0, "fused");
    let ids: Vec<u64> = node.parents.iter().map(|t| t.id.0).collect();
    assert_eq!(ids, vec![3, 1, 2]);
}

#[test]
fn to_moves_both_parameters() {
    let mut l = layer(DType::F32, Device::Cpu);
    l.to(Device::Gpu, |t: &T, d: Device| {
        Tensor::from_storage(TensorId(t.id.0 + 100), t.dtype, t.shape.clone(), Arc::new(()), d)
    });
    assert!(l.weight.device.is_gpu());
    assert!(l.bias.device.is_gpu());
    assert_eq!(l.weight.id.0, 101);
    assert_eq!(l.bias.id.0, 102);
}

#[test]
fn encoding_table_layout() {
    // batch 2, 3 positions, 4 features; the wave records (pos, pair index).
    let table = encoding_table(2, 3, 4, &|pos: usize, i: usize| ((pos * 10 + i) as i64, -((pos * 10 + i) as i64)));
    assert_eq!(table.len(), 24);
    // Position 1 of batch entry 0: features 0..4 at 4..8.
    assert_eq!(&table[4..8], &[10, -10, 12, -12]);
    // The second batch entry repeats the first.
    assert_eq!(&table[0..12], &table[12..24]);
}

#[test]
fn encoding_table_with_odd_width() {
    let table = encoding_table(1, 2, 3, &|pos: usize, i: usize| (pos * 100 + i, pos * 100 + i + 50));
    assert_eq!(table, vec![0, 50, 2, 100, 150, 102]);
}

#[test]
fn sinusoidal_encoding_values() {
    let wave = |pos: usize, i: usize| {
        let angle = pos as f32 / 10000.0f32.powf(i as f32 / 4.0);
        (angle.sin(), angle.cos())
    };
    let table = encoding_table(1, 2, 4, &wave);
    assert_eq!(table[0], 0.0);
    assert_eq!(table[1], 1.0);
    assert!((table[4] - 1.0f32.sin()).abs() < 1e-6);
    assert!((table[5] - 1.0f32.cos()).abs() < 1e-6);
}

#[test]
fn positional_encoding_tensor() {
    let pe: PositionalEncoding<Vec<i64>, Rec> = PositionalEncoding::new(
        TensorId(42),
        2,
        3,
        4,
        |pos: usize, i: usize| (pos as i64, i as i64),
        |v: Vec<i64>| Arc::new(v),
    );
    assert_eq!(pe.pe.shape.dims(), &[2, 3, 4]);
    assert_eq!(pe.pe.strides.steps(), &[12, 4, 1]);
    assert_eq!(pe.pe.id, TensorId(42));
    assert!(pe.pe.device.is_cpu());
    assert_eq!(pe.pe.storage.len(), 24);
    assert_eq!(&pe.pe.storage[16..20], &[1, 0, 1, 2]);
}

#[test]
fn add_backward_sums_broadcast_axes() {
    let op = AddOp { a_shape: Shape::new(vec![4]), b_shape: Shape::new(vec![3, 4]) };
    assert_eq!(op.broadcast_reductions(3), (2, 1));
    assert_eq!(op.broadcast_reductions(2), (1, 0));
    assert_eq!(op.broadcast_reductions(1), (0, 0));
}

#[test]
fn layer_from_parameters() {
    let l: Linear<Vec<u8>, Rec> =
        Linear::from_parameters(TensorId(1), TensorId(2), 4, 3, Arc::new(vec![0u8; 48]), Arc::new(vec![0u8; 12]));
    assert_eq!(l.weight.shape.dims(), &[4, 3]);
    assert_eq!(l.weight.strides.steps(), &[3, 1]);
    assert_eq!(l.bias.shape.dims(), &[3]);
    assert!(l.weight.requires_grad && l.bias.requires_grad);
    assert!(l.weight.device.is_cpu() && l.bias.device.is_cpu());
    assert_eq!((l.weight.id, l.bias.id), (TensorId(1), TensorId(2)));
    assert_eq!(l.weight.storage.len(), 48);
}

#[test]
fn forward_lays_out_a_moved_input_contiguously() {
    let l = layer(DType::F32, Device::Gpu);
    let mut x = tensor(3, vec![2, 5, 4], DType::F32, Device::Cpu);
    x.strides = Strides::new(vec![1, 2, 10]);
    let y = l.forward(&x, &upcast, &move_storage, &fused, &fused_op, &matmul, &plus).unwrap();
    assert_eq!(y.shape.dims(), &[2, 5, 3]);
}

#[test]
fn moving_keeps_identity_shape_and_graph() {
    let x = tensor(3, vec![2, 4], DType::F32, Device::Cpu).requires_grad_(true).t();
    let on_gpu = x.moved_to(Device::Gpu, &move_storage).unwrap();
    assert_eq!(on_gpu.id, x.id);
    assert_eq!(on_gpu.shape.dims(), &[4, 2]);
    assert_eq!(on_gpu.strides.steps(), &[2, 1]);
    assert!(on_gpu.requires_grad && on_gpu.device.is_gpu());
    let same = on_gpu.moved_to(Device::Gpu, &move_storage).unwrap();
    assert_eq!(same.strides.steps(), &[2, 1]);
}
