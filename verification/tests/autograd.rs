use std::collections::HashSet;
use std::sync::Arc;

use axtensor::autograd::backpropagate;
use axtensor::device::Device;
use axtensor::shape::{DType, Shape};
use axtensor::tensor::{Tensor, TensorId};

/// The operation record used by these tests: just a name.
struct Rec(&'static str);

type T = Tensor<(), Rec>;

fn leaf(id: u64) -> T {
    Tensor::from_storage(TensorId(id), DType::F32, Shape::new(vec![2]), Arc::new(()), Device::Cpu)
}

fn op(id: u64, name: &'static str, parents: Vec<T>) -> T {
    leaf(id).with_node(Arc::new(Rec(name)), parents)
}

fn ids(order: &[T]) -> Vec<u64> {
    order.iter().map(|t| t.id.0).collect()
}

fn position(order: &[T], id: u64) -> usize {
    order.iter().position(|t| t.id.0 == id).unwrap()
}

#[test]
fn with_node_records_the_operation() {
    let a = leaf(1);
    let b = leaf(2);
    let c = op(3, "add", vec![a.clone(), b.clone()]);
    assert!(c.requires_grad);
    let node = c.node.as_ref().unwrap();
    assert_eq!(node.op.0, "add");
    assert_eq!(ids(&node.parents), vec![1, 2]);
    assert_eq!(c.id, TensorId(3));
    assert!(!a.requires_grad);
}

#[test]
fn a_leaf_sorts_to_itself() {
    let a = leaf(4);
    assert_eq!(ids(&a.topo_sort()), vec![4]);
}

#[test]
fn chain_runs_from_loss_to_leaves() {
    // x -> h = relu(x) -> loss = sum(h)
    let x = leaf(1);
    let h = op(2, "relu", vec![x]);
    let loss = op(3, "sum", vec![h]);
    assert_eq!(ids(&loss.topo_sort()), vec![3, 2, 1]);
}

#[test]
fn shared_inputs_are_listed_once_and_after_their_users() {
    // A diamond: w feeds both y1 and y2, which both feed the loss.
    let w = leaf(1);
    let x = leaf(2);
    let y1 = op(3, "matmul", vec![x.clone(), w.clone()]);
    let y2 = op(4, "matmul", vec![w.clone(), x.clone()]);
    let loss = op(5, "add", vec![y1, y2]);
    let order = loss.topo_sort();
    let got = ids(&order);
    assert_eq!(got[0], 5);
    assert_eq!(got.len(), 5);
    let distinct: HashSet<u64> = got.iter().copied().collect();
    assert_eq!(distinct.len(), 5);
    for t in &order {
        if let Some(node) = &t.node {
            for p in &node.parents {
                assert!(position(&order, p.id.0) > position(&order, t.id.0));
            }
        }
    }
    assert_eq!(got, vec![5, 4, 3, 1, 2]);
}

#[test]
fn sorted_tensors_are_handles_on_the_graph() {
    let x = leaf(1);
    let y = op(2, "relu", vec![x]);
    let order = y.topo_sort();
    assert!(Arc::ptr_eq(&order[0].storage, &y.storage));
    assert!(Arc::ptr_eq(order[0].node.as_ref().unwrap(), y.node.as_ref().unwrap()));
    assert_eq!(order[1].shape.dims(), &[2]);
}

#[test]
fn view_and_requires_grad() {
    let t = Tensor::<(), Rec>::from_storage(
        TensorId(9),
        DType::F64,
        Shape::new(vec![2, 3]),
        Arc::new(()),
        Device::Gpu,
    );
    assert_eq!(t.strides.steps(), &[3, 1]);
    assert_eq!(t.num_elements(), 6);
    assert_eq!(t.rank(), 2);
    let v = t.view(Shape::new(vec![3, 2]));
    assert_eq!(v.shape.dims(), &[3, 2]);
    assert_eq!(v.strides.steps(), &[2, 1]);
    assert_eq!(v.id, t.id);
    assert!(v.device.is_gpu());
    let g = v.requires_grad_(true);
    assert!(g.requires_grad);
    assert_eq!(g.byte_offset, 0);
}

#[test]
fn record_tracks_only_when_gradients_flow() {
    let a = leaf(1).requires_grad_(false);
    let b = leaf(2).requires_grad_(false);
    let out = leaf(3);
    let plain = out.record(vec![a.clone(), b.clone()], &|| Arc::new(Rec("add")));
    assert!(plain.node.is_none());
    assert!(!plain.requires_grad);

    let b = b.requires_grad_(true);
    let out = leaf(4);
    let recorded = out.record(vec![a, b], &|| Arc::new(Rec("add")));
    assert!(recorded.requires_grad);
    let node = recorded.node.as_ref().unwrap();
    assert_eq!(node.op.0, "add");
    let ids: Vec<u64> = node.parents.iter().map(|t| t.id.0).collect();
    assert_eq!(ids, vec![1, 2]);
    assert_eq!(recorded.id, TensorId(4));
}

#[test]
fn ids_may_rise_along_an_edge() {
    // An older tensor made from a newer one: no id cycle, so the order still
    // lists each tensor before its inputs.
    let newer = leaf(9);
    let older = op(2, "f", vec![newer]);
    let loss = op(5, "g", vec![older.clone(), leaf(7)]);
    assert_eq!(ids(&loss.topo_sort()), vec![5, 7, 2, 9]);
}

#[test]
fn backpropagation_accumulates_by_id() {
    // loss(5) = g(a(2), b(3)); a(2) = f(x(1)); b(3) = h(x(1)). Gradients are
    // leaves whose id records how they were made; x receives two and adds them.
    let x = leaf(1).requires_grad_(true);
    let a = op(2, "f", vec![x.clone()]);
    let b = op(3, "h", vec![x.clone()]);
    let loss = op(5, "g", vec![a, b]);
    let backward_of = |t: &T, g: &T| -> Vec<Option<T>> {
        let n = t.node.as_ref().unwrap().parents.len() as u64;
        (0..n).map(|k| Some(leaf(g.id.0 * 10 + k))).collect()
    };
    let plus = |p: &T, q: &T| leaf(p.id.0 * 1000 + q.id.0);
    let grads = backpropagate(&loss, leaf(7), &backward_of, &plus);
    assert_eq!(grads[&5].id.0, 7);
    assert_eq!(grads[&2].id.0, 70);
    assert_eq!(grads[&3].id.0, 71);
    // Order 5, 3, 2, 1 (children first): x gets 710 from b, then 700 from a.
    assert_eq!(grads[&1].id.0, 710 * 1000 + 700);
}
