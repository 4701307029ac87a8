//! Tensors: layout metadata, a handle on shared storage, and the autograd node
//! that produced them.
use vstd::prelude::*;
use std::sync::Arc;
use crate::device::Device;
use crate::shape::{
    isize_ints, lemma_size_append, lemma_size_single, row_major_fits, row_major_strides, shape_size,
    size_fits, DType, Shape, Strides,
};
use crate::kernels::num_elements_of;

verus! {

/// The identity of a tensor in the autograd graph.
#[derive(Clone, Copy, PartialEq, Eq, Structural, Debug, Hash)]
pub struct TensorId(pub u64);

/// An operation of the autograd graph over tensors of type `T`: given the
/// gradient of its output, it computes the gradients of its inputs.
pub trait Op<T> {
    fn name(&self) -> &'static str;

    /// Given the gradient of the output, calculate the gradients of the inputs.
    fn backward(&self, grad_output: &T) -> Vec<Option<T>>;
}

/// A node in the computation graph: the operation that produced a tensor and
/// the tensors it was applied to.
pub struct Node<S, O: ?Sized> {
    pub op: Arc<O>,
    pub parents: Vec<Tensor<S, O>>,
}

/// A strided view of shared storage `S`, with its place in the autograd graph,
/// whose operations have type `O` (the runtime's handle on an `Op`).
pub struct Tensor<S, O: ?Sized> {
    pub id: TensorId,
    pub dtype: DType,
    pub shape: Shape,
    pub strides: Strides,
    pub storage: Arc<S>,
    pub byte_offset: usize,
    pub requires_grad: bool,
    /// The gradient held with the tensor, if any.
    pub grad: Option<Arc<Tensor<S, O>>>,
    pub node: Option<Arc<Node<S, O>>>,
    pub device: Device,
}

/// `a` and `b` are copies of one tensor: same identity, layout, storage handle,
/// graph node and device.
pub open spec fn same_tensor<S, O: ?Sized>(a: Tensor<S, O>, b: Tensor<S, O>) -> bool {
    &&& a.id == b.id
    &&& a.dtype == b.dtype
    &&& a.shape@ == b.shape@
    &&& a.strides@ == b.strides@
    &&& a.storage == b.storage
    &&& a.byte_offset == b.byte_offset
    &&& a.requires_grad == b.requires_grad
    &&& a.grad == b.grad
    &&& a.node == b.node
    &&& a.device == b.device
}

/// Two sequences of tensors are copies of each other, entry by entry.
pub open spec fn same_tensors<S, O: ?Sized>(a: Seq<Tensor<S, O>>, b: Seq<Tensor<S, O>>) -> bool {
    &&& a.len() == b.len()
    &&& forall|i: int| 0 <= i < a.len() ==> same_tensor(#[trigger] a[i], b[i])
}

impl<S, O: ?Sized> Clone for Tensor<S, O> {
    /// A new handle on the same tensor: the storage and the graph node are
    /// shared, not copied.
    fn clone(&self) -> (r: Self)
        ensures
            same_tensor(r, *self),
    {
        Tensor {
            id: self.id,
            dtype: self.dtype,
            shape: self.shape.clone(),
            strides: self.strides.clone(),
            storage: self.storage.clone(),
            byte_offset: self.byte_offset,
            requires_grad: self.requires_grad,
            grad: match &self.grad {
                Some(g) => Some(g.clone()),
                None => None,
            },
            node: match &self.node {
                Some(n) => Some(n.clone()),
                None => None,
            },
            device: self.device,
        }
    }
}

/// Two devices are the same place: both the host, or both the GPU.
pub open spec fn same_place(a: Device, b: Device) -> bool {
    (a is Cpu) == (b is Cpu)
}

/// `r` is what moving `t` to `device` gives: `t` itself (as a handle) when it
/// is already there; otherwise a contiguous copy, in the storage that
/// `move_storage` makes, with `t`'s identity, element type, shape, gradient
/// flag and graph node; `None` when the contiguous layout of the shape does
/// not fit.
pub open spec fn moved<S, O: ?Sized, M: Fn(&Tensor<S, O>, Device) -> Arc<S>>(
    t: Tensor<S, O>,
    device: Device,
    move_storage: M,
    r: Option<Tensor<S, O>>,
) -> bool {
    if same_place(t.device, device) {
        r is Some && same_tensor(r->0, t)
    } else if row_major_fits(t.shape@) {
        &&& r is Some
        &&& r->0.id == t.id
        &&& r->0.dtype == t.dtype
        &&& r->0.shape@ == t.shape@
        &&& r->0.is_contiguous()
        &&& r->0.byte_offset == 0
        &&& r->0.requires_grad == t.requires_grad
        &&& r->0.grad == t.grad
        &&& r->0.node == t.node
        &&& r->0.device == device
        &&& move_storage.ensures((&t, device), r->0.storage)
    } else {
        r is None
    }
}

/// A moved tensor stays the same tensor of the autograd graph: its identity,
/// element type, shape, gradient flag, held gradient and graph node are the
/// original's, so backpropagation continues through it; and it lives where it
/// was moved to.
pub proof fn lemma_moved_keeps_graph<S, O: ?Sized, M: Fn(&Tensor<S, O>, Device) -> Arc<S>>(
    t: Tensor<S, O>,
    device: Device,
    move_storage: M,
    r: Option<Tensor<S, O>>,
)
    requires
        moved(t, device, move_storage, r),
        r is Some,
    ensures
        r->0.id == t.id,
        r->0.dtype == t.dtype,
        r->0.shape@ == t.shape@,
        r->0.requires_grad == t.requires_grad,
        r->0.grad == t.grad,
        r->0.node == t.node,
        (r->0.device is Cpu) == (device is Cpu),
{
}

impl<S, O: ?Sized> Tensor<S, O> {
    /// The tensor is laid out contiguously in row-major order from its offset.
    pub open spec fn is_contiguous(&self) -> bool {
        isize_ints(self.strides@) == row_major_strides(self.shape@)
    }

    /// The tensor on `device`: this tensor when it is already there, otherwise
    /// a contiguous copy whose storage `move_storage` makes there.
    pub fn moved_to<M: Fn(&Tensor<S, O>, Device) -> Arc<S>>(&self, device: Device, move_storage: &M) -> (r:
        Option<Self>)
        requires
            forall|t: &Tensor<S, O>, d: Device| #[trigger] move_storage.requires((t, d)),
        ensures
            moved(*self, device, *move_storage, r),
    {
        if self.device.is_cpu() == device.is_cpu() {
            return Some(self.clone());
        }
        if !self.shape.strides_fit() {
            return None;
        }
        let storage = move_storage(self, device);
        let strides = self.shape.contiguous_strides();
        Some(
            Tensor {
                id: self.id,
                dtype: self.dtype,
                shape: self.shape.clone(),
                strides,
                storage,
                byte_offset: 0,
                requires_grad: self.requires_grad,
                grad: match &self.grad {
                Some(g) => Some(g.clone()),
                None => None,
            },
            node: match &self.node {
                    Some(n) => Some(n.clone()),
                    None => None,
                },
                device,
            },
        )
    }

    /// Whether the tensor is laid out contiguously in row-major order.
    pub fn check_contiguous(&self) -> (b: bool)
        ensures
            b == self.is_contiguous(),
    {
        let dims = self.shape.dims();
        let steps = self.strides.steps();
        let n = dims.len();
        if steps.len() != n {
            proof {
                if self.is_contiguous() {
                    assert(isize_ints(self.strides@).len() == row_major_strides(self.shape@).len());
                }
            }
            return false;
        }
        let mut acc: usize = 1;
        let mut d: usize = n;
        proof {
            assert(dims@.subrange(n as int, n as int) =~= Seq::<usize>::empty());
        }
        while d > 0
            invariant
                d <= n,
                n == dims@.len(),
                n == steps@.len(),
                dims@ == self.shape@,
                steps@ == self.strides@,
                d > 0 ==> acc == shape_size(dims@.subrange(d as int, n as int)),
                acc <= isize::MAX,
                forall|e: int|
                    d <= e < n ==> steps@[e] as int == shape_size(
                        #[trigger] dims@.subrange(e + 1, n as int),
                    ),
            decreases d,
        {
            if steps[d - 1] != acc as isize {
                proof {
                    assert(isize_ints(self.strides@)[d - 1] != row_major_strides(self.shape@)[d - 1]);
                }
                return false;
            }
            let ghost tail = dims@.subrange(d as int, n as int);
            proof {
                assert(dims@.subrange(d - 1, n as int) =~= seq![dims@[d - 1]] + tail);
                lemma_size_append(seq![dims@[d - 1]], tail);
                lemma_size_single(dims@[d - 1]);
            }
            if d > 1 {
                match dims[d - 1].checked_mul(acc) {
                    None => {
                        proof {
                            assert(isize_ints(self.strides@)[d - 2] != row_major_strides(
                                self.shape@,
                            )[d - 2]);
                        }
                        return false;
                    },
                    Some(m) => {
                        if m > isize::MAX as usize {
                            proof {
                                assert(isize_ints(self.strides@)[d - 2] != row_major_strides(
                                    self.shape@,
                                )[d - 2]);
                            }
                            return false;
                        }
                        acc = m;
                    },
                }
            }
            d = d - 1;
        }
        assert(isize_ints(self.strides@) =~= row_major_strides(self.shape@));
        true
    }

    /// A contiguous tensor over `storage`, outside the autograd graph.
    pub fn from_storage(id: TensorId, dtype: DType, shape: Shape, storage: Arc<S>, device: Device) -> (t:
        Self)
        requires
            row_major_fits(shape@),
        ensures
            t.id == id,
            t.dtype == dtype,
            t.shape@ == shape@,
            t.is_contiguous(),
            t.storage == storage,
            t.byte_offset == 0,
            !t.requires_grad,
            t.grad is None,
            t.node is None,
            t.device == device,
    {
        let strides = shape.contiguous_strides();
        Tensor {
            id,
            dtype,
            shape,
            strides,
            storage,
            byte_offset: 0,
            requires_grad: false,
            grad: None,
            node: None,
            device,
        }
    }

    pub fn rank(&self) -> (r: usize)
        ensures
            r == self.shape@.len(),
    {
        self.shape.rank()
    }

    /// Marks whether gradients should flow into this tensor.
    pub fn requires_grad_(self, requires_grad: bool) -> (t: Self)
        ensures
            t.requires_grad == requires_grad,
            t.id == self.id,
            t.dtype == self.dtype,
            t.shape@ == self.shape@,
            t.strides@ == self.strides@,
            t.storage == self.storage,
            t.byte_offset == self.byte_offset,
            t.grad == self.grad,
            t.node == self.node,
            t.device == self.device,
    {
        let mut t = self;
        t.requires_grad = requires_grad;
        t
    }

    /// Attaches a computation node to this tensor, marking it as part of the
    /// autograd graph: the output of an operation requires gradients.
    pub fn with_node(self, op: Arc<O>, parents: Vec<Tensor<S, O>>) -> (t: Self)
        ensures
            t.node is Some,
            t.node->0.op == op,
            t.node->0.parents == parents,
            t.requires_grad,
            t.id == self.id,
            t.dtype == self.dtype,
            t.shape@ == self.shape@,
            t.strides@ == self.strides@,
            t.storage == self.storage,
            t.byte_offset == self.byte_offset,
            t.grad == self.grad,
            t.device == self.device,
    {
        let mut t = self;
        t.node = Some(Arc::new(Node { op, parents }));
        t.requires_grad = true;
        t
    }

    /// Records this tensor as the output of an operation on `parents` when
    /// gradients flow through any of them: its node then holds what `make_op`
    /// returns and the parents. Otherwise the tensor is returned as it is.
    pub fn record<M: Fn() -> Arc<O>>(self, parents: Vec<Tensor<S, O>>, make_op: &M) -> (t: Self)
        requires
            make_op.requires(()),
        ensures
            if exists|i: int| 0 <= i < parents@.len() && (#[trigger] parents@[i]).requires_grad {
                &&& t.node is Some
                &&& t.node->0.parents == parents
                &&& make_op.ensures((), t.node->0.op)
                &&& t.requires_grad
                &&& t.id == self.id
                &&& t.dtype == self.dtype
                &&& t.shape@ == self.shape@
                &&& t.strides@ == self.strides@
                &&& t.storage == self.storage
                &&& t.byte_offset == self.byte_offset
                &&& t.device == self.device
            } else {
                t == self
            },
    {
        let mut flows = false;
        let mut i: usize = 0;
        while i < parents.len()
            invariant
                i <= parents@.len(),
                flows == exists|j: int| 0 <= j < i && (#[trigger] parents@[j]).requires_grad,
            decreases parents@.len() - i,
        {
            if parents[i].requires_grad {
                flows = true;
            }
            i = i + 1;
        }
        if flows {
            let op = make_op();
            self.with_node(op, parents)
        } else {
            self
        }
    }

    /// A contiguous tensor seen with another shape of the same number of
    /// elements, sharing storage, offset and graph node.
    pub fn view(&self, shape: Shape) -> (t: Self)
        requires
            self.is_contiguous(),
            size_fits(self.shape@),
            size_fits(shape@),
            row_major_fits(shape@),
            shape_size(shape@) == shape_size(self.shape@),
        ensures
            t.id == self.id,
            t.dtype == self.dtype,
            t.shape@ == shape@,
            t.is_contiguous(),
            t.storage == self.storage,
            t.byte_offset == self.byte_offset,
            t.requires_grad == self.requires_grad,
            t.grad == self.grad,
            t.node == self.node,
            t.device == self.device,
    {
        let strides = shape.contiguous_strides();
        Tensor {
            id: self.id,
            dtype: self.dtype,
            shape,
            strides,
            storage: self.storage.clone(),
            byte_offset: self.byte_offset,
            requires_grad: self.requires_grad,
            grad: match &self.grad {
                Some(g) => Some(g.clone()),
                None => None,
            },
            node: match &self.node {
                Some(n) => Some(n.clone()),
                None => None,
            },
            device: self.device,
        }
    }

    /// The transpose of a matrix, as a view: dimensions and strides swapped,
    /// storage, offset and graph node shared.
    pub fn t(&self) -> (t: Self)
        requires
            self.shape@.len() == 2,
            self.strides@.len() == 2,
        ensures
            t.shape@ == seq![self.shape@[1], self.shape@[0]],
            t.strides@ == seq![self.strides@[1], self.strides@[0]],
            t.id == self.id,
            t.dtype == self.dtype,
            t.storage == self.storage,
            t.byte_offset == self.byte_offset,
            t.requires_grad == self.requires_grad,
            t.grad == self.grad,
            t.node == self.node,
            t.device == self.device,
    {
        let d = self.shape.dims();
        let s = self.strides.steps();
        let mut dims: Vec<usize> = Vec::new();
        dims.push(d[1]);
        dims.push(d[0]);
        let mut steps: Vec<isize> = Vec::new();
        steps.push(s[1]);
        steps.push(s[0]);
        let shape = Shape::new(dims);
        let strides = Strides::new(steps);
        assert(shape@ =~= seq![self.shape@[1], self.shape@[0]]);
        assert(strides@ =~= seq![self.strides@[1], self.strides@[0]]);
        Tensor {
            id: self.id,
            dtype: self.dtype,
            shape,
            strides,
            storage: self.storage.clone(),
            byte_offset: self.byte_offset,
            requires_grad: self.requires_grad,
            grad: match &self.grad {
                Some(g) => Some(g.clone()),
                None => None,
            },
            node: match &self.node {
                Some(n) => Some(n.clone()),
                None => None,
            },
            device: self.device,
        }
    }

    /// The number of elements.
    pub fn num_elements(&self) -> (n: usize)
        requires
            size_fits(self.shape@),
        ensures
            n == shape_size(self.shape@),
    {
        num_elements_of(self.shape.dims())
    }
}

} // verus!
