//! The records that autograd nodes keep of the operations that made them.
use vstd::prelude::*;
use crate::binary::matrix_at;
use crate::shape::{dot, isize_ints, DType, Shape};
use crate::kernels::place_slice;
use crate::tensor::{same_tensor, Tensor};

verus! {

/// Elementwise addition with broadcasting over leading axes.
pub struct AddOp {
    pub a_shape: Shape,
    pub b_shape: Shape,
}

/// The number of leading axes of a gradient of rank `grad_rank` that are
/// summed away to reach an operand of rank `rank`: broadcasting prepended them.
pub open spec fn leading_axes(grad_rank: nat, rank: nat) -> nat {
    if grad_rank > rank {
        (grad_rank - rank) as nat
    } else {
        0
    }
}

/// Each gradient of a broadcasting addition gets its operand's rank back:
/// from a gradient of higher rank exactly the extra leading axes are summed
/// away (a scalar operand, of rank 0, included), and a gradient of no higher
/// rank is left as it is.
pub proof fn lemma_reductions_restore_rank(grad_rank: nat, rank: nat)
    ensures
        grad_rank >= rank ==> grad_rank - leading_axes(grad_rank, rank) == rank,
        grad_rank <= rank ==> leading_axes(grad_rank, rank) == 0,
{
}

impl AddOp {
    /// How many leading axes of the output gradient are summed away (axis 0
    /// each time) to give the gradients of the two operands.
    pub fn broadcast_reductions(&self, grad_rank: usize) -> (r: (usize, usize))
        ensures
            r.0 == leading_axes(grad_rank as nat, self.a_shape@.len()),
            r.1 == leading_axes(grad_rank as nat, self.b_shape@.len()),
    {
        let a_rank = self.a_shape.rank();
        let b_rank = self.b_shape.rank();
        let ra = if grad_rank > a_rank {
            grad_rank - a_rank
        } else {
            0
        };
        let rb = if grad_rank > b_rank {
            grad_rank - b_rank
        } else {
            0
        };
        (ra, rb)
    }
}

/// A copy into contiguous memory.
pub struct ContiguousOp;

/// The fused `relu(x W + b)` of the GPU linear shader.
pub struct FusedLinearOp<S, O: ?Sized> {
    pub x: Tensor<S, O>,
    pub w: Tensor<S, O>,
    pub bias: Tensor<S, O>,
}

/// Matrix product `a b`.
pub struct MatMulOp<S, O: ?Sized> {
    pub a: Tensor<S, O>,
    pub b: Tensor<S, O>,
}

/// Rectified linear unit.
pub struct ReluOp<S, O: ?Sized> {
    pub input: Tensor<S, O>,
}

/// The 2-D slice at `batch_idx` of a 3-D tensor of shape `parent_shape`.
pub struct GetSliceOp {
    pub batch_idx: usize,
    pub parent_shape: Shape,
}

/// The sum of all elements of a tensor.
pub struct SumOp {
    pub input_shape: Shape,
    pub dtype: DType,
}

/// `r` is what `sum` makes of `g` applied `k` times in a row (`g` itself, as a
/// handle, for `k == 0`).
pub open spec fn applied_times<S, O: ?Sized, R: Fn(&Tensor<S, O>) -> Tensor<S, O>>(
    sum: R,
    g: Tensor<S, O>,
    k: nat,
    r: Tensor<S, O>,
) -> bool
    decreases k,
{
    if k == 0 {
        same_tensor(r, g)
    } else {
        exists|m: Tensor<S, O>|
            #[trigger] sum.ensures((&m,), r) && applied_times(sum, g, (k - 1) as nat, m)
    }
}

/// `r` is the transpose view of the matrix `t`.
pub open spec fn transposed<S, O: ?Sized>(t: Tensor<S, O>, r: Tensor<S, O>) -> bool {
    &&& r.shape@ == seq![t.shape@[1], t.shape@[0]]
    &&& r.strides@ == seq![t.strides@[1], t.strides@[0]]
    &&& r.id == t.id
    &&& r.dtype == t.dtype
    &&& r.storage == t.storage
    &&& r.byte_offset == t.byte_offset
    &&& r.requires_grad == t.requires_grad
    &&& r.node == t.node
    &&& r.device == t.device
}

/// A transposed matrix reads, at `(i, j)`, the element that the matrix reads at
/// `(j, i)`, whatever the matrix's strides, and has the swapped shape.
pub proof fn lemma_transposed_reads<S, O: ?Sized, T>(
    t: Tensor<S, O>,
    r: Tensor<S, O>,
    data: Seq<T>,
    base: int,
    i: int,
    j: int,
)
    requires
        transposed(t, r),
        t.strides@.len() == 2,
    ensures
        r.shape@ == seq![t.shape@[1], t.shape@[0]],
        r.storage == t.storage,
        r.byte_offset == t.byte_offset,
        matrix_at(data, r.strides@, base, i, j) == matrix_at(data, t.strides@, base, j, i),
{
    let a = isize_ints(t.strides@);
    let b = isize_ints(r.strides@);
    assert(b[0] == a[1] && b[1] == a[0]);
    reveal_with_fuel(dot, 3);
    assert(seq![i, j].drop_last() =~= seq![i]);
    assert(seq![j, i].drop_last() =~= seq![j]);
    assert(seq![i].drop_last() =~= Seq::<int>::empty());
    assert(seq![j].drop_last() =~= Seq::<int>::empty());
    assert(a.drop_last() =~= seq![a[0]]);
    assert(b.drop_last() =~= seq![b[0]]);
    assert(seq![a[0]].drop_last() =~= Seq::<int>::empty());
    assert(seq![b[0]].drop_last() =~= Seq::<int>::empty());
    assert(dot(seq![i, j], b) == i * b[0] + j * b[1]);
    assert(dot(seq![j, i], a) == j * a[0] + i * a[1]);
}

/// A matrix with one stride per axis.
pub open spec fn is_matrix<S, O: ?Sized>(t: Tensor<S, O>) -> bool {
    t.shape@.len() == 2 && t.strides@.len() == 2
}

fn sum_repeatedly<S, O: ?Sized, R: Fn(&Tensor<S, O>) -> Tensor<S, O>>(
    g: &Tensor<S, O>,
    k: usize,
    sum_leading: &R,
) -> (r: Tensor<S, O>)
    requires
        forall|t: &Tensor<S, O>| #[trigger] sum_leading.requires((t,)),
    ensures
        applied_times(*sum_leading, *g, k as nat, r),
{
    let mut r = g.clone();
    let mut i: usize = 0;
    while i < k
        invariant
            i <= k,
            forall|t: &Tensor<S, O>| #[trigger] sum_leading.requires((t,)),
            applied_times(*sum_leading, *g, i as nat, r),
        decreases k - i,
    {
        let next = sum_leading(&r);
        assert(sum_leading.ensures((&r,), next) && applied_times(*sum_leading, *g, i as nat, r));
        r = next;
        i = i + 1;
    }
    r
}

impl AddOp {
    /// The gradients of the two operands: the output gradient with the axes
    /// that broadcasting prepended to each summed away, one leading axis at a
    /// time by `sum_leading`.
    pub fn backward_with<S, O: ?Sized, R: Fn(&Tensor<S, O>) -> Tensor<S, O>>(
        &self,
        grad_output: &Tensor<S, O>,
        sum_leading: &R,
    ) -> (grads: Vec<Option<Tensor<S, O>>>)
        requires
            forall|t: &Tensor<S, O>| #[trigger] sum_leading.requires((t,)),
        ensures
            grads@.len() == 2,
            grads@[0] is Some && grads@[1] is Some,
            applied_times(
                *sum_leading,
                *grad_output,
                leading_axes(grad_output.shape@.len(), self.a_shape@.len()),
                grads@[0]->0,
            ),
            applied_times(
                *sum_leading,
                *grad_output,
                leading_axes(grad_output.shape@.len(), self.b_shape@.len()),
                grads@[1]->0,
            ),
    {
        let (ra, rb) = self.broadcast_reductions(grad_output.rank());
        let grad_a = sum_repeatedly(grad_output, ra, sum_leading);
        let grad_b = sum_repeatedly(grad_output, rb, sum_leading);
        let mut grads: Vec<Option<Tensor<S, O>>> = Vec::new();
        grads.push(Some(grad_a));
        grads.push(Some(grad_b));
        grads
    }
}

impl ContiguousOp {
    /// A copy passes its gradient straight through.
    pub fn backward_with<S, O: ?Sized>(&self, grad_output: &Tensor<S, O>) -> (grads: Vec<
        Option<Tensor<S, O>>,
    >)
        ensures
            grads@.len() == 1,
            grads@[0] is Some,
            same_tensor(grads@[0]->0, *grad_output),
    {
        let mut grads: Vec<Option<Tensor<S, O>>> = Vec::new();
        grads.push(Some(grad_output.clone()));
        grads
    }
}

impl<S, O: ?Sized> FusedLinearOp<S, O> {
    /// The gradients of input, weight and bias of `relu(x W + b)`: the
    /// pre-activation `x W + b` is recomputed (`matmul`, `plus`), the output
    /// gradient passes the ReLU where it is positive (`relu_grad`), and then
    /// `db = sum_rows(dZ)`, `dW = xᵀ dZ`, `dx = dZ Wᵀ`.
    pub fn backward_with<MM, AD, RG, SR>(
        &self,
        grad_output: &Tensor<S, O>,
        matmul: &MM,
        plus: &AD,
        relu_grad: &RG,
        sum_rows: &SR,
    ) -> (grads: Vec<Option<Tensor<S, O>>>) where
        MM: Fn(&Tensor<S, O>, &Tensor<S, O>) -> Tensor<S, O>,
        AD: Fn(&Tensor<S, O>, &Tensor<S, O>) -> Tensor<S, O>,
        RG: Fn(&Tensor<S, O>, &Tensor<S, O>) -> Tensor<S, O>,
        SR: Fn(&Tensor<S, O>) -> Tensor<S, O>,

        requires
            is_matrix(self.x),
            is_matrix(self.w),
            forall|a: &Tensor<S, O>, b: &Tensor<S, O>| #[trigger] matmul.requires((a, b)),
            forall|a: &Tensor<S, O>, b: &Tensor<S, O>| #[trigger] plus.requires((a, b)),
            forall|a: &Tensor<S, O>, b: &Tensor<S, O>| #[trigger] relu_grad.requires((a, b)),
            forall|a: &Tensor<S, O>| #[trigger] sum_rows.requires((a,)),
        ensures
            grads@.len() == 3,
            grads@[0] is Some && grads@[1] is Some && grads@[2] is Some,
            exists|xw: Tensor<S, O>, pre: Tensor<S, O>, dz: Tensor<S, O>, xt: Tensor<S, O>, wt: Tensor<S, O>|
                #![trigger matmul.ensures((&self.x, &self.w), xw), plus.ensures((&xw, &self.bias), pre), relu_grad.ensures((grad_output, &pre), dz), transposed(self.x, xt), transposed(self.w, wt)]
                {
                    &&& matmul.ensures((&self.x, &self.w), xw)
                    &&& plus.ensures((&xw, &self.bias), pre)
                    &&& relu_grad.ensures((grad_output, &pre), dz)
                    &&& transposed(self.x, xt)
                    &&& transposed(self.w, wt)
                    &&& matmul.ensures((&dz, &wt), grads@[0]->0)
                    &&& matmul.ensures((&xt, &dz), grads@[1]->0)
                    &&& sum_rows.ensures((&dz,), grads@[2]->0)
                },
    {
        let xw = matmul(&self.x, &self.w);
        let pre = plus(&xw, &self.bias);
        let dz = relu_grad(grad_output, &pre);
        let grad_bias = sum_rows(&dz);
        let xt = self.x.t();
        let grad_w = matmul(&xt, &dz);
        let wt = self.w.t();
        let grad_x = matmul(&dz, &wt);
        let mut grads: Vec<Option<Tensor<S, O>>> = Vec::new();
        grads.push(Some(grad_x));
        grads.push(Some(grad_w));
        grads.push(Some(grad_bias));
        assert(transposed(self.x, xt) && transposed(self.w, wt));
        grads
    }
}

impl<S, O: ?Sized> MatMulOp<S, O> {
    /// `dA = dY Bᵀ`, `dB = Aᵀ dY`, by the runtime's `matmul`.
    pub fn backward_with<MM: Fn(&Tensor<S, O>, &Tensor<S, O>) -> Tensor<S, O>>(
        &self,
        grad_output: &Tensor<S, O>,
        matmul: &MM,
    ) -> (grads: Vec<Option<Tensor<S, O>>>)
        requires
            is_matrix(self.a),
            is_matrix(self.b),
            forall|a: &Tensor<S, O>, b: &Tensor<S, O>| #[trigger] matmul.requires((a, b)),
        ensures
            grads@.len() == 2,
            grads@[0] is Some && grads@[1] is Some,
            exists|bt: Tensor<S, O>|
                #[trigger] transposed(self.b, bt) && matmul.ensures((grad_output, &bt), grads@[0]->0),
            exists|at: Tensor<S, O>|
                #[trigger] transposed(self.a, at) && matmul.ensures((&at, grad_output), grads@[1]->0),
    {
        let bt = self.b.t();
        let grad_a = matmul(grad_output, &bt);
        let at = self.a.t();
        let grad_b = matmul(&at, grad_output);
        let mut grads: Vec<Option<Tensor<S, O>>> = Vec::new();
        grads.push(Some(grad_a));
        grads.push(Some(grad_b));
        assert(transposed(self.b, bt) && transposed(self.a, at));
        grads
    }
}

impl<S, O: ?Sized> ReluOp<S, O> {
    /// The output gradient where the input is positive, by `relu_grad`.
    pub fn backward_with<RG: Fn(&Tensor<S, O>, &Tensor<S, O>) -> Tensor<S, O>>(
        &self,
        grad_output: &Tensor<S, O>,
        relu_grad: &RG,
    ) -> (grads: Vec<Option<Tensor<S, O>>>)
        requires
            forall|a: &Tensor<S, O>, b: &Tensor<S, O>| #[trigger] relu_grad.requires((a, b)),
        ensures
            grads@.len() == 1,
            grads@[0] is Some,
            relu_grad.ensures((grad_output, &self.input), grads@[0]->0),
    {
        let g = relu_grad(grad_output, &self.input);
        let mut grads: Vec<Option<Tensor<S, O>>> = Vec::new();
        grads.push(Some(g));
        grads
    }
}

impl SumOp {
    /// The gradient of a full sum: every element of the input received the
    /// scalar output gradient once, so the input gradient is ones of the
    /// input's shape (`ones`) multiplied, with broadcasting, by the scalar
    /// (`times`). Only f32 and f64 sums have a gradient.
    pub fn backward_with<S, O: ?Sized, ON, MU>(
        &self,
        grad_output: &Tensor<S, O>,
        ones: &ON,
        times: &MU,
    ) -> (grads: Vec<Option<Tensor<S, O>>>) where
        ON: Fn(DType, &Shape) -> Tensor<S, O>,
        MU: Fn(&Tensor<S, O>, &Tensor<S, O>) -> Tensor<S, O>,

        requires
            self.dtype != DType::BF16,
            forall|d: DType, s: &Shape| #[trigger] ones.requires((d, s)),
            forall|a: &Tensor<S, O>, b: &Tensor<S, O>| #[trigger] times.requires((a, b)),
        ensures
            grads@.len() == 1,
            grads@[0] is Some,
            exists|o: Tensor<S, O>|
                #[trigger] ones.ensures((self.dtype, &self.input_shape), o) && times.ensures(
                    (&o, grad_output),
                    grads@[0]->0,
                ),
    {
        let o = ones(self.dtype, &self.input_shape);
        let g = times(&o, grad_output);
        let mut grads: Vec<Option<Tensor<S, O>>> = Vec::new();
        grads.push(Some(g));
        assert(ones.ensures((self.dtype, &self.input_shape), o) && times.ensures((&o, grad_output), g));
        grads
    }
}

impl AddOp {
    /// The operation's name in the autograd graph.
    pub fn name(&self) -> (s: &'static str)
        ensures
            s@ == "Add"@,
    {
        "Add"
    }
}

impl ContiguousOp {
    /// The operation's name in the autograd graph.
    pub fn name(&self) -> (s: &'static str)
        ensures
            s@ == "Contiguous"@,
    {
        "Contiguous"
    }
}

impl<S, O: ?Sized> FusedLinearOp<S, O> {
    /// The operation's name in the autograd graph.
    pub fn name(&self) -> (s: &'static str)
        ensures
            s@ == "FusedLinear"@,
    {
        "FusedLinear"
    }
}

impl<S, O: ?Sized> MatMulOp<S, O> {
    /// The operation's name in the autograd graph.
    pub fn name(&self) -> (s: &'static str)
        ensures
            s@ == "MatMul"@,
    {
        "MatMul"
    }
}

impl<S, O: ?Sized> ReluOp<S, O> {
    /// The operation's name in the autograd graph.
    pub fn name(&self) -> (s: &'static str)
        ensures
            s@ == "ReLU"@,
    {
        "ReLU"
    }
}

impl GetSliceOp {
    /// The operation's name in the autograd graph.
    pub fn name(&self) -> (s: &'static str)
        ensures
            s@ == "GetSlice"@,
    {
        "GetSlice"
    }
}

impl SumOp {
    /// The operation's name in the autograd graph.
    pub fn name(&self) -> (s: &'static str)
        ensures
            s@ == "Sum"@,
    {
        "Sum"
    }
}

impl GetSliceOp {
    /// The gradient of the parent of a slice, as its dimensions and row-major
    /// elements: the slice's gradient `slice` in the place of slice
    /// `batch_idx`, `zero` everywhere else.
    pub fn backward_values<T: Copy>(&self, slice: &[T], zero: T) -> (r: (Vec<usize>, Vec<T>))
        requires
            self.parent_shape@.len() > 0,
            self.batch_idx < self.parent_shape@[0],
            self.parent_shape@[0] * slice@.len() <= usize::MAX,
        ensures
            r.0@ == self.parent_shape@,
            r.1@.len() == self.parent_shape@[0] * slice@.len(),
            forall|j: int|
                0 <= j < r.1@.len() ==> #[trigger] r.1@[j] == if self.batch_idx * slice@.len() <= j
                    < (self.batch_idx + 1) * slice@.len() {
                    slice@[j - self.batch_idx * slice@.len()]
                } else {
                    zero
                },
    {
        let count = self.parent_shape.dims()[0];
        let values = place_slice(slice, count, self.batch_idx, zero);
        let dims = self.parent_shape.clone();
        (dims.into_dims(), values)
    }
}

} // verus!
