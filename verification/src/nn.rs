//! Layers: the affine `Linear` layer and the sinusoidal positional encoding.
use vstd::prelude::*;
use std::sync::Arc;
use crate::device::Device;
use crate::shape::{
    isize_ints, row_major_fits, row_major_strides, shape_size, size_fits, view_offset, DType, Shape,
};
use crate::ops::FusedLinearOp;
use crate::tensor::{moved, same_place, same_tensor, Tensor, TensorId};

verus! {

/// The affine transformation `y = x W + b`.
pub struct Linear<S, O: ?Sized> {
    pub weight: Tensor<S, O>,
    pub bias: Tensor<S, O>,
}

/// `r` differs from `t` at most in its shape and strides: same identity, element
/// type, storage, offset, gradient flag, graph node and device.
pub open spec fn same_but_layout<S, O: ?Sized>(r: Tensor<S, O>, t: Tensor<S, O>) -> bool {
    &&& r.id == t.id
    &&& r.dtype == t.dtype
    &&& r.storage == t.storage
    &&& r.byte_offset == t.byte_offset
    &&& r.requires_grad == t.requires_grad
    &&& r.grad == t.grad
    &&& r.node == t.node
    &&& r.device == t.device
}

/// A contiguous `[batch, seq, hidden]` tensor that can be seen as a
/// `[batch * seq, hidden]` matrix.
pub open spec fn flattenable<S, O: ?Sized>(x: Tensor<S, O>) -> bool {
    &&& x.shape@.len() == 3
    &&& x.is_contiguous()
    &&& size_fits(x.shape@)
    &&& x.shape@[2] <= isize::MAX
}

/// `r` is the `[batch, seq, hidden]` tensor `x` seen as `[batch * seq, hidden]`.
pub open spec fn flattened<S, O: ?Sized>(x: Tensor<S, O>, r: Tensor<S, O>) -> bool {
    &&& r.shape@ == seq![(x.shape@[0] * x.shape@[1]) as usize, x.shape@[2]]
    &&& r.is_contiguous()
    &&& same_but_layout(r, x)
}

/// The fused shader's `[batch * seq, n]` output `t` can be seen as
/// `[batch, seq, n]`, `n` being the output width of the weight `w`.
pub open spec fn unflattenable<S, O: ?Sized>(
    t: Tensor<S, O>,
    batch: usize,
    seq: usize,
    w: Tensor<S, O>,
) -> bool {
    &&& t.shape@.len() == 2
    &&& t.is_contiguous()
    &&& size_fits(t.shape@)
    &&& w.shape@.len() >= 2
    &&& t.shape@[0] == batch * seq
    &&& t.shape@[1] == w.shape@[1]
    &&& seq * t.shape@[1] <= isize::MAX
}

/// `r` is the matrix `t` seen as `[batch, seq, t.shape[1]]`.
pub open spec fn unflattened<S, O: ?Sized>(
    t: Tensor<S, O>,
    batch: usize,
    seq: usize,
    r: Tensor<S, O>,
) -> bool {
    &&& r.shape@ == seq![batch, seq, t.shape@[1]]
    &&& r.is_contiguous()
    &&& same_but_layout(r, t)
}

/// The operand that `forward` computes with: what `upcast` makes of a bf16
/// parameter, or the parameter itself.
pub open spec fn compute_operand<S, O: ?Sized, U: Fn(&Tensor<S, O>) -> Tensor<S, O>>(
    t: Tensor<S, O>,
    upcast: U,
    r: Tensor<S, O>,
) -> bool {
    if t.dtype == DType::BF16 {
        upcast.ensures((&t,), r)
    } else {
        same_tensor(r, t)
    }
}

/// Autocast: a bf16 parameter is computed with as its f32 upcast, the very
/// operand that a layer holding that upcast computes with.
pub proof fn lemma_autocast_operand<S, O: ?Sized, U: Fn(&Tensor<S, O>) -> Tensor<S, O>>(
    w: Tensor<S, O>,
    upcast: U,
    w32: Tensor<S, O>,
)
    requires
        w.dtype == DType::BF16,
        upcast.ensures((&w,), w32),
        w32.dtype == DType::F32,
    ensures
        compute_operand(w, upcast, w32),
        forall|r: Tensor<S, O>| #[trigger] compute_operand(w32, upcast, r) <==> same_tensor(r, w32),
{
}

impl<S, O: ?Sized> Linear<S, O> {
    /// A trainable layer over host storage: a contiguous f32
    /// `[in_features, out_features]` weight and `[out_features]` bias, both
    /// requiring gradients.
    pub fn from_parameters(
        weight_id: TensorId,
        bias_id: TensorId,
        in_features: usize,
        out_features: usize,
        weight: Arc<S>,
        bias: Arc<S>,
    ) -> (l: Self)
        requires
            out_features <= isize::MAX,
        ensures
            l.weight.id == weight_id,
            l.weight.dtype == DType::F32,
            l.weight.shape@ == seq![in_features, out_features],
            l.weight.is_contiguous(),
            l.weight.storage == weight,
            l.weight.byte_offset == 0,
            l.weight.requires_grad,
            l.weight.node is None,
            l.weight.device is Cpu,
            l.bias.id == bias_id,
            l.bias.dtype == DType::F32,
            l.bias.shape@ == seq![out_features],
            l.bias.is_contiguous(),
            l.bias.storage == bias,
            l.bias.byte_offset == 0,
            l.bias.requires_grad,
            l.bias.node is None,
            l.bias.device is Cpu,
    {
        let mut wd: Vec<usize> = Vec::new();
        wd.push(in_features);
        wd.push(out_features);
        let mut bd: Vec<usize> = Vec::new();
        bd.push(out_features);
        let ws = Shape::new(wd);
        let bs = Shape::new(bd);
        proof {
            lemma_shape2(in_features, out_features);
            assert(ws@ =~= seq![in_features, out_features]);
            assert(bs@ =~= seq![out_features]);
            assert(bs@.subrange(1, 1) =~= Seq::<usize>::empty());
            assert(shape_size(Seq::<usize>::empty()) == 1);
            assert(row_major_fits(bs@));
        }
        let w = Tensor::from_storage(weight_id, DType::F32, ws, weight, Device::Cpu);
        let b = Tensor::from_storage(bias_id, DType::F32, bs, bias, Device::Cpu);
        Linear { weight: w.requires_grad_(true), bias: b.requires_grad_(true) }
    }

    /// Moves the layer's parameters to `device`, by the runtime's `transfer`.
    pub fn to<F: Fn(&Tensor<S, O>, Device) -> Tensor<S, O>>(&mut self, device: Device, transfer: F)
        requires
            forall|t: &Tensor<S, O>| #[trigger] transfer.requires((t, device)),
        ensures
            transfer.ensures((&old(self).weight, device), final(self).weight),
            transfer.ensures((&old(self).bias, device), final(self).bias),
    {
        self.weight = transfer(&self.weight, device);
        self.bias = transfer(&self.bias, device);
    }

    /// `r` is the fused shader's output `out_2d` for the flattened input `x_2d`,
    /// recorded in the autograd graph when gradients flow through an operand:
    /// its node's operation is what `fused_op` makes of the record of
    /// `(x_2d, weight, bias)`, and its parents are those three tensors.
    pub open spec fn tracked_output<M: Fn(FusedLinearOp<S, O>) -> Arc<O>>(
        self,
        x_2d: Tensor<S, O>,
        out_2d: Tensor<S, O>,
        fused_op: M,
        r: Tensor<S, O>,
    ) -> bool {
        if x_2d.requires_grad || self.weight.requires_grad || self.bias.requires_grad {
            &&& r.requires_grad
            &&& r.node is Some
            &&& r.node->0.parents@.len() == 3
            &&& same_tensor(r.node->0.parents@[0], x_2d)
            &&& same_tensor(r.node->0.parents@[1], self.weight)
            &&& same_tensor(r.node->0.parents@[2], self.bias)
            &&& exists|rec: FusedLinearOp<S, O>|
                #![trigger fused_op.ensures((rec,), r.node->0.op)]
                same_tensor(rec.x, x_2d) && same_tensor(rec.w, self.weight) && same_tensor(
                    rec.bias,
                    self.bias,
                ) && fused_op.ensures((rec,), r.node->0.op)
            &&& r.id == out_2d.id
            &&& r.dtype == out_2d.dtype
            &&& r.shape@ == out_2d.shape@
            &&& r.strides@ == out_2d.strides@
            &&& r.storage == out_2d.storage
            &&& r.byte_offset == out_2d.byte_offset
            &&& r.device == out_2d.device
        } else {
            r == out_2d
        }
    }

    /// What the fused GPU path returns for the input `x1` (already on the
    /// weights' device) and the compute operands `w`, `b`: a rank-3 input is
    /// flattened, run through `fused`, recorded, and reshaped back; `None` where
    /// a reshape does not apply to the layout at hand.
    pub open spec fn fused_result<
        F: Fn(&Tensor<S, O>, &Tensor<S, O>, &Tensor<S, O>) -> Tensor<S, O>,
        M: Fn(FusedLinearOp<S, O>) -> Arc<O>,
    >(
        self,
        x1: Tensor<S, O>,
        w: Tensor<S, O>,
        b: Tensor<S, O>,
        fused: F,
        fused_op: M,
        out: Option<Tensor<S, O>>,
    ) -> bool {
        if x1.shape@.len() == 3 {
            if !flattenable(x1) {
                out is None
            } else {
                exists|x2: Tensor<S, O>, o2: Tensor<S, O>, t: Tensor<S, O>|
                    #![trigger fused.ensures((&x2, &w, &b), o2), self.tracked_output(x2, o2, fused_op, t)]
                    flattened(x1, x2) && fused.ensures((&x2, &w, &b), o2) && self.tracked_output(
                        x2,
                        o2,
                        fused_op,
                        t,
                    ) && if unflattenable(t, x1.shape@[0], x1.shape@[1], w) {
                        out is Some && unflattened(t, x1.shape@[0], x1.shape@[1], out->0)
                    } else {
                        out is None
                    }
            }
        } else {
            exists|o2: Tensor<S, O>, t: Tensor<S, O>|
                #![trigger fused.ensures((&x1, &w, &b), o2), self.tracked_output(x1, o2, fused_op, t)]
                fused.ensures((&x1, &w, &b), o2) && self.tracked_output(x1, o2, fused_op, t)
                    && out == Some(t)
        }
    }

    /// What `forward` returns for `x`: computed with the compute operands `w`,
    /// `b` of weight and bias, on `x` moved to the weight's device.
    pub open spec fn forward_result<U, X, F, M, MM, AD>(
        self,
        x: Tensor<S, O>,
        upcast: U,
        move_storage: X,
        fused: F,
        fused_op: M,
        matmul: MM,
        plus: AD,
        out: Option<Tensor<S, O>>,
    ) -> bool where
        U: Fn(&Tensor<S, O>) -> Tensor<S, O>,
        X: Fn(&Tensor<S, O>, Device) -> Arc<S>,
        F: Fn(&Tensor<S, O>, &Tensor<S, O>, &Tensor<S, O>) -> Tensor<S, O>,
        M: Fn(FusedLinearOp<S, O>) -> Arc<O>,
        MM: Fn(&Tensor<S, O>, &Tensor<S, O>) -> Tensor<S, O>,
        AD: Fn(&Tensor<S, O>, &Tensor<S, O>) -> Tensor<S, O>,
    {
        exists|w: Tensor<S, O>, b: Tensor<S, O>, mx: Option<Tensor<S, O>>|
            #![trigger compute_operand(self.weight, upcast, w), compute_operand(self.bias, upcast, b), moved(x, w.device, move_storage, mx)]
            {
                &&& compute_operand(self.weight, upcast, w)
                &&& compute_operand(self.bias, upcast, b)
                &&& moved(x, w.device, move_storage, mx)
                &&& self.computed_with(w, b, mx, fused, fused_op, matmul, plus, out)
            }
    }

    /// What `forward` returns once the operands `w`, `b` and the moved input
    /// `mx` are known: the fused path when all three live on the GPU, the
    /// host's `plus(matmul(x, w), b)` otherwise; `None` without a moved input.
    pub open spec fn computed_with<F, M, MM, AD>(
        self,
        w: Tensor<S, O>,
        b: Tensor<S, O>,
        mx: Option<Tensor<S, O>>,
        fused: F,
        fused_op: M,
        matmul: MM,
        plus: AD,
        out: Option<Tensor<S, O>>,
    ) -> bool where
        F: Fn(&Tensor<S, O>, &Tensor<S, O>, &Tensor<S, O>) -> Tensor<S, O>,
        M: Fn(FusedLinearOp<S, O>) -> Arc<O>,
        MM: Fn(&Tensor<S, O>, &Tensor<S, O>) -> Tensor<S, O>,
        AD: Fn(&Tensor<S, O>, &Tensor<S, O>) -> Tensor<S, O>,
    {
        match mx {
            None => out is None,
            Some(x1) => if x1.device is Gpu && w.device is Gpu && b.device is Gpu {
                self.fused_result(x1, w, b, fused, fused_op, out)
            } else {
                &&& out is Some
                &&& exists|m: Tensor<S, O>|
                    #[trigger] matmul.ensures((&x1, &w), m) && plus.ensures((&m, &b), out->0)
            },
        }
    }

    /// `y = x W + b`. Bf16 parameters are upcast to f32 for the computation
    /// (`upcast`), and `x` is moved to the weight's device (`moved_to`, with
    /// storage made there by `move_storage`). When
    /// input, weight and bias all live on the GPU, the fused shader (`fused`,
    /// which applies a ReLU to `x W + b`, as the record's backward rule
    /// assumes) computes the result on `x` flattened to a matrix, the output is recorded
    /// in the autograd graph against the layer's own parameters (`fused_op` wraps
    /// the record), and it is reshaped to the input's leading dimensions;
    /// otherwise the CPU computes `plus(matmul(x, W), b)`. The result is `None`
    /// only where `x` cannot be laid out contiguously on the weight's device or
    /// the fused path cannot reshape the layout at hand.
    pub fn forward<U, X, F, M, MM, AD>(
        &self,
        x: &Tensor<S, O>,
        upcast: &U,
        move_storage: &X,
        fused: &F,
        fused_op: &M,
        matmul: &MM,
        plus: &AD,
    ) -> (out: Option<Tensor<S, O>>) where
        U: Fn(&Tensor<S, O>) -> Tensor<S, O>,
        X: Fn(&Tensor<S, O>, Device) -> Arc<S>,
        F: Fn(&Tensor<S, O>, &Tensor<S, O>, &Tensor<S, O>) -> Tensor<S, O>,
        M: Fn(FusedLinearOp<S, O>) -> Arc<O>,
        MM: Fn(&Tensor<S, O>, &Tensor<S, O>) -> Tensor<S, O>,
        AD: Fn(&Tensor<S, O>, &Tensor<S, O>) -> Tensor<S, O>,

        requires
            forall|t: &Tensor<S, O>| #[trigger] upcast.requires((t,)),
            forall|t: &Tensor<S, O>, d: Device| #[trigger] move_storage.requires((t, d)),
            forall|a: &Tensor<S, O>, b: &Tensor<S, O>, c: &Tensor<S, O>| #[trigger]
                fused.requires((a, b, c)),
            forall|r: FusedLinearOp<S, O>| #[trigger] fused_op.requires((r,)),
            forall|a: &Tensor<S, O>, b: &Tensor<S, O>| #[trigger] matmul.requires((a, b)),
            forall|a: &Tensor<S, O>, b: &Tensor<S, O>| #[trigger] plus.requires((a, b)),
        ensures
            self.forward_result(*x, *upcast, *move_storage, *fused, *fused_op, *matmul, *plus, out),
    {
        let w = if self.weight.dtype == DType::BF16 {
            upcast(&self.weight)
        } else {
            self.weight.clone()
        };
        let b = if self.bias.dtype == DType::BF16 {
            upcast(&self.bias)
        } else {
            self.bias.clone()
        };
        let mx = x.moved_to(w.device, move_storage);
        let ghost g = mx;
        let out = match mx {
            None => None,
            Some(x1) => {
                if x1.device.is_gpu() && w.device.is_gpu() && b.device.is_gpu() {
                    self.fused_forward(&x1, &w, &b, fused, fused_op)
                } else {
                    let m = matmul(&x1, &w);
                    let r = plus(&m, &b);
                    assert(matmul.ensures((&x1, &w), m) && plus.ensures((&m, &b), r));
                    Some(r)
                }
            },
        };
        assert(compute_operand(self.weight, *upcast, w) && compute_operand(self.bias, *upcast, b)
            && moved(*x, w.device, *move_storage, g) && self.computed_with(
            w,
            b,
            g,
            *fused,
            *fused_op,
            *matmul,
            *plus,
            out,
        ));
        out
    }

    /// The fused GPU path of `forward`, on the input `x1` already on the
    /// weights' device and the compute operands `w`, `b`.
    pub fn fused_forward<F, M>(
        &self,
        x1: &Tensor<S, O>,
        w: &Tensor<S, O>,
        b: &Tensor<S, O>,
        fused: &F,
        fused_op: &M,
    ) -> (out: Option<Tensor<S, O>>) where
        F: Fn(&Tensor<S, O>, &Tensor<S, O>, &Tensor<S, O>) -> Tensor<S, O>,
        M: Fn(FusedLinearOp<S, O>) -> Arc<O>,

        requires
            forall|a: &Tensor<S, O>, b: &Tensor<S, O>, c: &Tensor<S, O>| #[trigger]
                fused.requires((a, b, c)),
            forall|r: FusedLinearOp<S, O>| #[trigger] fused_op.requires((r,)),
        ensures
            self.fused_result(*x1, *w, *b, *fused, *fused_op, out),
    {
        if x1.rank() == 3 {
            let ok = x1.check_contiguous() && x1.shape.checked_num_elements().is_some()
                && x1.shape.dims()[2] <= isize::MAX as usize;
            if !ok {
                return None;
            }
            let batch = x1.shape.dims()[0];
            let seq = x1.shape.dims()[1];
            let x2 = Self::flatten_input(x1);
            let o2 = fused(&x2, w, b);
            let t = self.track_fused(&x2, o2, fused_op);
            let ghost o2g = o2;
            let fits = t.rank() == 2 && t.check_contiguous() && t.shape.checked_num_elements().is_some()
                && w.rank() >= 2;
            let out = if fits && t.shape.dims()[1] == w.shape.dims()[1] {
                let n = t.shape.dims()[1];
                match seq.checked_mul(n) {
                    Some(sn) => {
                        proof {
                            lemma_shape3(batch, seq, x1.shape@[2]);
                            assert(x1.shape@.take(2) =~= seq![batch, seq]);
                            lemma_shape2(batch, seq);
                        }
                        if sn <= isize::MAX as usize && t.shape.dims()[0] == batch * seq {
                            Some(Self::unflatten_output(&t, batch, seq))
                        } else {
                            None
                        }
                    },
                    None => None,
                }
            } else {
                None
            };
            proof {
                assert(x1.shape@.take(2) =~= seq![batch, seq]);
                lemma_shape2(batch, seq);
                assert(flattened(*x1, x2));
                assert(self.tracked_output(x2, o2g, *fused_op, t));
            }
            out
        } else {
            let o2 = fused(x1, w, b);
            let ghost o2g = o2;
            let t = self.track_fused(x1, o2, fused_op);
            assert(self.tracked_output(*x1, o2g, *fused_op, t));
            Some(t)
        }
    }

    /// Flattens a contiguous `[batch, seq, hidden]` input to
    /// `[batch * seq, hidden]` for the fused shader.
    pub fn flatten_input(x: &Tensor<S, O>) -> (x_2d: Tensor<S, O>)
        requires
            flattenable(*x),
        ensures
            flattened(*x, x_2d),
    {
        let d = x.shape.dims();
        let b = d[0];
        let s = d[1];
        let h = d[2];
        proof {
            lemma_shape2(b, s);
            assert(x.shape@.take(2) =~= seq![b, s]);
        }
        let mut dims: Vec<usize> = Vec::new();
        dims.push(b * s);
        dims.push(h);
        let flat = Shape::new(dims);
        proof {
            lemma_shape2((b * s) as usize, h);
            lemma_shape3(b, s, h);
            assert(x.shape@ =~= seq![b, s, h]);
            assert(x.shape@.take(3) =~= x.shape@);
            assert(shape_size(x.shape@) <= usize::MAX);
            let a = (b * s) as usize;
            assert(a * h == b * s * h) by (nonlinear_arith)
                requires
                    a == b * s,
            ;
            assert(size_fits(seq![a, h]));
            assert(flat@ =~= seq![a, h]);
        }
        x.view(flat)
    }

    /// Records the fused shader's output in the autograd graph when gradients
    /// flow through any operand: its node's operation is what `fused_op` makes
    /// of the record of the flattened input, the weight and the bias, and its
    /// parents are those three tensors.
    pub fn track_fused<M: Fn(FusedLinearOp<S, O>) -> Arc<O>>(
        &self,
        x_2d: &Tensor<S, O>,
        out_2d: Tensor<S, O>,
        fused_op: &M,
    ) -> (out: Tensor<S, O>)
        requires
            forall|r: FusedLinearOp<S, O>| #[trigger] fused_op.requires((r,)),
        ensures
            self.tracked_output(*x_2d, out_2d, *fused_op, out),
    {
        if x_2d.requires_grad || self.weight.requires_grad || self.bias.requires_grad {
            let rec = FusedLinearOp { x: x_2d.clone(), w: self.weight.clone(), bias: self.bias.clone() };
            let ghost g = rec;
            let op = fused_op(rec);
            let mut parents: Vec<Tensor<S, O>> = Vec::new();
            parents.push(x_2d.clone());
            parents.push(self.weight.clone());
            parents.push(self.bias.clone());
            let out = out_2d.with_node(op, parents);
            assert(same_tensor(g.x, *x_2d) && same_tensor(g.w, self.weight) && same_tensor(
                g.bias,
                self.bias,
            ) && fused_op.ensures((g,), out.node->0.op));
            out
        } else {
            out_2d
        }
    }

    /// Reshapes the fused shader's `[batch * seq, out]` output back to
    /// `[batch, seq, out]`.
    pub fn unflatten_output(out_2d: &Tensor<S, O>, batch: usize, seq: usize) -> (out: Tensor<S, O>)
        requires
            out_2d.shape@.len() == 2,
            out_2d.is_contiguous(),
            size_fits(out_2d.shape@),
            out_2d.shape@[0] == batch * seq,
            seq * out_2d.shape@[1] <= isize::MAX,
        ensures
            unflattened(*out_2d, batch, seq, out),
    {
        let n = out_2d.shape.dims()[1];
        let mut dims: Vec<usize> = Vec::new();
        dims.push(batch);
        dims.push(seq);
        dims.push(n);
        let shape = Shape::new(dims);
        proof {
            lemma_shape2((batch * seq) as usize, n);
            lemma_shape3(batch, seq, n);
            assert(out_2d.shape@ =~= seq![(batch * seq) as usize, n]);
            assert(out_2d.shape@.take(2) =~= out_2d.shape@);
            assert(shape_size(out_2d.shape@) <= usize::MAX);
            let a = (batch * seq) as usize;
            assert(a * n == batch * seq * n) by (nonlinear_arith)
                requires
                    a == batch * seq,
            ;
            assert(size_fits(seq![batch, seq, n]));
            assert(shape@ =~= seq![batch, seq, n]);
            assert(out_2d.shape@.subrange(1, 2) =~= seq![n]);
            crate::shape::lemma_size_single(n);
            assert(row_major_strides(out_2d.shape@)[0] == n);
            assert(isize_ints(out_2d.strides@)[0] == n);
            assert(isize_ints(out_2d.strides@).len() == 2);
            assert(isize_ints(out_2d.strides@)[0] == out_2d.strides@[0] as int);
            assert(n <= isize::MAX);
            assert(batch * seq * n == (batch * seq) * n);
            assert(seq * n <= isize::MAX);
            if seq > 0 {
                assert(n <= seq * n) by (nonlinear_arith)
                    requires
                        seq > 0,
                ;
            }
        }
        out_2d.view(shape)
    }
}

/// `a` and `b` hold the same elements in the same place and layout: element
/// type, shape, strides, storage, offset and device agree.
pub open spec fn same_data<S, O: ?Sized>(a: Tensor<S, O>, b: Tensor<S, O>) -> bool {
    &&& a.dtype == b.dtype
    &&& a.shape@ == b.shape@
    &&& a.strides@ == b.strides@
    &&& a.storage == b.storage
    &&& a.byte_offset == b.byte_offset
    &&& a.device == b.device
}

/// `f` computes one result from one argument.
pub open spec fn unary_function<S, O: ?Sized, U: Fn(&Tensor<S, O>) -> Tensor<S, O>>(f: U) -> bool {
    forall|a: Tensor<S, O>, r1: Tensor<S, O>, r2: Tensor<S, O>|
        #![trigger f.ensures((&a,), r1), f.ensures((&a,), r2)]
        f.ensures((&a,), r1) && f.ensures((&a,), r2) ==> r1 == r2
}

/// `f` makes one storage for one tensor and device.
pub open spec fn storage_function<S, O: ?Sized, X: Fn(&Tensor<S, O>, Device) -> Arc<S>>(f: X) -> bool {
    forall|a: Tensor<S, O>, d: Device, r1: Arc<S>, r2: Arc<S>|
        #![trigger f.ensures((&a, d), r1), f.ensures((&a, d), r2)]
        f.ensures((&a, d), r1) && f.ensures((&a, d), r2) ==> r1 == r2
}

/// `f` gives results with the same data for operands with the same data.
pub open spec fn keeps_data2<S, O: ?Sized, F: Fn(&Tensor<S, O>, &Tensor<S, O>) -> Tensor<S, O>>(f: F) -> bool {
    forall|a1: Tensor<S, O>, b1: Tensor<S, O>, a2: Tensor<S, O>, b2: Tensor<S, O>, r1: Tensor<S, O>, r2: Tensor<S, O>|
        #![trigger f.ensures((&a1, &b1), r1), f.ensures((&a2, &b2), r2)]
        same_data(a1, a2) && same_data(b1, b2) && f.ensures((&a1, &b1), r1) && f.ensures((&a2, &b2), r2)
            ==> same_data(r1, r2)
}

/// `f` gives results with the same data for operands with the same data.
pub open spec fn keeps_data3<
    S,
    O: ?Sized,
    F: Fn(&Tensor<S, O>, &Tensor<S, O>, &Tensor<S, O>) -> Tensor<S, O>,
>(f: F) -> bool {
    forall|
        a1: Tensor<S, O>,
        b1: Tensor<S, O>,
        c1: Tensor<S, O>,
        a2: Tensor<S, O>,
        b2: Tensor<S, O>,
        c2: Tensor<S, O>,
        r1: Tensor<S, O>,
        r2: Tensor<S, O>,
    |
        #![trigger f.ensures((&a1, &b1, &c1), r1), f.ensures((&a2, &b2, &c2), r2)]
        same_data(a1, a2) && same_data(b1, b2) && same_data(c1, c2) && f.ensures(
            (&a1, &b1, &c1),
            r1,
        ) && f.ensures((&a2, &b2, &c2), r2) ==> same_data(r1, r2)
}

impl<S, O: ?Sized> Linear<S, O> {
    /// The operation recorded on the fused output is built from the layer's
    /// own parameters: when gradients flow, the output's node records the
    /// flattened input, the layer's weight and the layer's bias (the tensors
    /// whose gradients backpropagation computes), and lists them as its
    /// parents; the output keeps the shader's data.
    pub proof fn lemma_fused_record_uses_parameters<M: Fn(FusedLinearOp<S, O>) -> Arc<O>>(
        self,
        x_2d: Tensor<S, O>,
        out_2d: Tensor<S, O>,
        fused_op: M,
        r: Tensor<S, O>,
    )
        requires
            self.tracked_output(x_2d, out_2d, fused_op, r),
        ensures
            r.shape@ == out_2d.shape@,
            r.storage == out_2d.storage,
            r.byte_offset == out_2d.byte_offset,
            !(x_2d.requires_grad || self.weight.requires_grad || self.bias.requires_grad) ==> r
                == out_2d,
            x_2d.requires_grad || self.weight.requires_grad || self.bias.requires_grad ==> {
                &&& r.requires_grad
                &&& r.node is Some
                &&& exists|rec: FusedLinearOp<S, O>|
                    #[trigger] fused_op.ensures((rec,), r.node->0.op) && rec.x.id == x_2d.id
                        && rec.x.shape@ == x_2d.shape@ && rec.x.storage == x_2d.storage && rec.w.id
                        == self.weight.id && rec.w.dtype == self.weight.dtype && rec.w.storage
                        == self.weight.storage && rec.bias.id == self.bias.id && rec.bias.shape@
                        == self.bias.shape@ && rec.bias.storage == self.bias.storage
                &&& r.node->0.parents@.len() == 3
                &&& r.node->0.parents@[0].id == x_2d.id
                &&& r.node->0.parents@[0].shape@ == x_2d.shape@
                &&& r.node->0.parents@[1].id == self.weight.id
                &&& r.node->0.parents@[1].storage == self.weight.storage
                &&& r.node->0.parents@[2].id == self.bias.id
                &&& r.node->0.parents@[2].storage == self.bias.storage
            },
    {
    }
}

/// Flattening keeps the elements: the `[batch, seq, hidden]` input seen as a
/// matrix has one row per token and the token's features as its columns, and
/// its element `k` (row-major) is the input's element `k`.
pub proof fn lemma_flattened_elements<S, O: ?Sized>(x: Tensor<S, O>, r: Tensor<S, O>, k: int)
    requires
        flattenable(x),
        flattened(x, r),
        0 <= k < shape_size(x.shape@),
    ensures
        r.shape@.len() == 2,
        r.shape@[1] == x.shape@[2],
        shape_size(r.shape@) == shape_size(x.shape@),
        r.storage == x.storage,
        r.byte_offset == x.byte_offset,
        view_offset(r.shape@, r.strides@, k) == view_offset(x.shape@, x.strides@, k),
{
    let (a, b, c) = (x.shape@[0], x.shape@[1], x.shape@[2]);
    assert(x.shape@ =~= seq![a, b, c]);
    lemma_shape3(a, b, c);
    assert(x.shape@.take(2) =~= seq![a, b]);
    lemma_shape2(a, b);
    let ab = (a * b) as usize;
    lemma_shape2(ab, c);
    assert(ab * c == a * b * c) by (nonlinear_arith)
        requires
            ab == a * b,
    ;
    crate::shape::lemma_row_major_identity(x.shape@, k);
    crate::shape::lemma_row_major_identity(r.shape@, k);
}

/// Reshaping the fused output back keeps the elements: the matrix seen as
/// `[batch, seq, n]` has the same number of elements, and its element `k`
/// (row-major) is the matrix's element `k`.
pub proof fn lemma_unflattened_elements<S, O: ?Sized>(
    t: Tensor<S, O>,
    batch: usize,
    seq: usize,
    w: Tensor<S, O>,
    r: Tensor<S, O>,
    k: int,
)
    requires
        unflattenable(t, batch, seq, w),
        unflattened(t, batch, seq, r),
        0 <= k < shape_size(t.shape@),
    ensures
        r.shape@ == seq![batch, seq, t.shape@[1]],
        shape_size(r.shape@) == shape_size(t.shape@),
        r.storage == t.storage,
        r.byte_offset == t.byte_offset,
        view_offset(r.shape@, r.strides@, k) == view_offset(t.shape@, t.strides@, k),
{
    let n = t.shape@[1];
    assert(t.shape@ =~= seq![t.shape@[0], n]);
    lemma_shape2(t.shape@[0], n);
    lemma_shape3(batch, seq, n);
    crate::shape::lemma_row_major_identity(t.shape@, k);
    crate::shape::lemma_row_major_identity(r.shape@, k);
}

/// Contiguous tensors of one shape have the same strides.
proof fn lemma_contiguous_strides<S, O: ?Sized>(a: Tensor<S, O>, b: Tensor<S, O>)
    requires
        a.is_contiguous(),
        b.is_contiguous(),
        a.shape@ == b.shape@,
    ensures
        a.strides@ == b.strides@,
{
    assert(isize_ints(a.strides@) == isize_ints(b.strides@));
    assert(a.strides@.len() == isize_ints(a.strides@).len());
    assert forall|i: int| 0 <= i < a.strides@.len() implies a.strides@[i] == b.strides@[i] by {
        assert(isize_ints(a.strides@)[i] == a.strides@[i] as int);
        assert(isize_ints(b.strides@)[i] == b.strides@[i] as int);
    }
    assert(a.strides@ =~= b.strides@);
}

/// Moving one tensor to one device twice gives the same data.
proof fn lemma_moved_agree<S, O: ?Sized, X: Fn(&Tensor<S, O>, Device) -> Arc<S>>(
    x: Tensor<S, O>,
    d: Device,
    move_storage: X,
    m1: Option<Tensor<S, O>>,
    m2: Option<Tensor<S, O>>,
)
    requires
        storage_function(move_storage),
        moved(x, d, move_storage, m1),
        moved(x, d, move_storage, m2),
    ensures
        m1 is Some <==> m2 is Some,
        m1 is Some ==> same_data(m1->0, m2->0),
{
    if !same_place(x.device, d) && row_major_fits(x.shape@) {
        lemma_contiguous_strides(m1->0, m2->0);
    }
}

impl<S, O: ?Sized> Linear<S, O> {
    /// The fused paths of two layers agree on the data of their results when
    /// their inputs and operands hold the same data.
    proof fn lemma_fused_agree<F, M1, M2>(
        self,
        other: Self,
        x1: Tensor<S, O>,
        w1: Tensor<S, O>,
        b1: Tensor<S, O>,
        x2: Tensor<S, O>,
        w2: Tensor<S, O>,
        b2: Tensor<S, O>,
        fused: F,
        op1: M1,
        op2: M2,
        out1: Option<Tensor<S, O>>,
        out2: Option<Tensor<S, O>>,
    ) where
        F: Fn(&Tensor<S, O>, &Tensor<S, O>, &Tensor<S, O>) -> Tensor<S, O>,
        M1: Fn(FusedLinearOp<S, O>) -> Arc<O>,
        M2: Fn(FusedLinearOp<S, O>) -> Arc<O>,

        requires
            keeps_data3(fused),
            same_data(x1, x2),
            same_data(w1, w2),
            same_data(b1, b2),
            self.fused_result(x1, w1, b1, fused, op1, out1),
            other.fused_result(x2, w2, b2, fused, op2, out2),
        ensures
            out1 is Some <==> out2 is Some,
            out1 is Some ==> same_data(out1->0, out2->0),
    {
        if x1.shape@.len() == 3 {
            if flattenable(x1) {
                let (f1, o1, t1) = choose|xf: Tensor<S, O>, o: Tensor<S, O>, t: Tensor<S, O>|
                    #![trigger fused.ensures((&xf, &w1, &b1), o), self.tracked_output(xf, o, op1, t)]
                    flattened(x1, xf) && fused.ensures((&xf, &w1, &b1), o) && self.tracked_output(
                        xf,
                        o,
                        op1,
                        t,
                    ) && if unflattenable(t, x1.shape@[0], x1.shape@[1], w1) {
                        out1 is Some && unflattened(t, x1.shape@[0], x1.shape@[1], out1->0)
                    } else {
                        out1 is None
                    };
                let (f2, o2, t2) = choose|xf: Tensor<S, O>, o: Tensor<S, O>, t: Tensor<S, O>|
                    #![trigger fused.ensures((&xf, &w2, &b2), o), other.tracked_output(xf, o, op2, t)]
                    flattened(x2, xf) && fused.ensures((&xf, &w2, &b2), o) && other.tracked_output(
                        xf,
                        o,
                        op2,
                        t,
                    ) && if unflattenable(t, x2.shape@[0], x2.shape@[1], w2) {
                        out2 is Some && unflattened(t, x2.shape@[0], x2.shape@[1], out2->0)
                    } else {
                        out2 is None
                    };
                lemma_contiguous_strides(f1, f2);
                assert(same_data(f1, f2));
                assert(same_data(o1, o2));
                assert(same_data(t1, t2));
                if out1 is Some && out2 is Some {
                    lemma_contiguous_strides(out1->0, out2->0);
                }
            }
        } else {
            let (o1, t1) = choose|o: Tensor<S, O>, t: Tensor<S, O>|
                #![trigger fused.ensures((&x1, &w1, &b1), o), self.tracked_output(x1, o, op1, t)]
                fused.ensures((&x1, &w1, &b1), o) && self.tracked_output(x1, o, op1, t) && out1
                    == Some(t);
            let (o2, t2) = choose|o: Tensor<S, O>, t: Tensor<S, O>|
                #![trigger fused.ensures((&x2, &w2, &b2), o), other.tracked_output(x2, o, op2, t)]
                fused.ensures((&x2, &w2, &b2), o) && other.tracked_output(x2, o, op2, t) && out2
                    == Some(t);
            assert(same_data(o1, o2));
        }
    }
}

/// JIT autocast: a layer with bf16 parameters computes what the layer holding
/// their f32 upcasts computes: both return a result or neither, and the
/// results hold the same data (element type, shape, layout, storage, device),
/// when the runtime's upcast and storage moves are functions and its kernels
/// give the same data for operands with the same data. Only the graph records
/// differ: each names its own layer's parameters.
pub proof fn lemma_autocast_result<S, O: ?Sized, U, X, F, M1, M2, MM, AD>(
    lin: Linear<S, O>,
    lin32: Linear<S, O>,
    x: Tensor<S, O>,
    upcast: U,
    move_storage: X,
    fused: F,
    op1: M1,
    op2: M2,
    matmul: MM,
    plus: AD,
    out1: Option<Tensor<S, O>>,
    out2: Option<Tensor<S, O>>,
) where
    U: Fn(&Tensor<S, O>) -> Tensor<S, O>,
    X: Fn(&Tensor<S, O>, Device) -> Arc<S>,
    F: Fn(&Tensor<S, O>, &Tensor<S, O>, &Tensor<S, O>) -> Tensor<S, O>,
    M1: Fn(FusedLinearOp<S, O>) -> Arc<O>,
    M2: Fn(FusedLinearOp<S, O>) -> Arc<O>,
    MM: Fn(&Tensor<S, O>, &Tensor<S, O>) -> Tensor<S, O>,
    AD: Fn(&Tensor<S, O>, &Tensor<S, O>) -> Tensor<S, O>,

    requires
        lin.weight.dtype == DType::BF16 ==> upcast.ensures((&lin.weight,), lin32.weight)
            && lin32.weight.dtype == DType::F32,
        lin.weight.dtype != DType::BF16 ==> lin32.weight == lin.weight,
        lin.bias.dtype == DType::BF16 ==> upcast.ensures((&lin.bias,), lin32.bias)
            && lin32.bias.dtype == DType::F32,
        lin.bias.dtype != DType::BF16 ==> lin32.bias == lin.bias,
        unary_function(upcast),
        storage_function(move_storage),
        keeps_data3(fused),
        keeps_data2(matmul),
        keeps_data2(plus),
        lin.forward_result(x, upcast, move_storage, fused, op1, matmul, plus, out1),
        lin32.forward_result(x, upcast, move_storage, fused, op2, matmul, plus, out2),
    ensures
        out1 is Some <==> out2 is Some,
        out1 is Some ==> same_data(out1->0, out2->0),
{
    let (w1, b1, m1) = choose|w: Tensor<S, O>, b: Tensor<S, O>, mx: Option<Tensor<S, O>>|
        #![trigger compute_operand(lin.weight, upcast, w), compute_operand(lin.bias, upcast, b), moved(x, w.device, move_storage, mx)]
        {
            &&& compute_operand(lin.weight, upcast, w)
            &&& compute_operand(lin.bias, upcast, b)
            &&& moved(x, w.device, move_storage, mx)
            &&& lin.computed_with(w, b, mx, fused, op1, matmul, plus, out1)
        };
    let (w2, b2, m2) = choose|w: Tensor<S, O>, b: Tensor<S, O>, mx: Option<Tensor<S, O>>|
        #![trigger compute_operand(lin32.weight, upcast, w), compute_operand(lin32.bias, upcast, b), moved(x, w.device, move_storage, mx)]
        {
            &&& compute_operand(lin32.weight, upcast, w)
            &&& compute_operand(lin32.bias, upcast, b)
            &&& moved(x, w.device, move_storage, mx)
            &&& lin32.computed_with(w, b, mx, fused, op2, matmul, plus, out2)
        };
    assert(same_data(w1, w2));
    assert(same_data(b1, b2));
    lemma_moved_agree(x, w1.device, move_storage, m1, m2);
    if m1 is Some {
        let x1 = m1->0;
        let x2 = m2->0;
        if x1.device is Gpu && w1.device is Gpu && b1.device is Gpu {
            lin.lemma_fused_agree(lin32, x1, w1, b1, x2, w2, b2, fused, op1, op2, out1, out2);
        } else {
            let p1 = choose|m: Tensor<S, O>|
                #[trigger] matmul.ensures((&x1, &w1), m) && plus.ensures((&m, &b1), out1->0);
            let p2 = choose|m: Tensor<S, O>|
                #[trigger] matmul.ensures((&x2, &w2), m) && plus.ensures((&m, &b2), out2->0);
            assert(same_data(p1, p2));
        }
    }
}

/// Facts on two-dimensional shapes.
pub proof fn lemma_shape2(a: usize, b: usize)
    ensures
        shape_size(seq![a, b]) == a * b,
        seq![a, b].subrange(1, 2) =~= seq![b],
        seq![a, b].subrange(2, 2) =~= Seq::<usize>::empty(),
        b <= isize::MAX ==> row_major_fits(seq![a, b]),
        a * b <= usize::MAX ==> size_fits(seq![a, b]),
{
    let s = seq![a, b];
    assert(s.drop_last() =~= seq![a]);
    crate::shape::lemma_size_single(a);
    crate::shape::lemma_size_single(b);
    assert(s.subrange(1, 2) =~= seq![b]);
    assert(s.take(0) =~= Seq::<usize>::empty());
    assert(s.take(1) =~= seq![a]);
    assert(s.take(2) =~= s);
    assert(shape_size(Seq::<usize>::empty()) == 1);
    if a * b <= usize::MAX {
        assert(a <= usize::MAX);
        assert forall|i: int| 0 <= i <= 2 implies #[trigger] shape_size(s.take(i)) <= usize::MAX by {
        }
    }
    if b <= isize::MAX {
        assert forall|d: int| 1 <= d <= 2 implies #[trigger] shape_size(s.subrange(d, 2))
            <= isize::MAX by {
            if d == 2 {
                assert(s.subrange(2, 2) =~= Seq::<usize>::empty());
                assert(shape_size(Seq::<usize>::empty()) == 1);
            }
        }
    }
}

/// Facts on three-dimensional shapes.
pub proof fn lemma_shape3(a: usize, b: usize, c: usize)
    ensures
        shape_size(seq![a, b, c]) == a * b * c,
        b * c <= isize::MAX && c <= isize::MAX ==> row_major_fits(seq![a, b, c]),
        a * b * c <= usize::MAX && a * b <= usize::MAX ==> size_fits(seq![a, b, c]),
{
    let s = seq![a, b, c];
    assert(s.drop_last() =~= seq![a, b]);
    lemma_shape2(a, b);
    lemma_shape2(b, c);
    crate::shape::lemma_size_single(c);
    if a * b * c <= usize::MAX && a * b <= usize::MAX {
        assert(s.take(3) =~= s);
        assert(s.take(2) =~= seq![a, b]);
        assert(s.take(1) =~= seq![a]);
        assert(s.take(0) =~= Seq::<usize>::empty());
        crate::shape::lemma_size_single(a);
        assert(shape_size(Seq::<usize>::empty()) == 1);
        assert forall|i: int| 0 <= i <= 3 implies #[trigger] shape_size(s.take(i)) <= usize::MAX by {
        }
    }
    if b * c <= isize::MAX && c <= isize::MAX {
        assert forall|d: int| 1 <= d <= 3 implies #[trigger] shape_size(s.subrange(d, 3))
            <= isize::MAX by {
            if d == 1 {
                assert(s.subrange(1, 3) =~= seq![b, c]);
            } else if d == 2 {
                assert(s.subrange(2, 3) =~= seq![c]);
            } else {
                assert(s.subrange(3, 3) =~= Seq::<usize>::empty());
                assert(shape_size(Seq::<usize>::empty()) == 1);
            }
        }
    }
}

/// `x` is the value of feature `i` at position `pos` of a sinusoidal encoding:
/// the sine (`wave`'s first value) for an even feature, the cosine (its second
/// value) for an odd one, both taken at the feature pair's even index.
pub open spec fn encodes<T, W: Fn(usize, usize) -> (T, T)>(x: T, wave: W, pos: int, i: int) -> bool {
    exists|v: (T, T)|
        #[trigger] wave.ensures((pos as usize, (i - i % 2) as usize), v) && x == if i % 2 == 0 {
            v.0
        } else {
            v.1
        }
}

/// The table of a positional encoding of `batch * max_seq_len` tokens of
/// `hidden_dim` features, token after token: entry `j` is feature
/// `j % hidden_dim` of the token at position `(j / hidden_dim) % max_seq_len`.
pub open spec fn is_encoding_table<T, W: Fn(usize, usize) -> (T, T)>(
    table: Seq<T>,
    batch: nat,
    max_seq_len: nat,
    hidden_dim: nat,
    wave: W,
) -> bool {
    &&& table.len() == batch * max_seq_len * hidden_dim
    &&& forall|j: int|
        0 <= j < table.len() ==> encodes(
            #[trigger] table[j],
            wave,
            (j / hidden_dim as int) % max_seq_len as int,
            j % hidden_dim as int,
        )
}

/// Entry `(b * max_seq_len + pos) * hidden_dim + i` of the table is feature
/// `i` of position `pos`, whatever the batch entry `b`.
pub proof fn lemma_table_index(b: int, pos: int, i: int, max_seq_len: int, hidden_dim: int)
    requires
        0 <= b,
        0 <= pos < max_seq_len,
        0 <= i < hidden_dim,
    ensures
        ((b * max_seq_len + pos) * hidden_dim + i) / hidden_dim == b * max_seq_len + pos,
        ((b * max_seq_len + pos) * hidden_dim + i) % hidden_dim == i,
        (b * max_seq_len + pos) % max_seq_len == pos,
{
    let r = b * max_seq_len + pos;
    assert(r >= 0) by (nonlinear_arith)
        requires
            0 <= b,
            0 <= pos,
            max_seq_len > 0,
            r == b * max_seq_len + pos,
    ;
    vstd::arithmetic::div_mod::lemma_fundamental_div_mod_converse(
        r * hidden_dim + i,
        hidden_dim,
        r,
        i,
    );
    vstd::arithmetic::div_mod::lemma_fundamental_div_mod_converse(r, max_seq_len, b, pos);
}

/// Fills the positional-encoding table: `wave(pos, i)` gives the sine and
/// cosine of position `pos` at the frequency of feature pair `i`.
pub fn encoding_table<T: Copy, W: Fn(usize, usize) -> (T, T)>(
    batch: usize,
    max_seq_len: usize,
    hidden_dim: usize,
    wave: &W,
) -> (table: Vec<T>)
    requires
        batch * max_seq_len * hidden_dim <= usize::MAX,
        forall|pos: usize, i: usize| #[trigger] wave.requires((pos, i)),
    ensures
        is_encoding_table(table@, batch as nat, max_seq_len as nat, hidden_dim as nat, *wave),
{
    let total: usize = if hidden_dim == 0 || max_seq_len == 0 {
        0
    } else {
        proof {
            assert(batch * max_seq_len <= batch * max_seq_len * hidden_dim) by (nonlinear_arith)
                requires
                    hidden_dim > 0,
            ;
        }
        batch * max_seq_len * hidden_dim
    };
    proof {
        assert(total == batch * max_seq_len * hidden_dim) by (nonlinear_arith)
            requires
                hidden_dim == 0 || max_seq_len == 0 ==> total == 0,
                !(hidden_dim == 0 || max_seq_len == 0) ==> total == batch * max_seq_len
                    * hidden_dim,
        ;
    }
    let mut table: Vec<T> = Vec::new();
    let mut k: usize = 0;
    while k < total
        invariant
            k <= total,
            total == batch * max_seq_len * hidden_dim,
            total > 0 ==> hidden_dim > 0 && max_seq_len > 0,
            table@.len() == k,
            forall|pos: usize, i: usize| #[trigger] wave.requires((pos, i)),
            forall|j: int|
                0 <= j < k ==> encodes(
                    #[trigger] table@[j],
                    *wave,
                    (j / hidden_dim as int) % max_seq_len as int,
                    j % hidden_dim as int,
                ),
        decreases total - k,
    {
        let i = k % hidden_dim;
        let pos = (k / hidden_dim) % max_seq_len;
        let v = wave(pos, i - i % 2);
        let x = if i % 2 == 0 {
            v.0
        } else {
            v.1
        };
        proof {
            assert(encodes(
                x,
                *wave,
                (k as int / hidden_dim as int) % max_seq_len as int,
                k as int % hidden_dim as int,
            ));
        }
        table.push(x);
        k = k + 1;
    }
    table
}

/// Adds a fixed sinusoidal encoding to input embeddings.
pub struct PositionalEncoding<S, O: ?Sized> {
    /// The precomputed `[batch, max_seq_len, hidden_dim]` encoding.
    pub pe: Tensor<S, O>,
}

impl<S, O: ?Sized> PositionalEncoding<S, O> {
    /// Precomputes the encoding: `wave(pos, i)` gives the sine and cosine of
    /// position `pos` at the frequency of feature pair `i`, and `store` puts the
    /// finished table in storage.
    pub fn new<T: Copy, W: Fn(usize, usize) -> (T, T), M: Fn(Vec<T>) -> Arc<S>>(
        id: TensorId,
        batch: usize,
        max_seq_len: usize,
        hidden_dim: usize,
        wave: W,
        store: M,
    ) -> (p: Self)
        requires
            batch * max_seq_len * hidden_dim <= usize::MAX,
            max_seq_len * hidden_dim <= isize::MAX,
            hidden_dim <= isize::MAX,
            forall|pos: usize, i: usize| #[trigger] wave.requires((pos, i)),
            forall|v: Vec<T>| #[trigger] store.requires((v,)),
        ensures
            p.pe.id == id,
            p.pe.dtype == DType::F32,
            p.pe.shape@ == seq![batch, max_seq_len, hidden_dim],
            p.pe.is_contiguous(),
            p.pe.byte_offset == 0,
            !p.pe.requires_grad,
            p.pe.node is None,
            p.pe.device is Cpu,
            exists|table: Vec<T>|
                is_encoding_table(
                    table@,
                    batch as nat,
                    max_seq_len as nat,
                    hidden_dim as nat,
                    wave,
                ) && #[trigger] store.ensures((table,), p.pe.storage),
    {
        let table = encoding_table(batch, max_seq_len, hidden_dim, &wave);
        let ghost t = table;
        let storage = store(table);
        let mut dims: Vec<usize> = Vec::new();
        dims.push(batch);
        dims.push(max_seq_len);
        dims.push(hidden_dim);
        let shape = Shape::new(dims);
        proof {
            lemma_shape3(batch, max_seq_len, hidden_dim);
            assert(shape@ =~= seq![batch, max_seq_len, hidden_dim]);
        }
        let pe = Tensor::from_storage(id, DType::F32, shape, storage, Device::Cpu);
        assert(store.ensures((t,), pe.storage));
        PositionalEncoding { pe }
    }

    /// Adds the encoding to the input embeddings, by the runtime's broadcasting
    /// addition `plus`.
    pub fn forward<A: Fn(&Tensor<S, O>, &Tensor<S, O>) -> Tensor<S, O>>(&self, x: &Tensor<S, O>, plus: &A) -> (out:
        Tensor<S, O>)
        requires
            forall|a: &Tensor<S, O>, b: &Tensor<S, O>| #[trigger] plus.requires((a, b)),
        ensures
            plus.ensures((x, &self.pe), out),
    {
        plus(x, &self.pe)
    }
}

} // verus!
