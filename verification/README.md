# axtensor

A small tensor and autograd engine whose layout, bookkeeping and allocation
logic is verified with Verus.

- `src/` is the verified library:
  - `shape.rs`: shapes, strides, element types, and the row-major layout model
    (sizes, unravelled coordinates, strided offsets, view bounds).
  - `kernels.rs`: strided walks, fills, gathers, reductions (full and along an
    axis), ReLU and its gradient, the rotary-embedding layout, and the SGD update,
    all generic over the element type, with the element arithmetic passed in.
  - `binary.rs`: broadcasting elementwise operations and the strided matrix
    product.
  - `tensor.rs`, `autograd.rs`: tensors over shared storage, autograd nodes,
    the backward topological order with its laws, and backpropagation that
    accumulates gradients by id.
  - `arena.rs`: the power-of-two binning slab cache behind GPU allocations.
  - `data.rs`: the dataset file header, zero-copy batch views, and batching.
  - `nn.rs`, `ops.rs`: the linear layer's forward pass, the positional encoding
    table, and the autograd operations with their backward rules, composed
    from the runtime's kernels.
  - `device.rs`: where a tensor lives.
- `app/` is the runtime around it: byte storage, wgpu buffers and shaders,
  memory-mapped files, random initialisation, the floating-point arithmetic
  handed to the kernels, and a training demo.
- `tests/` exercises the library on concrete values.
