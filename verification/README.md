# ferro

A small PyTorch-style tensor runtime whose integer core is verified with Verus.

- `src/` is the verified library. Every function has a contract over
  mathematical models (`Seq`, `int`, spec functions), and the properties that
  span functions are proof functions (`lemma_*`):
  - `shape`, `layout`: row-major strides, numpy broadcasting, strided views
    (broadcast, transpose, reshape) and the gather that materializes them;
  - `dense`: concatenation and its split, row selection and its gradient
    targets, selection by an i64 id tensor, embedding lookup, one-hot;
  - `reduce`: the shape and index plan of a sum over one dim, and the sums
    that reduce a broadcast gradient back to its operand;
  - `geometry`: operand checks and output sizes of the binary ops, matmul,
    bmm, conv2d, max-pool, squeeze/unsqueeze and device transfers, and the
    plans of which elements each bmm, conv2d and max-pool output reads;
  - `graph`: the depth-first post-order in which autograd visits a graph;
  - `rng`: the splitmix64-seeded xorshift128+ generator;
  - `error`, `device`, `dtype`, `text`: the error type and how it is shown;
  - `kernels`, `cuda`: the CUDA C sources of the elementwise kernels, the
    broadcasting kernel's index math and launch parameters, and the cuBLAS
    parameters that compute a row-major product.
- `app/` is the runtime around it: tensors over shared storage, the autograd
  engine, the f32 kernels, layers, optimizers and the `cudarc` backend. It
  asks the library for every shape, index plan and error.
- `tests/` exercises the library on concrete values.
