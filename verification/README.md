# rustingo

A small deep-learning library — tensors with reverse-mode automatic
differentiation, layers, losses and optimizers — whose integer, shape,
layout and graph logic is specified and proved with Verus.

## Layout

- `src/` — the verified core (a library crate named `rustingo`):
  - `error` — the error type and its messages' shapes;
  - `gpu` — the `Device` enum;
  - `rng` — the Xorshift64 generator (never in the all-zero state) and the
    bit pattern of its uniform floats;
  - `shape` — element counts and the shape checks of every tensor operation;
  - `layout` — row-major indexing and the transpose permutation (an involution);
  - `tensor` — `TensorStorage`, elements plus shape with matching counts;
  - `math` — generic `Matrix` and `Vector` containers;
  - `autograd` — `TopoSort`, the depth-first ordering of the computation
    graph used by the backward pass, and gradient-flag propagation;
  - `text` — decimal numbers, shape lists, error messages, device names and
    the layout of tensor, matrix and vector renderings;
  - `optim` — the `Optimizer` trait.
- `app/` — the floating-point side, unverified: `Tensor` (shared,
  gradient-tracking handle over `TensorStorage<f32>`), its operations and
  backward closures, initialisers, `nn` modules, losses, `Sgd` and `Adam`,
  `f64` arithmetic for matrices and vectors, and the `Display` impls.
- `tests/` — tests of the verified core.
