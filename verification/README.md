# matten

A dense, row-major, owned multidimensional array library, verified with
Verus.

`src/` is the verified library. `Tensor<T>` keeps the invariant that its
data length is the product of its shape; every constructor, shape
operation (reshape, transpose, swap_axes, squeeze, expand_dims),
composition (concatenate, stack, repeat, repeat_axis, tile, meshgrid),
slicing (the builder and the slice-text grammar),
broadcasting plan, axis-reduction and matrix-product plan, limit check,
CSV record handling, text rendering and error message is proved against
its contract. Laws relating operations (broadcast symmetry, index round
trips, transposing or swapping twice, single-input composition, repeating
once, tiling by ones, squeeze after expand_dims, slicing every axis whole) are public proof
functions next to the operations they relate.

Every fallible operation states when it succeeds and, for each refused
input, the exact error it returns: variant, fields and message text, through
`ErrorView`, the view of `MattenError`.

Element arithmetic is not done in `src/`: callers pass closures
(`try_apply_binary`, `map_unchecked`, `try_outer_with`, `fold_lanes`, the CSV field
parser, the cell renderers), and the contracts say which closure results
end up where.

`app/` is the `f64` surface built on top of the library: fill
constructors for zeros and ones, ranges, reductions and statistics, matrix
products, element-wise arithmetic, CSV loading from files, rendering of
numeric tensors, and the dynamic `Element` model.

`tests/` exercises the library from outside.
