# wgsl_toy

The verified core of a GPU path tracer: the bounding-volume hierarchy over
the scene's triangles (construction, pre-order flattening into the node
format the shader reads, and the shader's stack walk), plus the small
decisions around it (scene choice from the command line, PPM encoding).

- `src/` is the library, checked by Verus. Coordinates are carried as IEEE-754
  bit patterns and compared through an order-preserving integer key
  (`order_key`); whatever needs floating-point arithmetic (the split
  heuristic, centroids, normals, ray tests) is passed in by the caller.
  Comparisons and minima/maxima follow IEEE semantics on the bit patterns.
  - `node`: the 32-byte node format and its leaf flag.
  - `geometry`: triangles and the exact extent of a run of them.
  - `permutation`: rearrangements of an index range.
  - `build_node`: the build tree, what it means to describe a run of
    triangles, and its flattening.
  - `tree`: the triangle soup, mesh loading into it, and the builder.
  - `traversal`: the bounded stack walk and its statistics.
  - `ppm`: `P3` image text.
  - `scene_select`: scene number from the arguments, and the scene it names.
- `app/` is ordinary Rust: wgpu rendering, the egui panel, the orbit camera,
  and the floating-point pieces (surface-area split, intersection tests).
- `tests/` runs the library on concrete data.
