# spectral_shape

Spectral methods for the shape analysis of agent behaviour graphs: graph
Laplacians, spectral embeddings, heat and wave kernel signatures, scale-space
analysis and shape descriptors.

The project is split in two.

- `src/` is the verified library. It holds every decision of the pipeline that
  depends on comparisons, indices and shapes rather than on real arithmetic:
  the acceptance of adjacency matrices, the ascending order of eigenpairs, the
  choice of the spectral-gap and Fiedler eigenpairs, the layout of embeddings
  and feature vectors, nearest-neighbour lists, the k-means seeding,
  assignment and cluster bookkeeping, the classification rule, the median pick
  of the approximate earth mover's distance, the mirrored smoothing stencil,
  scale-space extrema, the max-normalisation divisor and wave-trace peaks.
  Real values reach it as `i64` order keys (`order::order_key`), which compare
  as the values do.
- `app/` is the numerical layer in ordinary Rust: matrix products, QR and power
  iterations, kernels, Gaussian smoothing and distances in `f64`, with the
  serialisable types of the toolkit. It calls the library for every decision
  listed above.
