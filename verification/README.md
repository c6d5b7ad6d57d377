# rcf3

Streaming anomaly detectors (Random Cut Forest, Online Isolation Forest,
mStream, FeatureSketch) whose integer bookkeeping is verified with Verus.

## Layout

- `src/` — the verified library.
  - `rcf/` — configuration checks, the point store (slots, reference counts,
    shingling, look-ahead indices), the node arena, the tree shape (links and
    masses of a random cut tree, insertion and removal along a path), the
    reservoir samplers and the store they share, and the forest that keeps
    every tree holding exactly the points of its sampler.
  - `onlineiforest/` — configuration checks, the sliding window, split
    thresholds, and the bins of the trees with their counts, which between
    updates are exactly the points of the window.
  - `mstream/` — configuration checks, the stream clock, categorical hashing
    and bucket arithmetic.
  - `featuresketch/` — configuration checks, hashing seeds and projection
    signs, chain level choices, sketch cell indices, epoch counters and the
    persisted format version.
  - `decimal.rs` — writing integers in decimal for error messages.
  - `outside.rs` — the trusted declarations of what `rand`, `ahash` and
    `ndarray` compute, and the `ndarray` array that holds the categorical
    hash coefficients.
- `app/` — ordinary Rust around the library: everything that computes with
  floating point (bounding boxes, cuts, scores, sketches of decayed counts,
  supports), JSON persistence, and the detectors' public types.
- `tests/` — tests of the library.
