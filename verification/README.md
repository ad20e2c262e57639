# voxelens-core

Reconstruct a Minecraft schematic from a screenshot. This crate is the
verified engine: the functions in `src/` carry contracts that Verus proves,
except one trusted wrapper, `gzip_raw`, whose contract states what flate2's
gzip encoder does and is taken without proof.

- `src/schematic/` — the voxel model (`VoxelModel`), unsigned LEB128 varints,
  and the Sponge `.schem` writer (v2 and v3): the NBT layout is written byte by
  byte against a specification of the document, palette entries in byte-wise
  name order, and the result gzip-compressed with flate2.
- `src/segmentation.rs` — per-pixel colour classification, label counts and
  bounding boxes. Hue, saturation and value are computed as single-precision
  arithmetic computes them, on integers (`src/single.rs` models the
  rounding), so boundary colours fall on the same side as in `f32`.
- `src/image.rs`, `src/edges.rs` — pixel buffers, edge maps and the Canny
  hysteresis flood fill (the least pixel set holding the strong pixels and
  closed under 8-connected weak neighbours).
- `src/lines.rs` — the integer stages of line detection: Hough peak selection
  (5×5 local maxima, strongest first, cut to a limit) and cutting a line's
  pixel support into gap-bridged runs.
- `src/faces.rs` — the world axes that line segments are assigned to.
- `src/reconstruct.rs` — the trunk-height decision and the oak-log column.
- `src/overlay.rs` — display colours and RGBA handling for the browser.

`app/` is the command-line shell (argument parsing, PNG I/O), the browser
bindings, and the floating-point stages — camera projection, blur, Sobel
gradients and non-maximum suppression, the Hough accumulator and line
geometry, face axes and texture matching — which stay outside the verified
library and hand it plain values.
