# moseiik

Builds a photo mosaic: the target picture is scaled, cut into square cells of
the tile size, and every cell is replaced by the tile picture closest to it in
L1 distance (sum of absolute channel differences).

Layout:

- `src/rgb_image.rs`: the RGB picture type, its mathematical view
  (`Picture`), cropping, pasting, and the nearest-neighbour resize of the
  `image` crate behind a trusted wrapper.
- `src/l1.rs`: the L1 kernels (portable, and block-wise ones sized like the
  SSE2, AVX2 and NEON registers; all sum every byte) and the choice among
  them, made once per run.
- `src/mosaic.rs`: preparing the target and the tiles, choosing the tile of
  each cell, writing the tiles, and the whole run.
- `src/distinct.rs`: the mosaic in which each tile fills at most one cell
  (`remove_used`).
- `app/main.rs`: command line, file reading and writing, CPU feature
  detection, and the thread pool that handles the columns.

Everything in `src/` is verified with Verus.
