# ground_segmentation

Ground segmentation of airborne laser scanning point clouds, with its
integer core verified in Verus.

- `src/` — the verified library:
  - `histogram`: binning of elevation offsets, moving-window sums,
    largest-peak and next-valley search over order keys;
  - `sampling`: the lowest point of every occupied grid cell;
  - `propagation`: the neighbour lists growth follows, and region growing
    of the ground class over them,
    with its outcome characterised by reachability;
  - `scoring`: marking of seed points and the confusion counts against a
    reference classification;
  - `ply`: the PLY header and vertex records.
- `app/` — the command-line program: LAS/LAZ input, k-d tree queries,
  normals and every other floating-point step, PLY and LAZ output.
- `tests/` — tests of the library on concrete inputs.
