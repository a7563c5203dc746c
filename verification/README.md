# primary_radar

Terrain-aware line of sight for a simulated primary radar.

The radar plugin asks a helper process, one line at a time, whether two
points see each other; the helper answers `true` or `false`. The helper
turns both points into cells of an elevation grid, samples the path between
them along its leading axis, and declares the points visible when no sample
lies on or below the terrain.

## Layout

- `src/` is the verified library:
  - `protocol.rs`: the request and answer lines (parsing, building, and the
    round-trip lemmas);
  - `grid.rs`: the terrain grid, its row-major cell index and the lookup of
    one point;
  - `path.rs`: the direction, leading axis and sampled range of a path;
  - `sight.rs`: the verdict and terrain profile over the sampled points, and
    the lemma that lower terrain blocks no more.
- `app/` is the program around it: the helper's stdin/stdout loop, reading the
  grid files, the floating-point steps (world coordinates to pixels, placing
  each sample on the line), the stand-alone run that writes terrain profiles,
  the plugin's process and channel plumbing, and the raster converter.
- `tests/` runs the library on concrete values.
