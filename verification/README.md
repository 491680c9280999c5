# sonar_vision

The discrete core of a sonar perception pipeline, written in Verus and proved
against its contracts.

- `src/occupancy.rs` — `CellState` and `OccupancyGrid`: reads, writes, clearing,
  obstacle windows, filling, explored-cell counts and block summaries.
- `src/radar.rs` — radar pictures as text: crosshairs, range rings, blips on an
  intensity ramp, track markers and map blocks.
- `src/peaks.rs` — which candidate samples of a return signal become echoes.
- `src/noise.rs` — the seeded linear congruential generator behind uniform noise.
- `src/tracks.rs` — track identifiers, detection counts, pruning and the rule that a
  track is updated at most once per batch of detections.
- `src/windows.rs` — the sample windows of the moving-average, envelope and matched
  filters.
- `src/beam.rs` — delay-and-sum alignment: which channel sample lands on each output
  index.

`app/` holds the floating-point side (signals, sonar propagation, world
coordinates, motion estimates, screen positions) as ordinary Rust on top of the
library. `tests/` exercises the library on concrete values.
