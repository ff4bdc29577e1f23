# rl2d

A small reinforcement-learning framework for 2D navigation, with its
discrete core verified by Verus.

## Layout

- `src/` — the verified library.
  - `rl/environments/discrete_2d.rs`: the grid environment (positions,
    actions, wall sets, rewards, `step`/`reset`, following a policy).
  - `rl/environments/maze.rs`: maze generation by randomised depth-first
    carving and the breadth-first search for the cell furthest from a start.
  - `rl/environments/grid_drawing.rs`: exact geometry of grid pictures and
    videos (wall segments, interpolated frames, frame counts).
  - `rl/environments/continuous_2d.rs`: the discrete parts of the plane
    environment (actions, reward types, trajectory downsampling).
  - `rl/algorithms/`: the replay memory of deep Q-learning, growing the
    weight matrices of the evolved networks, plain network descriptions.
  - `rl/utils/statistics.rs`: per-episode records of a run, how runs are
    bucketed for plots and combined.
  - `rl/utils/random.rs`: the few draws from `rand` the library makes, each
    behind a wrapper whose contract states what holds of every outcome.
- `tests/` — tests of the library on concrete values.
- `app/` — the command-line program: configuration files, training loops of
  the learning algorithms (real-valued), physics of the plane environment,
  plots and videos. It calls the library for everything above.
