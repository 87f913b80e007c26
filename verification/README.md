# wata

Planning helpers for nanobots that build and tear down voxel models inside a
cubic grid of side `r`, written in Verus: every function in `src/` carries a
contract, and the laws that tie the functions together are proof functions.

- `point`, `grid`, `order`, `model`, `command`: coordinates and their
  neighbourhoods, 2D/3D boolean grids, the model file format, and the textual
  form of bot commands.
- `sim`: bot fission/fusion and one simulation step.
- `postproc`, `fusion`: walking command paths cell by cell and merging a fleet
  back into one bot.
- `support`, `support_z`, `scaffold`, `layer`, `starts`, `transpose`, `solve`,
  `xz`: the construction planner's geometry (which cells need temporary
  support, where bots start, axis swaps, bounding slices).
- `rounds`: turning per-bot command lists into one trace, a step at a time.
- `destruction`: the fleet bookkeeping of the large-model destruction plan
  (fleet layout, session schedule, fleet moves, trace assembly).

Not in the library: the planners that fill a layer cell by cell and that
schedule the removal of temporary supports. The layer filler ranks
candidate moves by floating-point scores, and both rely on a fission planner,
an occupancy grid, a multi-source path search and group void commands that
this project does not define. The path search used to bring bots together is
not defined either, so `fusion::fusion_all` takes each bot's planned moves as
input. The pieces of those planners that stand on their own (support
targets, start positions, support segments, fleet layout and session
schedule) are here and verified.

`tests/` runs the library on concrete inputs; `app/` is the command-line
program that reads a model file and prints a plan.
