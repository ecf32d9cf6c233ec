# maptrax

Field planning for agricultural machines: headland rings, work rows, row
ordering, division of the work among several machines, and turn-aware tours.

- `src/` is the verified library. It holds the planner's discrete logic with
  Verus contracts: row orders (skip-row, spiral, snake), the row-routing
  network and the rows a path drives, division of rows and headland rings
  among machines, splitting rings into zone arcs, the headland sizing policy,
  connector choice, tour layout and validation, the escalation of turn models
  and row strides, turn-path words, identifiers and the C interface's views.
  Laws that span several calls are public proof functions next to the code
  they speak of.
- `app/` is the planner around it: planar geometry in metres (polygons,
  offsets, clipping, row generation, obstacle avoidance, turn paths), shortest
  paths and length-based scoring, which are floating point, and the C
  interface. It hands the library plain values and takes plain values back.
- `tests/` runs the library on concrete values.
