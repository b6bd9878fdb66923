# spacewalk

Lattice geometry for board games, tactics games and tile maps: cells, directions, distance,
sight, regions and routes, with every answer specified and proved in Verus.

- `src/` is the verified library. Each board states what it is as a mathematical model (its
  cells in index order, where each step lands and which cell steps in, its metric), and every
  query is specified against that model: ranges, rays, runs, lines, sight, components, A*,
  budgeted reach and reverse reach, and the same searches over a `Graph` of named nodes.
  Laws that span several calls are public proof functions: lines read the same both ways and
  run from end to end, sight over a height field is mutual, offset coordinates round-trip,
  reverse reach is forward reach of the transposed graph (list for list), a board rebuilt from
  its own cells is the same board, a region taken again from its root indices is the same
  region, a computed rectangle is the stored one, tile offsets keep neighbours adjacent, and a
  board is connected exactly when its first component counts every passable cell. Routes name no cell twice, and when no step is free reach lists break
  cost ties by index.
- `app/` holds what the verifier does not take: the floating-point screen layout (`HexLayout`,
  `SqLayout`, `Pt`) and the serde forms of the plain types, which convert both ways.
- `tests/` exercises the library from outside: the square, hex, checkers, three-dimensional
  chess and capture-game boards, field of view, directed threats, elevation, and arithmetic at
  the edges of the integer types.

Pathfinding is integer arithmetic throughout, so a replay reproduces. Serialize coordinates,
never indices.
