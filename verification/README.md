# puzzle_explorer

The verified core of a circle-puzzle explorer: it computes the orbits of a
puzzle's pieces under its turns and studies their groups with GAP and
dreadnaut.

## Layout

- `src/` is the library, verified with Verus:
  - `text`: character-level helpers (decimal numbers, trimming, splitting).
  - `generator`: generator notation (`(1,2,3)(4,5)`), its parser and the
    renumbering handed to dreadnaut.
  - `canon`, `canonizer`: dreadnaut scripts for orbit graphs, reading back the
    canonical labelling, and the hash of a canonical graph (BLAKE3).
  - `orbit`: orbits of pieces under the turns, cycle structure of each axis,
    and the checks on cycle lengths.
  - `axes`: derived axis definitions, their names, dependencies, renaming,
    deletion and the order in which they are resolved.
  - `gap`, `dreadnaut`: the job queues spoken with the two workers.
  - `gap_list`: the generator list in the GAP group command read back by the
    generator parser.
  - `pipeline`: the bookkeeping between geometry, orbit, dreadnaut and GAP
    results.
  - `puzzle_io`: the version check on imported YAML and the file names used.
  - `color`, `examples`, `sorting`, `types`: small pieces used by the above.
- `tests/`: tests of the library on concrete values.
- `app/`: the parts that need a browser or floating point: sphere geometry,
  the orbit worker's piece matching, the GAP and dreadnaut worker glue,
  downloads and file pickers. It holds no drawing front end.
