# gatherer_world

The rules of a small colony game, verified with Verus: gatherers chop trees
and cut grass on a generated map of lakes, rivers and forests.

- `src/` is the verified library: map coordinates and directions, the tile
  grid and its spatial cells, map generation (lakes and their shore
  overlays, rivers and their pieces, forests and grass), A* path finding
  over grass tiles, objects and their flags, the gatherer's task machine,
  selection, drag selection, action buttons, the character list (ids,
  drawing order, hovering), light ids and zoom levels. Randomness comes from
  `rand` through a few trusted wrappers in `src/utils/rng.rs`. The random
  parts of map generation draw through a `DrawSource` (`src/utils/draws.rs`)
  that records every draw; each has a `_with` form whose result is stated
  exactly as a function of the draws it made, and `ListedDraws` replays a
  fixed list of draws for tests.
- `tests/` runs the library on concrete worlds.
- `app/` is the game itself: window, input, camera, animations, particles,
  day and night, and drawing with `raylib`. Everything measured in pixels or
  seconds lives there.
