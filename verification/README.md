# office_8bit

An 8-bit office for AI agents: each agent session gets a room in a tile world, the
player walks around it, and three other worlds (a war room, a race track, a space
fortress) show the same agents differently.

The rules of the worlds are a Verus library with proved contracts; the game around it
is a Bevy app.

## Layout

- `src/` — the verified library.
  - `tiles.rs`: world size, tile kinds and walkability, tileset atlas indices, wall
    outline positions.
  - `room.rs`: a room's tile grid, desks and door, as laid out for its size.
  - `office.rs`: the world map, its starting terrain and the tree spots.
  - `sessions.rs`: counting agents per session, busiest first, ties by first
    appearance.
  - `layout.rs`: room sizes and the placement of rooms left to right, row by row,
    around the path cross; the placed rooms stay inside the world and apart.
  - `world.rs`: clearing rooms off the world and drawing rooms into it.
  - `dynrooms.rs`: rebuilding the rooms whenever the sessions change.
  - `pathfind.rs`: A* on the tile grid (eight directions, no corner cutting); a route
    is returned exactly when one exists.
  - `player.rs`: spawn tile, walk animation, movement keys, sliding along walls.
  - `modes.rs`: the war room, race track and universe maps, and the game modes.
  - `colors.rs`: agent, status and room colours.
- `tests/` — tests of the library on concrete values.
- `app/` — the Bevy game: rendering, input, camera, and the floating-point motion of
  agents and player.
