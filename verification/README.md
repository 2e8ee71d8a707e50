# labyrinth

The verified core of a small dungeon crawler built on Godot.

- `src/` is the library, checked by Verus: grid coordinates, cell kinds, the carving of a
  floor into a labyrinth (one start, corridors that join rooms, every room reachable from
  the start), room visits and the enemies left behind, the tiles a floor is drawn with,
  the input decisions of the scene and the player, and the resource paths of assets.
- `app/` is the Godot extension around it: scene nodes, physics, cameras and floating-point
  motion, and resource loading.
- `tests/` runs the library on concrete floors.
