# ace

A small entity-component game engine whose storage and bookkeeping are
verified with Verus.

- `src/` is the verified library: the entity store (`Entities`, `Entity`,
  `Update`), the event queue (`Events`), the decisions of the `Component`
  derive, the physics and renderer bookkeeping, and the integer planning of
  image based lighting bakes. Lookup tables live in `indexmap::IndexMap`
  behind trusted wrappers in `src/slots.rs`.
- `app/` is the demo game and the baking tool: windowing (GLFW), OpenGL
  calls, glTF and image loading, and all floating point math.
- `tests/` exercises the library.
