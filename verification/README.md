# radiosity

Bakes the lighting of maps by tracing rays on the graphics device.

The library in `src/` is verified with Verus. It holds what is decided and
laid out:

- `valve_kv`: the text format of a map's entities, its parser and the laws of
  reading it.
- `lumps`, `geometry`, `texels`, `lightmap`, `color`: the lists of a map, the
  triangles that rays can hit, the luxels that texels light, and the bytes of
  the lighting.
- `lights`, `words`, `shared`: the lights of a map and of its sky.
- `sampling`, `shading`, `single`: how texels are shared out among the
  invocations of a pass, and which light reaches them.
- `vulkan`, `raytrace`: which device is used, what its memory is used for, and
  the steps in which a map is lit, with the barriers between them.
- `timing`, `duration`, `text`: the tree of spans and events and how it is
  shown.

The program in `app/` reads and writes the map, talks to the device, and
calculates with floating point numbers. The tests in `tests/` run the library.
