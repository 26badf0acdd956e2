# renderer

The integer core of a small software renderer, verified with Verus.

- `src/window.rs`: the pixel memory of a window (a `height` by `width` grid of
  RGB colors and the packed `0x00RRGGBB` frame shown on screen), bounds
  checks, single-pixel plotting and frame packing.
- `src/line.rs`: Bresenham's line as a mathematical sequence of pixels, with
  its laws (end points, length, neighbouring steps, distance from the ideal
  segment, translation).
- `src/raster.rs`: drawing lines and triangle outlines into a window.
- `src/mesh.rs`: turning the face list of an OBJ mesh into the offsets of each
  triangle corner in the flat position array.
- `app/`: the program around the library: the `f64` linear algebra, the scene
  and camera, the renderers, the minifb window and OBJ loading with tobj.
