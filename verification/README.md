# model_painter

The state and the rules of a program that paints on 3D models: layer stacks and masks, stamps,
segments of faces, the automatic unwrap into texture tiles, picking with bounding-volume trees,
the panels and what the pointer does.

- `src/` is the library. Every function has a contract that Verus proves. Numbers in single
  precision are held by their bit patterns: the library stores and orders them, and asks the
  caller for arithmetic through closures and the traits `TriMath`, `BoxMath`, `RayProbe` and
  `BoxTest`. Public proof functions whose names begin with `law_` state what holds across calls.
- `app/` is the program around it: the window, the device, the engine, the panels, and all
  floating-point arithmetic.
- `tests/` runs the library on concrete values.

Two functions rest on trust: `sort::sort_ascending` on the sort of the standard library, and
`device::bytes_of` on a cast of `bytemuck`.
