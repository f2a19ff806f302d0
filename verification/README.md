# blue_engine_utilities

Utilities for the blue_engine 3D engine: a fly camera, a light manager, glTF
mesh loading, mouse ray casting, keyframe types and an egui integration.

- `src/` is the verified library (Verus). It holds what these utilities
  decide: the fly camera's focus and movement decisions (`flycamera`), the
  light registry, per-object lighting plan and light shader source (`light`,
  with the name order in `order`), and mesh assembly from glTF primitives
  (`model_load`).
- `app/` is the engine-facing side: the blue_engine `Signal` plugins, GPU
  buffers and shaders, egui, glTF file reading, and everything computed in
  floating point (camera angles, ray casting, colours, keyframe points).
- `tests/` runs the library on concrete values.
