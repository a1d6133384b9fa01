# model_viewer

A desktop viewer for glTF and FBX models, split in two:

- `src/` — the verified library: FBX triangulation, the choice of a
  mesh's normal, UV and material layers, per-material grouping and index
  compaction (`fbx`), the mesh list and material/primitive names
  of glTF models (`mesh`), the scene hierarchy (`scene`), the ground grid and
  bone line selection (`lines`), the saved viewer state and the hidden
  primitives it records (`state`), panel decisions (`view`) and count
  formatting (`text`). The functions carry contracts proved by Verus; three
  small wrappers around std (`String::push`, `Path::join`,
  `Path::extension`) are trusted, each with a contract limited to what std
  documents.
- `app/` — the program around it: file reading with `gltf` and
  `fbxcel-dom`, vertex data and camera maths (floating point, `glam`), the
  egui interface, and a wgpu renderer written for this crate (inline WGSL
  shaders, depth-tested scene, sky, grid and bone pipelines).
- `tests/` — tests of the library on concrete values.
