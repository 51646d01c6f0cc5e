# renderer

The decision-making core of a wgpu scene renderer, written in Verus and proved
against its contracts.

`src/` is the verified library:

- `rendergraph` orders render passes by the resources they read and write,
  reports dependency cycles, and lists the resources read but never written.
- `renderpass` and `scene_renderer` declare the passes of a frame and their
  resources; `draws` says what the mesh and shadow passes draw and bind.
- `framebuilder` turns a render queue into instanced batches, light lists and
  draw statistics; `render_queue`, `render_objects` and `world` extract what a
  scene draws from its entities, honouring hidden subtrees.
- `scene` decides which glTF nodes become entities and how they are linked;
  `sync` plans keeping GPU caches in step with the assets; `texture_cache`
  keeps one GPU texture per asset, with fallbacks and byte accounting.
- `ibl` sizes the mip chains and cube renders of image-based lighting;
  `gpu` holds the bind-group layout table, texture layouts and material
  texture slots and pipeline descriptions; `line_builder` emits box and
  light line lists in the library's own colours.

`app/` is ordinary Rust around it: the wgpu calls, floating-point geometry,
scene files on disk and printing.
