# rerecast

The integer core of a Recast-style navigation-mesh generator, verified with
Verus, with a thin layer of floating-point and serialization code around it.

`src/` is the verified library:

- `region`, `heightfield`: region ids, vertex flags and the compact
  heightfield (cells, spans, neighbour links) with its well-formedness check.
- `contours`, `simplify`: tracing region outlines into raw contours,
  simplifying them within an error bound, splitting long wall edges and
  removing degenerate segments.
- `height_patch`: the heights under a polygon, copied from its region and
  flood-filled across the polygon's bounding rectangle.
- `delaunay`, `detail_mesh`, `polygon_mesh`: the edge list of the Delaunay
  triangulation, hull flags, polygon bounds and sub-mesh storage of detail
  meshes.
- `debug_mesh`, `gizmo_updates`: outlines and index buffers for drawing
  navmeshes, and which gizmos an asset event redraws or despawns.
- `generator`, `config`, `editor`, `transmission`: generation queues and
  up-axis changes, cell-unit configuration sizes, editor state, and the
  base64 framing of payloads sent to the editor.
- `material_images`: the shared image store of serialized materials, each
  image stored once and referred to by index.

`app/` holds what works on floats or through serde: world-space
configuration, the sampling and triangulation geometry of detail meshes,
gizmo positions, and payload (de)serialization.
