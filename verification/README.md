# mapcss

A verified library for OpenStreetMap-like map data and MapCSS style sheets.

- `src/storage.rs` keeps nodes, ways, areas and relations under stable keys.
  Every object records the objects that contain it, and every operation keeps
  these back-references consistent with the forward references
  (`consistent`, proved for each operation through `Storage::wf`). The
  contracts also fix the order of the back-references: a link is appended
  at the end, and an unlink takes out the first occurrence as
  `Vec::swap_remove` does (`way_appended_to_nodes`, `way_removed_from_nodes`
  and their kin for areas and relations).
- `src/css.rs` is a parser over CSS components (tokens with the contents of
  their blocks); `src/selector.rs` and `src/stylesheet.rs` read MapCSS
  selectors, declarations, rules and style sheets from it. Each reading
  function is specified by a spec function of the same grammar, including
  the error that it gives.
- `src/selector.rs` also matches selectors and selector chains against the
  objects of a storage.
- `app/` turns MapCSS text into components with `cssparser` and holds the
  floating-point geometry of locations and spans (`utm`).
