# metro-draw

`mtrd` works with metro topology and schematic manifests: it converts them
between YAML and JSON, checks them, and renders them as SVG.

The library under `src/` is verified with Verus. It holds the rules:

- `topology_validation`, `schematic_validation`: what a renderable manifest
  must satisfy and in which order violations are reported, with laws that
  characterise an accepted manifest;
- `render`, `topology_render`, `schematic_render`: the SVG documents, lane
  assignment for shared track segments, symbol colours and rotations;
- `names`, `text`, `manifest_format`, `cli`: localized names, escaping, the
  flow-style rewriting of positions, and the decisions of the command line.

Coordinates and lengths are binary64 numbers, which the library holds by their
bit patterns. Projection, geometry and number printing are done by the program
in `app/`, which hands the library its findings and printed numbers. `app/`
also reads and writes files and carries the serde and clap derives.

Localized names are kept as a vector of locales in ascending order, with that
order as a type invariant, rather than as a `BTreeMap`: vstd's `BTreeMap`
specifications hold only for key types that obey its model of `Ord`, which it
establishes for the integer types but not for `String`. Sets and maps keyed by
ids are likewise scans of vectors with exact specifications.
