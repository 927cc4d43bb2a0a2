# blackmamba_paint

The verified core of BlackMamba Paint, an AI-native drawing system whose
document stays authoritative: AI proposals never edit it directly.

- `src/` is the library, written in Verus. Every public function carries a
  contract over mathematical models (`Seq`, `Map`, `Set`) and the laws of
  the library (undo after commit, divide then join, ownership of strokes
  and paths by layers, what a pixel read returns after a write, ...) are
  proof functions or `ensures` clauses.
- Geometry that needs floating point (sample positions, camera, reference
  placement) is a type parameter of the library's types, so what the
  library decides depends on identifiers and integers alone.
- `app/` is the command-line walkthrough and the floating-point parts:
  line tracing costs, perspective inference, projections, reference
  transforms, render scene culling, brushes, and the JSON form of the
  document.
- `tests/` exercises the library on concrete values.
