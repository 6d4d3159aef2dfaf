# vtracer

The back end of a raster-to-vector tracer, verified with Verus: a segmentation is
composed into a document of painted shapes, and the document is written as SVG.

- `src/scalar.rs`, `src/rounding.rs`: binary64 numbers by their bit patterns, with
  the operations that the writer needs, proved against exact rounding.
- `src/number.rs`: compact decimal text.
- `src/path.rs`, `src/svg.rs`: path data and documents.
- `src/ir.rs`, `src/progress.rs`, `src/compose.rs`, `src/parallel.rs`: the document,
  progress and cancellation, and the compositors on one thread and on several.
- `src/laws.rs`, `src/reading.rs`, `src/replay.rs`, `src/grid.rs`, `src/document.rs`:
  what holds of numbers, path data and documents as a whole. Options shrink the
  output, bring only their own letters, and do not change the geometry: at a
  precision, path data reads back as the points that were given, each as it is
  written by itself; without one, as the points themselves. Documents read back as
  the path data and the fills of their shapes, in paint order.
- `app/`: floats. Coordinates as `f64`, the float formatter, progress as a fraction.
- `tests/`: the library against hardware floats, and the laws on concrete values.

Relative numbers and smooth continuations are written only where they are exact. At
a precision, that is within the range of whole numbers that the integer formatter
takes (up to fifteen decimals, below nine quadrillion parts); without one, where the
difference of two floats is exact and a control point is the mirror image itself.

Trusted are `String::push`, `visioncortex::Color::to_hex_string` and rayon's
order-preserving `collect`; each stands with its contract beside its caller.
