# lenses

Composable optics — lenses, traversals and prisms in the van Laarhoven style —
with their laws proved by Verus, and a small path language for reading and
updating JSON values.

- `src/functor.rs`: the identity and constant functors, monoids (with their laws).
- `src/traversal.rs`, `src/lens.rs`, `src/prism.rs`: the optics, their
  composition, and the laws that composition keeps.
- `src/json.rs`: a JSON value type and prisms onto objects, keys, arrays,
  positions, strings, numbers and booleans.
- `src/json/parse.rs`: parsers for paths such as `.a[0].b = 1`, compiled
  selectors, and evaluation of an expression on a JSON value.
- `src/json/text.rs`: reading and writing JSON text through `serde_json`.
- `src/example.rs`: lenses on a small molecule/atom/point model.
- `app/main.rs`: the demonstration program, and the file reading and writing
  around `Expression::run`.
