# nefvol

Exact volume of a union of rational polytopes, and the sweep function
`s(a, λ) = vol(U ∩ {⟨a, x⟩ ≤ λ})` as an exact piecewise polynomial: a reverse
search over the vertices of the facet arrangement on `∂U`, fused with the
Bieri–Nef sweep-plane decomposition of every tangent cone.

The library under `src/` is written in Verus; every function carries a
contract that Verus proves.

| module | role |
|---|---|
| `arith`, `big`, `num` | gcd facts, big integers (arithmetic by `num-bigint`), the hybrid integer `Z`, rationals `Q`, points |
| `matrix` | square integer matrices: products, row and column operations and what they keep |
| `linalg` | fraction-free `(det, adj)` with `adj·N = N·adj = det·I`, incremental echelon form |
| `geom`, `bbox` | canonical hyperplanes, polytopes, the shared arrangement, restricted views around a bounding box |
| `cube`, `local`, `laurent` | sign cubes, Euler characteristic of their union, lines and signed cones at a vertex, Laurent terms of non-generic directions |
| `walk` | simplex walks inside a region (ratio test, parent rule) |
| `reverse`, `vertex` | per-facet reverse search, `∂U` test and ownership |
| `sweep`, `expand` | knot accumulator, sweep function, pieces, evaluation, reparametrisation; the pieces agree with the sum of the knot polynomials |
| `preprocess` | vertex finding, boundedness, full-dimensionality, redundancy |
| `oracle` | brute-force vertex enumeration used as a cross-check |
| `driver` | the pipeline from raw constraints to the sweep function, and its three stages (plan, one facet task, conclusion) for callers that run the facet tasks in parallel |
| `io`, `notation`, `shapes`, `viewer` | the `.ine` format and its round trip, the JSON input schema (read by `serde_json`), test shapes, planar polygons and their λ-range for display |
| `laws` | properties relating several operations (reparametrisation, accumulation order, uniqueness of canonical forms) |

`app/main.rs` is the command-line front end (argument parsing, files,
timing, the worker threads that run the facet tasks, and viewer output).
