# entropy-conservation

Verification-entropy toolkit: Shannon/Rényi/Tsallis entropy of path
distributions, conservation reports over code changes, entropy-flow networks,
gradient suggestions, Hodge decomposition, persistence diagrams and spectral
analysis.

Layout:

- `src/` — the verified library (Verus). It holds the integer and
  combinatorial logic:
  - `union_find` — disjoint-set forest with union by rank and path
    compression; its view is the representative of every index.
  - `order` — verified merge sort of integer-keyed triples, and the stable
    order of a list of keys (used to rank floating-point values by key).
  - `persistence` — zero-dimensional persistence of a Vietoris-Rips
    filtration: edges in filtration order (verified merge sort), Kruskal's
    spanning forest of component merges, and the Betti numbers; β₀ is proved
    to be the number of connected components.
  - `flow` — the sorted set of module names of a flow network (byte order,
    as `String` orders) and the lookup of a module's index.
- `app/` — the floating-point layer (entropy measures, flows, Hodge,
  spectra, serde and thiserror types), built on the library.
- `tests/` — tests of the library.
