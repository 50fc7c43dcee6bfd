# lau-geometric-deep-learning

Symmetry groups and equivariance structure for agent systems on graphs,
verified with Verus.

`src/` is the verified library. It holds everything in the toolkit that is
not floating-point arithmetic:

- `group_conv` — finite groups by multiplication table: cyclic `Z_n`,
  dihedral `D_n` and symmetric `S_n` (`n <= 5`, permutations enumerated in
  lexicographic order, `n!` of them), each proved to satisfy the group laws.
- `lex_order` — lexicographic order on sequences of distinct values, their
  rearrangements, and the facts that make "next permutation" enumeration
  complete.
- `permutation` — permutations of agents: identity, seeded shuffle, inverse,
  composition and application, with the action laws.
- `time_equiv` — cyclic time shifts and the rows they read.
- `graph` — the positive-weight edge pattern of an agent graph: neighbours,
  edge counts, rings and connectivity (depth-first search, proved against
  reachability).
- `config`, `agent` — symmetry specifications, model configuration, its
  builder, and the layer plan of an equivariant model.
- `universal` — representation types (with structural copy and equality),
  their dimensions (checked or not), parameter counts, and the layer and
  weight shapes of universal approximators and steerable networks.
- `spatial`, `gauge`, `rotation`, `spectral` — the small configuration types
  of those layers, and the layer shapes of multi-layer graph networks.

`app/` holds the `nalgebra` layers (Deep Sets, message passing, spectral
filters, gauge layers, group convolutions, …), which compute in floating
point and call the library for all of the above. `tests/` exercises the
library.
