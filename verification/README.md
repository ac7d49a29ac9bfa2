# native_connectome

A connectome is a field on the nodes of a graph. Each step moves the field and the strengths of the
bonds between nodes, sends walkers along the bonds from fast nodes, makes the bonds that these
propose and lets faint ones break. Only nodes in sight are computed; a node that comes back into
sight first catches up with what happened to it meanwhile.

The library in `src/` makes all decisions and is verified with Verus. It does no floating-point
arithmetic: numbers are held by their binary64 encodings, which it compares, clips and rounds
exactly, and a step asks for the numbers that it needs.

- `binary64`: encodings and the exact integers that they stand for.
- `members`: walking ordered sets in ascending order.
- `graph`: the bonds, a graph without loops or double edges that is kept from both ends.
- `connectome`: the state and its steps. A step runs from `begin_step` over `emit`, and then `hop` and
  `catch_up` as often as it asks for them, to `advance` and `metrics`.
- `api`: the same for callers that may hold no connectome.
- `laws`: what holds across these operations.

`app/` holds the C interface and the arithmetic of the steps.
