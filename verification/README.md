# stat_system

Stats and changes for the entities of a simulation. A stat holds a value; a
change gathers what is to be added to that value, and applying the change adds
it and leaves zero behind. Changes can also travel along a parent relation:
from the leaves of a hierarchy up to its roots, each node passing on its change
once all its children have reported. Values can travel the other way, from each
root down to the nodes below it.

## Layout

- `src/` is the library, verified with Verus.
  - `stat_num.rs`: the integer types stats are kept in, with the arithmetic the
    library needs and its contracts.
  - `stat_component/`: stats, changes (added up, or combined under any
    `AlgebraicSystem`), values set aside for later, and packs of a stat with its
    change, with the laws that relate their operations.
  - `system/`: carrying changes from leaves to roots and values from roots to
    leaves over a parent relation given as a vector of optional parent indices
    (sums are formed in 128 bits, and only totals that do not fit are refused);
    `propagation_model.rs` states what the result is, and `report_state.rs` and
    `descent_state.rs` hold the invariants of the two walks.
  - `utils/`: small helpers over stats and changes.
- `app/` is the part that runs inside the game engine: components with the
  engine's traits, the systems that gather entities into the library's
  vectors and write the results back, the plugins and scheduling sets, and
  one floating-point helper for the camera scale.
- `tests/` holds the tests, which call the library as any user would.
