# auxein_core

The exactly specified parts of the Auxein cognitive engine, written in Verus
and proved against their contracts, with the floating-point engine and the
command line around them.

## Layout

- `src/` — the verified library.
  - `types.rs`: modes, spaces, errors, budgets; the command-line budget slot.
  - `material.rs`: the packing model (`U_H`, `U_T`, `U_N`, `U_L`, `M_min`,
    `M_units`) on a `Ledger`, budget resolution and installation.
  - `growth.rs`: the all-or-nothing growth transaction and the packing laws.
  - `contraction.rs`: forced solvency over CELL value ranks.
  - `digits.rs`, `decimal.rs`: exact decimal budgets (`floor(k * U_H)`).
  - `ratio.rs`: the exact text of a ratio; `budget_text.rs`: that the
    kernel equivalent of a budget reads back to the same units.
  - `number.rs`: which JSON number texts are finite binary64 values.
  - `json.rs`: the bounded-depth JSON reader; `emit.rs`: JSON string and
    array writers, and that a quoted string reads back unchanged.
  - `fields.rs`: reading typed members out of parsed state objects.
  - `rounding.rs`: whether a number text rounds to a positive binary64, to
    one not below zero, or to one at most one, decided exactly on the text.
  - `state.rs`: the saved-state schema (format version, dimension, scalar,
    memory, eta, mode, layers and their kernels) with the reader's error
    messages in the reader's order; reals stay number texts.
  - `persistence.rs`: the document the canonical writer gives a state, and
    that reading it back yields the same state.
  - `presentation.rs`: the shape of plain and weighted presentations.
  - `report.rs`: the JSON object of each structural transformation of a
    step report.
- `tests/` — tests of the library.
- `app/` — the floating-point engine and the `auxein` command line, built on
  the library for accounting, budgets, JSON, the saved-state schema and
  forced solvency.  It turns the checked number texts of a saved state into
  `f64` values and checks that they are representable in the state's scalar.
