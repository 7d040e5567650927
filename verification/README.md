# recalc

Incremental recalculation of a spreadsheet, verified with Verus.

The library keeps an index from cells to the formulas that read them, built from what each
formula really read. After an edit it says which cells have to be evaluated again, and when
the whole workbook has to be. It also keeps the values that `API(connection, …)` calls read
from outside the workbook, and carries a value on to the cells that read it when it arrives.

- `src/model.rs`: the model and its parts
- `src/incremental.rs`: one recalculation, step by step
- `src/index.rs`, `src/reach.rs`: the dependency index, and following it
- `src/external.rs`: values from outside
- `src/formula.rs`: parsed formulas, and which of them are volatile
- `src/laws.rs`, `src/stale.rs`: what is proved of the library as a whole
- `src/key.rs`, `src/cell_map.rs`, `src/text.rs`, `src/sums.rs`: collections and arithmetic
- `app/`: a driver that runs a formula engine as the library asks
