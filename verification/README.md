# calc_spreadsheet

A spreadsheet formula engine. The library under `src/` is verified with
Verus; `app/` is the program around it.

## Library (`src/`)

| module | contents |
|---|---|
| `ast` | formula grammar, parser (`parse_formula`), reference analysis with `LET` scoping (`analyze_from_ast`, `analyze_formula_refs`) |
| `refs` | A1 names (`parse_a1`, `format_a1`, `canonical_cell_name`), range sizes and cells, the range visitors `for_each_a1_range` and `fold_a1_range`, `CellSet`, `CellMap`, `FormulaRefs` |
| `deps` | evaluation layers (`build_layers`, `layer_indices`) and transitive dependence (`depends_on`) |
| `schedule` | `ParallelThresholds`, `WorkTable`, `should_use_parallel` |
| `replace` | placeholder replacement (`__[A-Z0-9]+__`) and cell preparation |
| `parser` | Excel string literals and quoting |
| `date` | Excel serial dates, `DATE`, `DATEVALUE` (ISO, slash/dash, Japanese eras), `DATEDIF` |
| `dynamic_array` | which rows/columns `UNIQUE`, `SORT` and `FILTER` keep, their `#CALC!` and `if_empty` results, array shapes, a 1 × 1 array as a single value |
| `prune` | static pruning of `IF` / `IFS` / `SWITCH` arms that known conditions never take (`prune_arms`), and the rectangle a formula may spill over (`spill_shape`) |
| `spill` | spill footprints and blocking, and writing results all or nothing (`place_spill`, `place_value`, `place_text`, `clear_spill`) with `CellMap` |
| `spill_deps` | dependencies through spills and the circular-reference check for spill anchors (`spill_dependencies`) |
| `soft_spill` | re-evaluation after a watched FILTER cycle: touched cells, the wave of cells to evaluate again, at most two sweeps |
| `error` | `SpreadsheetError` and its messages |
| `text` | character-level helpers |

Every public function states its result in its `ensures`; the public proof
functions (`lemma_*`) state properties that relate several functions, such as
the round trip of A1 names, the uniqueness of the layering, and that
dependence runs down the layers.

## Program (`app/`)

Evaluation itself works on floating-point values and stays in `app/`:
the evaluator (`eval.rs`), numeric functions (`functions.rs`), array values
(`arrays.rs`), and the sheet driver with parallel layers (`engine.rs`).
The driver folds constant conditions and `SEQUENCE` sizes to numbers
(floating-point arithmetic) and hands the answers to the library's
`prune_arms` and `spill_shape`.
