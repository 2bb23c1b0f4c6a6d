# ocdscardinal

Field coverage and procurement red flags for line-delimited OCDS data, as a Verus library whose
logic is proved against its contracts, and a command-line program around it.

## Layout

- `src/` is the verified library.
  - `coverage.rs`: counts how often each path of a JSON value is non-empty (`tally`), line by line
    and across partial counts (`Coverage::add_line`, `Coverage::merge`), with the laws that empty
    nodes count nothing, that a non-empty node counts its own path once, and that the counts do not
    depend on how a file is split.
  - `indicators/`: the settings, the state that the indicators accumulate, one module per
    indicator (`fold`, and where states are combined, `reduce`), and `run.rs`, which enables the
    indicators from the settings, leaves out excluded contracting processes, and folds and reduces
    states with all enabled indicators; `order.rs` proves that, once the main currency is
    settled, the state does not depend on the order of contracting processes.
  - `queue.rs`: an ordered output queue, whose outputs reach the writer in the order in which tasks
    started.
  - `json.rs`, `table.rs`, `sets.rs`, `text.rs`: JSON values, insertion-ordered string tables and
    sets, and string operations.
- `app/` is the program: argument handling, reading lines, parsing JSON, running the library in
  parallel, and what rests on floating-point numbers (quartiles, fences, ratios, and the sums and
  comparisons of the amounts that R055 gathers).
- `tests/` exercises the library on concrete inputs.
