# napparent_tabular

Tabular effect features on chunked tables: each active column is discretized into bins,
co-occurrences of the binned values of every pair of active columns are tallied, and each
row gets a `{column}_effect` value from the weights of the value pairs it takes part in.

Layout:

- `src/` is the verified library (Verus). It holds the discrete logic: value counting and
  bin selection (`preprocess`, `stream`, `counts`, `order`), numerical bin bounds and the bin
  each value falls in, over float bit patterns (`numeric`), the column tables (`table`), the
  pair aggregator with its value interning, column pairs and tallies (`aggregator`, `pairs`),
  the batch field layout (`layout`), configuration and its limits (`activation`),
  cancellation (`cancel`) and progress decisions (`progress`). Contracts are stated over
  sequences, maps and sets; the `law_*` proof functions state properties that span calls.
- `app/` is ordinary Rust around it: Arrow record batch input and output, everything that
  computes with floating-point values (rounding, the text of bin labels, pair
  weights, effect values), the three-pass transform driver, the progress bar and the Python
  bindings.
- `tests/` exercises the library on concrete values.
