# primeclue

Importing delimited text into class-labelled data sets, and the population
bookkeeping of class training, verified with Verus.

- `src/text.rs`: whitespace trimming and splitting on a separator, stated over
  `Seq<char>` as `str::trim` and `str::split` behave, with the laws that a
  split joins back to its text and that trimming is idempotent.
- `src/importer.rs`: rows of cells, header rows, column removal, class maps,
  the request type, and the data set laid out as text (the number cells are
  read as floats outside the library).
- `src/order.rs`: stable orders by integer keys, unique, and moving items of
  a vector into a new arrangement.
- `src/training.rs`: groups of trees named in turn, weak-tree removal, node
  limits and selection of the best groups; trees are opaque.
- `app/`: serde types, float parsing, and the parallel training loop over a
  tree trait.
