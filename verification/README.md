# Fraud scoring by nearest neighbours

A transaction is scored by the labels of the five reference transactions nearest to
it, over quantized 14-feature vectors: approved while fewer than three of the five are
frauds.

- `src/` is the verified library: the timestamp and calendar rules of the features,
  the flat index (file format, exhaustive and pruned search), the IVF index (file
  formats with and without partitions, list probing, the adaptive and pure-list
  searches), the IVF builder (sampling, k-means, grouping, sharing lists among
  partitions) and the JSON answer. Each public function states its result, and the
  laws that span functions (what a written index reads back as, what a build writes
  is what a load accepts, how lists are shared, how days are counted) are proof
  functions.
- `app/` is the server and the command-line tools around it: reading settings and
  files, the floating-point features and scores, the HTTP routes and the benchmarks.
- `tests/` runs the library on concrete values.
