# socket-metrics-exporter

A Prometheus exporter for the socket summary that `ss -s` prints.

- `src/` is the library, verified with Verus: reading `ss -s` output
  (`parser.rs`, over the text primitives of `text.rs` and the counts of
  `number.rs`), the statistics and errors (`stats.rs`, with the label map
  of `label_map.rs`), the gauge values that a scrape publishes
  (`metrics.rs`), and properties of reading that hold for every input
  (`laws.rs`).
- `app/` is the program: it runs `ss -s`, hands the output to the library,
  publishes the resulting gauge values with `prometheus` and serves them
  over HTTP with `actix-web`.
- `tests/` runs the library on concrete outputs.
