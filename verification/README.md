# Interval tree clocks, verified

A library of interval tree clocks (fork, event, join, peek and the derived
send, receive and sync), with every operation specified and proved in Verus.

- `src/id_tree.rs`: identity trees, their meaning as a set of points of the
  unit interval, normal form, `split` and `sum`.
- `src/event_tree.rs`: event trees, their meaning as a function from points to
  counters, normal form, `join` as the pointwise maximum, `min` and `max`.
- `src/normalisable.rs`, `src/less_than_or_equal.rs`, `src/partial_order.rs`:
  normalisation, the causal order `leq` and the comparison `partial_cmp`.
- `src/stamp.rs`, `src/cost.rs`: stamps, `fill` and `grow`, and the cost that
  `grow` minimises.
- `src/interval_tree_clock.rs`: the clock operations and the laws of
  causality they obey.
- `src/bin_coding.rs`: the compact binary coding. The writer and the decoder
  do not quite agree: what the writer writes decodes back only for counters
  below 4 (and counted nodes with an empty child), while every tree that the
  decoder's grammar can express reads back from the layout that the decoder
  expects. Both round trips are proved; `checked_from_bytes` decodes any bytes
  and reports counters too wide for 32 bits.
- `app/lib.rs`: the decoding error with the standard error traits.
