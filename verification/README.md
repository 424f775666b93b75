# bundle_scheduler

What a block-producing node buffers, ranks and schedules: packets, votes and bundles of
transactions. The library under `src/` is verified with Verus; the functions state in their
contracts what they return and change, and how often and with what they call the functions that
they are handed. Left open is what the clocks read, what such a function answers, and whether the
channel takes a bundle.

- `src/` holds the data structures and the rules: the packet buffer with its priority queue, the
  pass that forwards packets, the scan that forms batches under account locks, the latest votes,
  the bundle storage, the ranking of bundles by what they pay, and the scheduler's control flow.
- `tests/` runs the library on concrete values.
- `app/` is ordinary Rust around it: the scheduler thread, the queue that threads share, the start
  of the block engine and conversions of network types.

The bank, the forward buffer and the worker threads are outside. What they decide comes in as
arguments or through functions that the caller hands over. A contract holds for every answer that
its `requires` admits, such as places that lie in the batch they are about.
