# talon

The verified core of a directed greybox fuzzer's scheduler.

- `src/decimal.rs`: decimal text of integers, written and read back.
- `src/distance_file.rs`: checking a decoded distance file (schema version,
  map size, ids below the map size) and building the id-to-distance map.
- `src/scheduler.rs`: the annealing temperature, seed distances as exact
  fractions, and the choice of the next corpus entry.
- `src/ui.rs`: the status and crash lines of the terminal display and the
  monitor that throttles redraws.
- `app/`: the fuzzer itself: file reading, JSON decoding, the clock, the
  libafl `Scheduler` and `Monitor` impls, and the f64 energy and count
  formatting.
