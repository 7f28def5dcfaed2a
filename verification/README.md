# onebrc

Aggregation of weather-station readings (`name;reading` per line, readings
in degrees with one decimal) into a per-station minimum, mean and maximum,
The library under `src/` (reading, splitting, tallying, merging,
ordering and rendering) is proved by Verus against its contracts; the
programs under `app/` (mapping the file, worker threads, printing) are
not.

Layout:

- `src/lib.rs`: the decimal reader (`parse_decimal_to_integer_optimized`,
  `parse_decimal_bytes`, `decimal_fits_i16`) and its model
  (`digits_value`, `decimal_value`).
- `src/solns/mod.rs`: the per-station summary `Temperature`, its `mean`
  (truncating division) and the laws on means.
- `src/solns/bytes.rs`: byte search, with the `memchr` crate behind two
  trusted wrappers.
- `src/solns/table.rs`: the station table, an `FxHashMap` seen as a map of
  plain values, behind trusted wrappers.
- `src/solns/soln.rs`: splitting the input into line-aligned chunks, the
  ranges to tally, tallying a chunk, merging tables, and the laws on them.
- `src/solns/report.rs`: ordering the stations by name and rendering the
  report lines.
- `src/solns/soln2.rs`: cutting a file into line-aligned text chunks for a
  fixed number of workers.
- `app/`: the programs that map the file, run worker threads and print.
