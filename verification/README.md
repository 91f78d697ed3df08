# rust_simulator

A Monte Carlo market simulator for backtesting trading strategies against
bot-driven order books. The integer core of the simulator is a Verus-verified
library; the program around it (configuration files, sampling of
floating-point parameters, the strategy worker process, CSV and JSON output)
is ordinary Rust.

## Layout

- `src/` — the verified library
  - `seeds.rs` — seeds of simulated days, sessions and adversarial runs
  - `book.rs` — price levels, the bots' quotes and volumes, and the ordering of a side
  - `matching.rs` — matching the strategy's orders against the live book
  - `limits.rs` — the position limit, and why accepted orders respect it
  - `taker.rs` — the bot taker flow: drawn quantities and book sweeps
  - `replay.rs` — trade counts and bot walls read from historical data
  - `cli.rs` — the command line
  - `quotes.rs` — names of the bots' quote rules
  - `config.rs` — run-wide configuration settings
  - `columns.rs` — the columns of the summary tables, products in name order
  - `rows.rs` — the order of the rows read and written: by time, then name
  - `rng.rs` — the random generator, uniform and weighted draws of the `rand` crates
- `tests/` — tests of the library
- `app/` — the simulator program built on the library
