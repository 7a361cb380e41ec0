# bms-table-fetch

Fetches BMS difficulty tables, keeps one directory per table, and builds lookup indexes
over the charts.

- `src/` is the library: which tables are active, what their directories are called, what
  is written and what is moved. Its functions carry contracts that Verus proves, but for
  the few named below. Functions named `law_...` state what holds of several functions
  together.
- `tests/` runs the library on concrete values.
- `app/` is the program around it: command line, files, network.

What the library takes from other crates stands behind a few small functions whose stated
contracts are taken on trust: reading and writing JSON text (`serde_json`), table headers,
data and descriptions (`bms-table`), the domain of an address (`url`), SHA3-256 (`sha3`).
