# flux

The logic of a network traffic monitor, verified with Verus.

- `src/collector/adapter.rs`: which rows of the interface table are physical
  adapters, and which adapter is the default.
- `src/collector/traffic.rs`: traffic since the last reading, from cumulative
  interface counters.
- `src/collector/daily.rs`: the per-day log (a map from day keys to records,
  kept in key order), month totals, recent days and the monthly summary.
- `src/collector/mod.rs`: the shared state and one tick of the collector.
- `src/commands/network.rs`: the commands of the interface.
- `src/lib.rs`: migration of the first data format.
- `src/text.rs`: character-level text operations.
- `app/`: the Tauri application around the library: window, tray, the
  collector thread, the interface table (Windows IP Helper), files and JSON.
