# pingtest

A multi-target ping tool. The library under `src/` holds the logic and is
verified with Verus; `app/` is the program around it.

- `src/text.rs` — splitting an address list (lines, commas, semicolons) into
  trimmed entries; the entries read back unchanged when written one per line.
- `src/net.rs` — IPv4/IPv6 addresses and networks as integers; parsing
  through `ipnetwork` and the standard library, and address text.
- `src/utils.rs` — reading entries as networks, addresses or host names,
  expanding networks into their addresses, counting addresses for the
  warning before a large run, finding the address columns of a table.
- `src/ping.rs` — per-target statistics with their invariant, the engine's
  state, what a ping result does, and how long a round waits.
- `src/gui/table.rs` — the sort state of the result table and a verified
  stable merge sort over every column.
- `src/gui/dialogs.rs`, `src/config.rs` — what dialog buttons do, and the
  settings with their defaults.
- `app/` — command line and console table, the tokio ping loop with
  `surge-ping`, host name lookup with `dns-lookup`, the JSON settings file,
  and the egui table, dialogs and theme.
