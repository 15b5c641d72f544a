# radiochron

Portable radio-diagnostics core; every function of the library carries a
machine-checked contract.

- `src/ble/` — BLE model, protocol-aware identity fingerprints (iBeacon,
  Eddystone-UID, caller identities, FNV-1a address keys), payload hashing and
  the stateful tracker that raises persistence, co-travel, clone, flood and
  disappearance findings. `laws.rs` states the properties that hold across
  calls: identity across address rotation, opaque identity keys, findings
  reported once (clone evidence once per sensor pair over any run of
  observations), flood rate limiting, allowlists.
- `src/events/xml.rs` — the small reader for event-log XML (tag names and
  attribute keys matched whole) and the strict ISO-8601 parser;
  `src/report.rs` — the formatter and the calendar arithmetic, with both
  directions of the date round trip and the next-day law proved.
- `src/diagnostic.rs` — the Markdown diagnostic report over plain rows.
- `src/recorder.rs` — the chronicle recorder without its polling loop: what
  a status read counts as, which event-log records are new since the last
  poll, and how one poll's entries are written and flushed (with a ghost
  record of every call made on the sink).
- `src/keyed.rs` — an ordered string-keyed map; `src/text.rs` — string and
  number helpers with their specifications.
- `src/embedded/` — the BLE half of the chronicle (clock and sink supplied by
  the firmware), with a ghost record of every entry handed to the sink and
  of the sink's answers;
  `src/adapter.rs` — the portable part of the ESP-IDF adapter.
- `app/` — the binary, JSON conversions of the model types, and the NimBLE
  driver (built only for ESP-IDF targets).
