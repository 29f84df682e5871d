# nut-power-bridge

A daemon that shows the UPS data of a NUT server through the Linux `power_supply` class, as a
Verus project.

- `src/` is the verified library: the text protocol (`protocol`), how a snapshot is read and
  written (`snapshot`), charging estimates and learned rates (`charging`), the state file
  (`charge_state`) and its paths (`paths`), the configuration (`config`) and the main loop as a
  state machine (`bridge`). The modules whose names end in `_laws` prove what holds across
  functions.
- Floating point is computed by the library itself: `rounding` says what rounding to 53 binary
  digits is, `magnitude` computes with non-negative binary64 values, and `number` reads and writes
  their bit patterns.
- `app/` is the daemon around it: environment, clocks, sockets, files, which address of the server
  answers, and the conversion between decimal text and binary64.
- `tests/` runs the library, and holds its arithmetic against the processor's.
