# jev_quantum

A random-baseline decision service and a maze benchmark, with the logic
written in Verus and proved against its contracts.

- `src/` is the verified library: the xoshiro256++ generator and its bulk
  fills, the System One request checks, the braided maze generator and its
  moves, the online flood-fill solver and its bounded memory projections, the
  move questions sent with them and their ablations, the settings of a run,
  the state of a benchmark walk and of a played session, the pacing and
  retry decisions, request statistics, and the metrics text.
- `app/` is the program around it: the HTTP server and client, the command
  line, the clock and sleeps, threads of the refill pool, JSON, and files.
  Its one binary has two subcommands, `server` and `bench`.
- `tests/` runs the library on concrete values.
