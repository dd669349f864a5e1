# egglog_experimental

Extended schedules and multi-extraction for the egglog engine, verified with
Verus.

- `src/schedule/`: what an extended schedule means (`semantics`), the machine
  that runs one (`machine`), and what holds of all schedules (`laws`). The
  machine asks for what the engine is to do and is told how that went.
- `src/schedulers/`: the back-off scheduler, the round-robin scheduler around
  it, and the tags that both are built from.
- `src/multi_extract/`: how terms that were extracted together are printed,
  with names for the parts that they share. `naming` says which parts get a
  name and how terms read with the names, `layout` how lines are broken. What
  holds of all that is printed stands in `laws`, `line_breaks` (where lines are
  broken), `tokens` (how names are put back) and `sharing` (how often terms are
  spelled out and names used).
- `src/std_text.rs`, `src/schedulers/matches.rs` and `src/multi_extract/dag.rs`
  hold what is trusted: contracts of functions of the standard library and of
  the engine.
- `app/`: the commands that the engine calls, which carry out what the library
  asks for.
