# mm_sim

The verified core of a matchmaking simulation: players queue, gather in lobbies,
are split into two teams of five and play timed matches, while the pool is
summarised on screen.

- `src/` is the library, written in Verus. Every function there carries a
  contract and is proved against it, except four small functions that call
  outside crates and whose contracts are trusted, not proved: `stats::ring_new`,
  `stats::ring_push` and `stats::ring_values` (`extra_collections::RingBuf::new`,
  `push` and `iter`) and `player::random_below` (`rand`'s thread generator). The declaration of
  `RingBuf` and the two names `ring_contents` and `ring_capacity` that speak of
  its contents are trusted in the same way.
  - `ring_buffer`: a fixed-capacity circular buffer that overwrites its oldest value.
  - `lib.rs`: match counters and the tick-counted timer.
  - `time`: the simulated clock and its calendar.
  - `queue`: the matchmaker's window scan over a queue ordered by rating, and the
    tick that ages queued players' waits.
  - `lobby`: lobby slots, team assignment, enemies, the winner and the match length.
  - `player`, `player_management`: queue times, giving up, skill-change rolls, pool size.
  - `stats`: the integer queue-time summaries (lowest, highest, middle) kept in
    `extra_collections` ring buffers.
- `app/` is the bevy program around it. Ratings, skill and the Glicko-2 update are
  floating-point numbers, so the player type, the rating math, the random draws of
  skill and the terminal output live there and call the library for every decision
  that is made on whole numbers.
- `tests/` exercises the library on concrete values.
