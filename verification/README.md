# canyon_raider

Canyon Raider is a top-down scrolling canyon game. This crate holds its game
logic as a Verus-verified library, with the macroquad renderer around it.

- `src/` — the verified library:
  - `scores` — the high-score board: ordering, qualification, insertion, and
    the `name|score` text format, with the round-trip law;
  - `text` — decimal numerals, the `u32::from_str` grammar, `str::lines`;
  - `cheats` — the cheat-code buffer and its effects;
  - `phase` — title / run / game over / name prompt transitions;
  - `hud` — zero-padded scores and leaderboard rows;
  - `palette` — the time-of-day cycle and theme names;
  - `world` — fuel-depot scheduling and the integer dither cells.
- `app/` — the game program: window, input, floating-point flight, drawing
  and score storage.
- `tests/` — tests of the library.
