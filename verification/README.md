# dorfromantik_calculator

A helper for Dorfromantik sessions: it decodes save files and config strings,
reproduces the game's seeded random choices, and models the board — placing hex
tiles, scoring matching edges, tracking connected landscape features and settling
quests.

The library in `src/` is written in Verus and verified:

- `hex`, `tile` — axial hex geometry and tiles with six edges.
- `group` — the union-find forest of landscape features, with an exact model of
  its classes (`classes_add_tile`).
- `board`, `game_state` — placing tiles, scoring, quests and flags, the game loop.
- `prng` — the tile deck drawn from a seeded PCG32 generator (the `rand` crates).
- `utils` — the Unity xorshift generator, the base-52 number converter, the
  save-file decoder.
- `config` — config strings, rule numbers and level tables, preset ordering and
  filtering, rule-table text files.
- `game_core` — quest counts, tile-generator seeds, quest-tile topology from names.

`app/` is the command-line front end: file and JSON/TOML reading, and everything
that computes with floating point (Unity's `Random.value`, probability curves,
weighted choices).
