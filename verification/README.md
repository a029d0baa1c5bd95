# The Last Signal

An expedition roguelike: recover three archive keys in a silent research
complex, restore the relay, and return to the surface lift. ECHO, an optional
companion backed by a local model, discusses only what the player has found.

The rules of the game are a library verified with Verus; the window, the
files and the model server are a thin program around it.

## Layout

- `src/` — the verified library.
  - `game.rs`, `geom.rs`: the expedition state and its mathematical view.
  - `gen.rs`: seeded generation of rooms, corridors, archives and sentinels.
  - `sight.rs`: line of sight and the field of view.
  - `rules.rs`: every player action and the sentinels' turn.
  - `route.rs`: shortest routes over the explored map.
  - `replay.rs`: replaying the action log and the tamper check.
  - `check.rs`: validation of a whole state, as applied to saves.
  - `advice.rs`, `knowledge.rs`: hints, the end-of-run summary, and the
    discovered-state snapshot given to the companion.
  - `ai.rs`: the companion's configuration rules, conversation window and
    reply cleaning.
  - `wrap.rs`, `text.rs`, `calendar.rs`: word wrapping, number rendering and
    calendar dates.
  - `profile.rs`, `save.rs`: the bounded run history and the save rules.
  - `laws.rs`, `consistency.rs`, `layout.rs`: properties of the rules as a
    whole (replay reproduces a run, refused actions change nothing, every
    action keeps a state valid, generated objectives are reachable, ...).
- `tests/` — executable tests of the library.
- `app/` — the desktop program: drawing, input, JSON saves, the run history
  on disk, and the request to the local model server.

## Running

Verus verifies `src/`; the program in `app/` is built against the library.
Start it with `--seed N` for a repeatable expedition.
