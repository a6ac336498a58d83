# slay

The rules engine of a hex-island strategy game in the spirit of *Slay*,
written in Verus: every connected region a player owns is a territory with
its own treasury; men are bought, combined and sent to take hexes; a
territory that cannot pay its men starves; cutting a territory in two leaves
the half without the house broke.

## Layout

- `src/` — the verified library.
  - `hexgrid.rs` — the odd-r hex board: neighbours, walks and reachability,
    the hex distance and its metric laws.
  - `rules.rs`, `text.rs` — prices, wages, ranks, names; verified string helpers.
  - `game.rs` — the game state and its well-formedness invariant.
  - `territory.rs`, `cuts.rs` — recounting territories after a change
    (houses, inherited treasuries), split counts and choke hexes.
  - `combat.rs`, `economy.rs` — defence, attacks, moves and combines,
    purchases, and the start of a turn (graves, trees, income, wages,
    starvation).
  - `mapgen.rs`, `setup.rs`, `rng.rs` — island generation, start spots,
    custom islands, a new game; the random generator and exact tests of
    random draws.
  - `ai.rs` — the computer players and the rotation of turns.
  - `ui.rs`, `play.rs` — the view handed to the interface, and the player's
    commands (click, buy, end turn) with their messages and sound cues.
  - `theme.rs` — reading a terminal colour theme.
- `tests/` — tests of the library.
- `app/` — the desktop shell: window commands, shared state, serialisable
  copies of the interface types, and the theme files on disk.
