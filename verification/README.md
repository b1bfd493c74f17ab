# avoidant

The game logic of a multiplayer cell-exploration game ("avoid the voids"),
written in Verus and verified against its contracts.

- `src/` is the verified library:
  - `score` – exact scoring (rewards, risk-balanced void penalty, completion
    bonus) in integer score units;
  - `board` – cell metadata and the breadth-first flood reveal;
  - `voids` – seeded void placement around the opening cell, and the board
    metadata derived from it;
  - `setup` – installing a generated board into a session, and placing the
    voids once around the first explored cell;
  - `sync` – the host-authoritative session: requests, applying moves once,
    snapshots and their adoption by peers;
  - `bridge` – what a tick, a click or a received message leads to, and how
    the displayed board follows the canonical one (reveal batches included);
  - `bitmap` – the compact text form of explored flags;
  - `peers`, `pulses` – network presence and on-screen pulse ids;
  - `mesh`, `faces`, `sphere`, `stitch` – the integer topology of map meshes:
    face outlines from hull triangles, subdivision, spherical cells, and cell
    adjacency from shared outline edges.
- `tests/` exercises the library on concrete values.
- `app/` holds what the library cannot: floating-point map geometry and
  terrain (with `chull`, `voronator`, `bluenoise`), the JSON wire format
  (`serde`), and a player's game loop that a runtime drives with network
  messages and timers.
