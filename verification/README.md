# vx_app

The rules of a voxel mining game as a Verus library: every function in `src/`
carries a contract, and the laws that tie functions together are proof
functions beside them.

- `src/` — the library. Ledgers and their files (`integrity`, `masonry`,
  `pack`, `drops`, `pile`, `fleet`, `dig`, `pumps`, `citizenship`,
  `drillmod`), the save manifest (`keeping`), the air side (`air`), the
  ground a body can cross (`afoot`), spoil heaps (`heap`), a drone's and a
  flier's turn decided from what they see (`operation`, `air`), the pad and the
  on-screen keyboard (`gamepad`, `osk`), the pack panel, and the pay books.
- `tests/` — behaviour on concrete values, run against the compiled library.
- `app/` — what the library cannot hold: the save directory, the floating-point
  feel of the sticks and the drill, the scout's marks, and laying buildings
  into the world.
