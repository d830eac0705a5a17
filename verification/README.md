# chromosaic

Players take turns claiming the cells of a board numbered along a square spiral.
On its turn a player claims the lowest-numbered cell that is free and not attacked
by a piece of another player; each claimed cell then holds one of the player's
pieces. With two knights the two players' cells are OEIS A392177 and A392178.

Layout:

- `src/grid.rs`: coordinates and the spiral board, with its laws (distinct cells,
  unit steps, prefixes, coordinate bounds).
- `src/piece.rs`: pieces, their symmetric moves, the piece list text format, and
  sorted piece names.
- `src/game.rs`: the rules as spec functions and the verified game loop.
- `src/config.rs`: game settings and building a played game.
- `src/render.rs`: drawing a game as an RGBA image.
- `src/text.rs`: splitting, trimming and parsing numbers.
- `app/`: the program: reads `piecelist.txt` and plays two knights against each
  other on a board of 100 cells. It also holds helpers that the program does not
  call: saving a game as a PNG file, and listing the piece names of the piece list.

The graphical front end (an `eframe` window with a zoomable preview and PNG export
buttons) is not part of this crate.
